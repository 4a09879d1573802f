use http_directory::table::{CacheKey, ChunkStore};

fn key(chunk: u64) -> CacheKey {
    CacheKey::new("http://origin/t".to_string(), chunk)
}

#[test]
fn least_recently_used_is_evicted() {
    let mut store = ChunkStore::new(2);
    store.put(&key(0), vec![0]);
    store.put(&key(1), vec![1]);
    assert_eq!(store.get(&key(0)), Some(vec![0]));
    store.put(&key(2), vec![2]);
    assert!(store.contains(&key(0)));
    assert!(!store.contains(&key(1)));
    assert!(store.contains(&key(2)));
}

#[test]
fn put_overwrites_and_keeps_count() {
    let mut store = ChunkStore::new(2);
    store.put(&key(0), vec![0]);
    store.put(&key(1), vec![1]);
    store.put(&key(0), vec![9]);
    store.put(&key(2), vec![2]);
    assert_eq!(store.get(&key(0)), Some(vec![9]));
    assert_eq!(store.get(&key(1)), None);
    assert_eq!(store.get(&key(2)), Some(vec![2]));
}

#[test]
fn contains_does_not_refresh() {
    let mut store = ChunkStore::new(2);
    store.put(&key(0), vec![0]);
    store.put(&key(1), vec![1]);
    assert!(store.contains(&key(0)));
    store.put(&key(2), vec![2]);
    assert!(!store.contains(&key(0)));
}

#[test]
fn keys_of_different_files_differ() {
    let mut store = ChunkStore::new(4);
    store.put(&CacheKey::new("http://a/x".to_string(), 0), vec![1]);
    assert_eq!(store.get(&CacheKey::new("http://a/y".to_string(), 0)), None);
    assert_eq!(key(3).chunk(), 3);
    assert_eq!(key(3).url(), "http://origin/t");
}
