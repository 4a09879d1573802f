use http_directory::chunk::{chunk_span, fetch_bounds, fetch_timeout_ms, CHUNK_SIZE};
use http_directory::error::StoreError;
use http_directory::handle::{FetchRequest, HttpFileHandle, ReadPlan};
use http_directory::table::{CacheKey, ChunkStore};

fn sample_file(len: usize) -> Vec<u8> {
    (0..len).map(|i| (i % 251) as u8).collect()
}

/// Answers a range request the way an origin would: the bytes `[from, to)`, cut at the end.
fn origin_answer(file: &[u8], req: &FetchRequest) -> Option<(u16, Vec<u8>)> {
    let from = (req.from as usize).min(file.len());
    let to = (req.to as usize).min(file.len());
    Some((206, file[from..to].to_vec()))
}

/// Reads through the table, fetching from `file` when needed; counts the fetches.
fn read(
    handle: &HttpFileHandle,
    store: &mut ChunkStore,
    file: &[u8],
    start: u64,
    end: u64,
    fetches: &mut Vec<FetchRequest>,
) -> Vec<u8> {
    match handle.plan_read(store, start, end) {
        ReadPlan::Cached(bytes) => bytes,
        ReadPlan::Fetch(req) => {
            fetches.push(req);
            handle.finish_read(store, start, end, origin_answer(file, &req)).unwrap()
        }
    }
}

#[test]
fn span_of_ranges() {
    assert_eq!(chunk_span(0, 50000), (0, 1));
    assert_eq!(chunk_span(60000, 70000), (1, 2));
    assert_eq!(chunk_span(100, 100), (0, 0));
    assert_eq!(chunk_span(40000, 40000), (1, 1));
}

#[test]
fn boundary_end_spans_no_extra_chunk() {
    assert_eq!(chunk_span(0, 65536), (0, 1));
    assert_eq!(chunk_span(32768, 65536), (1, 1));
    assert_eq!(fetch_bounds(0, 1), (0, 65536));
}

#[test]
fn timeout_grows_with_size() {
    assert_eq!(fetch_timeout_ms(0, 0), 500);
    assert_eq!(fetch_timeout_ms(0, 50000), 548);
    assert_eq!(fetch_timeout_ms(1000, 3048), 502);
}

#[test]
fn scenario_hundred_thousand_bytes() {
    let file = sample_file(100_000);
    let handle = HttpFileHandle::new("http://origin/index/seg.idx".to_string());
    let mut store = ChunkStore::with_default_capacity();
    let mut fetches = Vec::new();

    let first = read(&handle, &mut store, &file, 0, 50000, &mut fetches);
    assert_eq!(first, file[0..50000].to_vec());
    assert_eq!(fetches.len(), 1);
    assert_eq!(fetches[0].first_chunk, 0);
    assert_eq!(fetches[0].last_chunk, 1);
    assert_eq!((fetches[0].from, fetches[0].to), (0, 65536));

    let again = read(&handle, &mut store, &file, 0, 50000, &mut fetches);
    assert_eq!(again, first);
    assert_eq!(fetches.len(), 1);

    let later = read(&handle, &mut store, &file, 60000, 70000, &mut fetches);
    assert_eq!(later, file[60000..70000].to_vec());
    assert_eq!(fetches.len(), 2);
    assert_eq!((fetches[1].first_chunk, fetches[1].last_chunk), (1, 2));
}

#[test]
fn boundary_read_keeps_no_trailing_chunk() {
    let file = sample_file(100_000);
    let handle = HttpFileHandle::new("http://origin/f".to_string());
    let mut store = ChunkStore::with_default_capacity();
    let mut fetches = Vec::new();
    let bytes = read(&handle, &mut store, &file, 0, 65536, &mut fetches);
    assert_eq!(bytes, file[0..65536].to_vec());
    assert_eq!(fetches[0].to, 65536);
    let url = "http://origin/f".to_string();
    assert!(store.contains(&CacheKey::new(url.clone(), 0)));
    assert!(store.contains(&CacheKey::new(url.clone(), 1)));
    assert!(!store.contains(&CacheKey::new(url, 2)));
}

#[test]
fn final_short_chunk_is_served() {
    let file = sample_file(100_000);
    let handle = HttpFileHandle::new("http://origin/g".to_string());
    let mut store = ChunkStore::with_default_capacity();
    let mut fetches = Vec::new();
    let tail = read(&handle, &mut store, &file, 98000, 100_000, &mut fetches);
    assert_eq!(tail, file[98000..100_000].to_vec());
    let whole = read(&handle, &mut store, &file, 0, 100_000, &mut fetches);
    assert_eq!(whole, file);
    let again = read(&handle, &mut store, &file, 99_999, 100_000, &mut fetches);
    assert_eq!(again, vec![file[99_999]]);
    assert_eq!(fetches.len(), 2);
}

#[test]
fn evicted_chunk_is_fetched_again() {
    let file = sample_file(5 * CHUNK_SIZE as usize);
    let handle = HttpFileHandle::new("http://origin/h".to_string());
    let mut store = ChunkStore::new(2);
    let mut fetches = Vec::new();
    let cs = CHUNK_SIZE;
    read(&handle, &mut store, &file, 0, 10, &mut fetches);
    read(&handle, &mut store, &file, cs, cs + 10, &mut fetches);
    read(&handle, &mut store, &file, 2 * cs, 2 * cs + 10, &mut fetches);
    assert_eq!(fetches.len(), 3);
    // chunk 1 is still held
    read(&handle, &mut store, &file, cs + 5, cs + 20, &mut fetches);
    assert_eq!(fetches.len(), 3);
    // chunk 0 was the least recently used and is gone
    let bytes = read(&handle, &mut store, &file, 0, 10, &mut fetches);
    assert_eq!(fetches.len(), 4);
    assert_eq!(bytes, file[0..10].to_vec());
}

#[test]
fn failed_fetches_are_reported() {
    let file = sample_file(1000);
    let handle = HttpFileHandle::new("http://origin/e".to_string());
    let mut store = ChunkStore::with_default_capacity();
    assert_eq!(handle.finish_read(&mut store, 0, 10, None), Err(StoreError::FetchFailed));
    assert_eq!(
        handle.finish_read(&mut store, 0, 10, Some((200, file.clone()))),
        Err(StoreError::FetchFailed)
    );
    assert_eq!(
        handle.finish_read(&mut store, 0, 10, Some((206, file[0..5].to_vec()))),
        Err(StoreError::FetchFailed)
    );
    assert!(matches!(handle.plan_read(&mut store, 0, 10), ReadPlan::Fetch(_)));
    assert_eq!(
        handle.finish_read(&mut store, 0, 10, Some((206, file.clone()))),
        Ok(file[0..10].to_vec())
    );
}
