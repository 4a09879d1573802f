use http_directory::directory::{is_reserved, Existence, HttpDirectory};
use http_directory::error::StoreError;
use http_directory::lengths::{length_from_probe, parse_content_length, LengthCache};

#[test]
fn urls_are_joined_with_one_separator() {
    let d = HttpDirectory::new("http://origin/index");
    assert_eq!(d.format_url("meta.json"), "http://origin/index/meta.json");
    let d = HttpDirectory::new("http://origin/index/");
    assert_eq!(d.format_url("meta.json"), "http://origin/index/meta.json");
    assert_eq!(d.get_file_handle("a.idx").url(), "http://origin/index/a.idx");
}

#[test]
fn reserved_path_exists_without_probe() {
    let d = HttpDirectory::new("http://origin");
    let lengths = LengthCache::new();
    assert!(matches!(d.existence(".tantivy-meta.lock", &lengths), Existence::Known(true)));
    assert!(is_reserved(".tantivy-meta.lock"));
    assert!(!is_reserved("meta.json"));
}

#[test]
fn other_paths_need_a_length() {
    let d = HttpDirectory::new("http://origin");
    let mut lengths = LengthCache::new();
    match d.existence("meta.json", &lengths) {
        Existence::Probe(url) => assert_eq!(url, "http://origin/meta.json"),
        Existence::Known(_) => panic!("expected a probe"),
    }
    lengths.record(&"http://origin/meta.json".to_string(), 12);
    lengths.record(&"http://origin/empty".to_string(), 0);
    assert!(matches!(d.existence("meta.json", &lengths), Existence::Known(true)));
    assert!(matches!(d.existence("empty", &lengths), Existence::Known(false)));
}

#[test]
fn reserved_path_write_and_delete() {
    let d = HttpDirectory::new("http://origin");
    assert_eq!(d.delete(".tantivy-meta.lock"), Ok(()));
    let mut w = d.open_write(".tantivy-meta.lock").ok().unwrap();
    assert!(!w.warns_on_drop());
    assert_eq!(w.write(b"lock"), 4);
    assert!(w.warns_on_drop());
    w.flush();
    assert!(!w.warns_on_drop());
    assert_eq!(w.path_name(), ".tantivy-meta.lock");
}

#[test]
fn other_paths_are_unsupported() {
    let d = HttpDirectory::new("http://origin");
    assert_eq!(d.delete("/any/other/file"), Err(StoreError::UnsupportedOperation));
    assert!(matches!(d.open_write("/any/other/file"), Err(StoreError::UnsupportedOperation)));
    assert_eq!(d.atomic_write("meta.json", b"x"), Err(StoreError::UnsupportedOperation));
    assert_eq!(d.sync_directory(), Ok(()));
}

#[test]
fn writer_overwrites_and_pads() {
    let d = HttpDirectory::new("http://origin");
    let mut w = d.open_write(".tantivy-meta.lock").ok().unwrap();
    w.write(b"abc");
    w.seek_to(1);
    w.write(b"XY");
    assert_eq!(w.bytes(), &b"aXY".to_vec());
    w.seek_to(5);
    w.write(b"z");
    assert_eq!(w.bytes(), &vec![b'a', b'X', b'Y', 0, 0, b'z']);
    assert_eq!(w.len(), 6);
    assert_eq!(w.position_now(), 6);
}

#[test]
fn content_length_parsing() {
    assert_eq!(parse_content_length(&b"100000".to_vec()), Some(100000));
    assert_eq!(parse_content_length(&b"0".to_vec()), Some(0));
    assert_eq!(parse_content_length(&b"".to_vec()), None);
    assert_eq!(parse_content_length(&b"12a".to_vec()), None);
    assert_eq!(parse_content_length(&b"-1".to_vec()), None);
    assert_eq!(parse_content_length(&b"18446744073709551615".to_vec()), Some(u64::MAX));
    assert_eq!(parse_content_length(&b"18446744073709551616".to_vec()), None);
}

#[test]
fn probe_outcomes() {
    assert_eq!(length_from_probe(&Some((200, Some(b"42".to_vec())))), Ok(42));
    assert_eq!(length_from_probe(&Some((404, Some(b"42".to_vec())))), Err(StoreError::RemoteUnavailable));
    assert_eq!(length_from_probe(&Some((200, None))), Err(StoreError::RemoteUnavailable));
    assert_eq!(length_from_probe(&Some((200, Some(b"4x".to_vec())))), Err(StoreError::RemoteUnavailable));
    assert_eq!(length_from_probe(&None), Err(StoreError::RemoteUnavailable));
}

#[test]
fn lengths_are_recorded_once() {
    let mut lengths = LengthCache::new();
    let url = "http://origin/a".to_string();
    assert_eq!(lengths.lookup(&url), None);
    lengths.record(&url, 10);
    lengths.record(&url, 20);
    assert_eq!(lengths.lookup(&url), Some(10));
    assert_eq!(lengths.lookup(&"http://origin/b".to_string()), None);
}
