use ghtrending::cache::{
    frame, is_expired, read_frame, should_report, FileName, FrameError, CACHE_DEV_FILE, CACHE_REPO_FILE,
    DATA_EXPIRED, NO_DATA,
};

#[test]
fn file_names_pick_the_file() {
    assert_eq!(FileName::CacheDevFile(CACHE_DEV_FILE).file(), "cache_dev.json");
    assert_eq!(FileName::CacheRepoFile(CACHE_REPO_FILE).file(), "cache_repo.json");
}

#[test]
fn frame_puts_the_length_first() {
    assert_eq!(frame(b"abc").unwrap(), vec![0, 0, 0, 3, b'a', b'b', b'c']);
    assert_eq!(frame(b"").unwrap(), vec![0, 0, 0, 0]);
    let big = vec![7u8; 300];
    let f = frame(&big).unwrap();
    assert_eq!(&f[..4], &[0, 0, 1, 44]);
    assert!(frame(&vec![0u8; 8 * 1024 * 1024]).is_ok());
    assert_eq!(frame(&vec![0u8; 8 * 1024 * 1024 + 1]), Err(FrameError::TooLong));
}

#[test]
fn a_framed_payload_reads_back() {
    let payload = br#"[{"name":"test_0"},{"name":"test_9"}]"#.to_vec();
    let bytes = frame(&payload).unwrap();
    assert_eq!(read_frame(&bytes).unwrap(), Some(payload.clone()));
    let mut longer = bytes.clone();
    longer.extend_from_slice(&[0, 0, 0, 1, 9]);
    assert_eq!(read_frame(&longer).unwrap(), Some(payload));
}

#[test]
fn broken_frames_are_told_apart_from_empty_files() {
    assert_eq!(read_frame(&[]).unwrap(), None);
    assert_eq!(read_frame(&[0, 0, 0, 5]).unwrap(), None);
    assert_eq!(read_frame(&[0, 0]), Err(FrameError::Truncated));
    assert_eq!(read_frame(&[0, 0, 0, 5, 1]), Err(FrameError::Truncated));
    assert_eq!(read_frame(&[1, 0, 0, 0, 1]), Err(FrameError::TooLong));
    assert_eq!(read_frame(&[0, 0x80, 0, 0]), Ok(None));
    assert_eq!(read_frame(&[0, 0x80, 0, 0, 1]), Err(FrameError::Truncated));
    assert_eq!(read_frame(&[0, 0x80, 0, 1]), Err(FrameError::TooLong));
}

#[test]
fn cache_expires_after_twelve_hours() {
    assert!(!is_expired(0));
    assert!(!is_expired(43200));
    assert!(is_expired(43201));
}

#[test]
fn expired_or_empty_cache_is_not_reported() {
    assert!(!should_report(DATA_EXPIRED));
    assert!(!should_report(NO_DATA));
    assert!(should_report("No such file or directory (os error 2)"));
}

fn developers_json() -> Vec<u8> {
    let mut items = Vec::new();
    for i in 0..10 {
        items.push(format!(
            r#"{{"name":"test_{}","avatar":"test_avatar_{}","popular_repo":"test_popular_repo_{}","description":"test_description_{}"}}"#,
            i, i, i, i
        ));
    }
    format!("[{}]", items.join(",")).into_bytes()
}

#[test]
fn test_cache() {
    let payload = developers_json();
    let bytes = frame(&payload).unwrap();
    assert_eq!(bytes.len(), payload.len() + 4);
    assert_eq!(&bytes[4..], &payload[..]);
}

#[test]
fn test_load() {
    let bytes = frame(&developers_json()).unwrap();
    let payload = read_frame(&bytes).unwrap().unwrap();
    let devs: serde_json::Value = serde_json::from_slice(&payload).unwrap();
    let devs = devs.as_array().unwrap();
    assert_eq!(devs.len(), 10);
    assert_eq!(devs[0]["name"], "test_0");
    assert_eq!(devs.last().unwrap()["name"], "test_9");
}
