use rusty_proxy::cache::{expired_paths, mk_file_path, CacheError, CacheFile, FileMetadata};
use rusty_proxy::opts::{Opts, OptsError, Service};

fn entry(ct: Option<&str>, ts: u64, ttl: u64, body: &[u8]) -> CacheFile {
    CacheFile {
        metadata: FileMetadata::with_timestamp(ts, ttl, body.len() as u64, ct.map(|c| c.to_string())),
        path: "/tmp/cache/x".to_string(),
        content_data: body.to_vec(),
    }
}

#[test]
fn entry_layout_on_disk() {
    let e = entry(Some("image/png"), 0x0102030405060708, 600, &[0x89, 0x50, 0x4E, 0x47]);
    let mut expected = b"image/png\n".to_vec();
    expected.extend_from_slice(&[8, 7, 6, 5, 4, 3, 2, 1]);
    expected.extend_from_slice(&[0x58, 2, 0, 0, 0, 0, 0, 0]);
    expected.extend_from_slice(&[4, 0, 0, 0, 0, 0, 0, 0]);
    expected.extend_from_slice(&[0x89, 0x50, 0x4E, 0x47]);
    assert_eq!(e.to_bytes(), expected);
}

#[test]
fn entry_without_content_type_has_empty_line() {
    let e = entry(None, 1, 2, b"");
    let b = e.to_bytes();
    assert_eq!(b.len(), 25);
    assert_eq!(b[0], b'\n');
    let back = CacheFile::from_bytes("p".to_string(), &b).unwrap();
    assert!(back.metadata.content_type.is_none());
}

#[test]
fn entry_round_trip() {
    let e = entry(Some("text/css; charset=\u{fc}tf-8"), 1_700_000_000, 3600, b"body { }\n\r\n");
    let b = e.to_bytes();
    let back = CacheFile::from_bytes("/tmp/cache/x".to_string(), &b).unwrap();
    assert_eq!(back.metadata.content_type, e.metadata.content_type);
    assert_eq!(back.metadata.timestamp, 1_700_000_000);
    assert_eq!(back.metadata.ttl_secs, 3600);
    assert_eq!(back.metadata.content_length, e.content_data.len() as u64);
    assert_eq!(back.content_data, e.content_data);
    assert_eq!(back.path, "/tmp/cache/x");
}

#[test]
fn metadata_reads_from_prefix() {
    let e = entry(Some("audio/ogg"), 5, 6, b"abcdef");
    let b = e.to_bytes();
    let (m, h) = FileMetadata::from_bytes(&b).unwrap();
    assert_eq!(h, "audio/ogg\n".len() + 24);
    assert_eq!(m.timestamp, 5);
    assert_eq!(m.ttl_secs, 6);
    assert_eq!(m.content_length, 6);
    assert_eq!(m.content_type.as_deref(), Some("audio/ogg"));
    assert_eq!(m.to_bytes(), b[..h].to_vec());
}

#[test]
fn corrupt_entries_are_refused() {
    assert_eq!(FileMetadata::from_bytes(b"no newline").unwrap_err(), CacheError::Corrupt);
    assert_eq!(FileMetadata::from_bytes(b"image/png\nshort").unwrap_err(), CacheError::Corrupt);
    let mut bad = vec![0xff, b'\n'];
    bad.extend_from_slice(&[0u8; 24]);
    assert_eq!(FileMetadata::from_bytes(&bad).unwrap_err(), CacheError::Corrupt);
    let e = entry(Some("image/gif"), 1, 1, b"12345");
    let b = e.to_bytes();
    assert_eq!(
        CacheFile::from_bytes("p".to_string(), &b[..b.len() - 1]).unwrap_err(),
        CacheError::Corrupt
    );
}

#[test]
fn expiry_boundary() {
    let m = FileMetadata::with_timestamp(100, 60, 0, None);
    assert!(!m.is_expired_at(159));
    assert!(m.is_expired_at(160));
    assert!(m.is_expired_at(161));
    assert!(!m.is_expired_at(99));
}

#[test]
fn expiry_against_the_clock() {
    let m = FileMetadata::with_timestamp(0, 1, 0, None);
    assert!(m.is_expired());
    let fresh = FileMetadata::new(3600, 0, None).unwrap();
    assert!(!fresh.is_expired());
    assert_eq!(fresh.ttl_secs, 3600);
}

#[test]
fn new_entry_is_stamped_now() {
    let f = CacheFile::new(60, 3, "/c/x".to_string(), b"abc".to_vec(), Some("text/css".to_string()))
        .unwrap();
    assert!(f.metadata.timestamp > 1_600_000_000);
    assert_eq!(f.metadata.ttl_secs, 60);
    assert_eq!(f.metadata.content_length, 3);
    assert_eq!(f.metadata.content_type.unwrap(), "text/css");
}

#[test]
fn file_path_strips_leading_slash() {
    assert_eq!(
        mk_file_path(&"cache_dir".to_string(), "/path/to/resource".to_string()),
        "cache_dir/path/to/resource"
    );
    assert_eq!(mk_file_path(&"/var/c/".to_string(), "/a".to_string()), "/var/c/a");
    assert_eq!(mk_file_path(&"c".to_string(), "rel".to_string()), "c/rel");
    assert_eq!(mk_file_path(&"".to_string(), "/a".to_string()), "a");
}

#[test]
fn sweep_deletes_expired_entries_only() {
    let old = entry(Some("image/png"), 100, 50, b"x").to_bytes();
    let edge = entry(None, 100, 60, b"").to_bytes();
    let fresh = entry(None, 100, 1000, b"").to_bytes();
    let junk = b"garbage".to_vec();
    let files = vec![
        ("c/old".to_string(), old),
        ("c/fresh".to_string(), fresh),
        ("c/edge".to_string(), edge),
        ("c/junk".to_string(), junk),
    ];
    let victims = expired_paths(&files, 160);
    assert_eq!(victims, vec!["c/old".to_string(), "c/edge".to_string()]);
}

#[test]
fn opts_validation_and_ttl() {
    let mut o = Opts {
        port: 8080,
        addr: "127.0.0.1".to_string(),
        cache_dir: "cache".to_string(),
        cache_ttl_mins: 5,
        workers: 4,
        failure_delay: 10,
        failure_retries: 2,
        services: vec![Service { addr: "10.0.0.1".to_string(), port: 80 }],
    };
    assert!(o.validate().is_ok());
    assert_eq!(o.cache_ttl_secs(), 300);
    o.cache_ttl_mins = 0;
    assert_eq!(o.validate().unwrap_err(), OptsError::NoCacheTtl);
    o.workers = 0;
    assert_eq!(o.validate().unwrap_err(), OptsError::NoWorkers);
    assert_eq!(o.services[0].host(), "10.0.0.1:80");
}
