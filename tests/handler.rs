use rusty_proxy::cache::{mk_file_path, CacheFile, FileMetadata};
use rusty_proxy::handler::{
    after_failed_connect, cached_response, parse_failure_reply, pending_write, should_cache,
    should_look_up_cache, ConnectStep,
};
use rusty_proxy::headers::{Headers, HttpError};
use rusty_proxy::opts::Service;
use rusty_proxy::queue::{borrow_service, AddrQueue, CCFifoQueue};
use rusty_proxy::request::{parse_request, Method};
use rusty_proxy::response::{parse_response, Code, Response, ResponseHeader, StatusLine};

const PNG: [u8; 4] = [0x89, 0x50, 0x4E, 0x47];

fn upstream_png() -> Response {
    let raw = [
        b"HTTP/1.1 200 OK\r\ncontent-type: image/png\r\ncontent-length: 4\r\n\r\n".to_vec(),
        PNG.to_vec(),
    ]
    .concat();
    parse_response(&raw).unwrap().0
}

fn response(code: Code, ct: Option<&str>, body: Vec<u8>) -> Response {
    let mut header = ResponseHeader::new(StatusLine {
        version: "HTTP/1.1".to_string(),
        code,
        reason: "R".to_string(),
    });
    if let Some(ct) = ct {
        header.insert_header("content-type".to_string(), ct.to_string());
    }
    Response { header, body }
}

#[test]
fn cold_get_cacheable() {
    let res = upstream_png();
    assert!(should_cache(Method::Get, &res));
    let path = mk_file_path(&"cache_dir".to_string(), "/path/to/resource".to_string());
    assert_eq!(path, "cache_dir/path/to/resource");
    let ttl = 5 * 60;
    let entry = pending_write(Method::Get, &res, path.clone(), false, ttl, Some(1_700_000_000)).unwrap();
    assert_eq!(entry.metadata.timestamp, 1_700_000_000);
    assert_eq!(entry.path, path);
    assert_eq!(entry.metadata.ttl_secs, 300);
    assert_eq!(entry.metadata.content_type.as_deref(), Some("image/png"));
    assert_eq!(entry.content_data, PNG.to_vec());
    let bytes = entry.to_bytes();
    assert!(bytes.starts_with(b"image/png\n"));
    assert_eq!(&bytes[bytes.len() - 4..], &PNG);
    let mut reply = res;
    reply.set_server();
    let out = reply.to_buffer();
    let (seen, _) = parse_response(&out).unwrap();
    assert_eq!(seen.body, PNG.to_vec());
    assert_eq!(seen.header.headers.get("server").unwrap(), "rusty-proxy");
}

#[test]
fn warm_get_fresh() {
    let entry = CacheFile {
        metadata: FileMetadata::with_timestamp(1000, 300, 4, Some("image/png".to_string())),
        path: "cache_dir/path/to/resource".to_string(),
        content_data: PNG.to_vec(),
    };
    let bytes = entry.to_bytes();
    assert!(should_look_up_cache(Method::Get, true));
    let res = cached_response(Method::Get, Some(&bytes), entry.path.clone(), Some(1299)).unwrap();
    assert_eq!(res.header.status.code.value(), 200);
    assert_eq!(res.header.status.reason, "OK");
    assert_eq!(res.body, PNG.to_vec());
    assert_eq!(res.get_content_type().unwrap(), "image/png");
    assert_eq!(res.header.get_content_length(), Some(4));
    let clockless = cached_response(Method::Get, Some(&bytes), entry.path.clone(), None);
    assert!(clockless.is_some());
}

#[test]
fn warm_get_expired() {
    let entry = CacheFile {
        metadata: FileMetadata::with_timestamp(1000, 300, 4, Some("image/png".to_string())),
        path: "p".to_string(),
        content_data: PNG.to_vec(),
    };
    let bytes = entry.to_bytes();
    assert!(cached_response(Method::Get, Some(&bytes), "p".to_string(), Some(1300)).is_none());
    assert!(cached_response(Method::Get, Some(&bytes), "p".to_string(), Some(5000)).is_none());
    let res = upstream_png();
    assert!(pending_write(Method::Get, &res, "p".to_string(), false, 300, Some(5000)).is_some());
    assert!(pending_write(Method::Get, &res, "p".to_string(), false, 300, None).is_none());
}

#[test]
fn cache_miss_cases() {
    let bytes = b"corrupt".to_vec();
    assert!(cached_response(Method::Get, Some(&bytes), "p".to_string(), Some(0)).is_none());
    assert!(cached_response(Method::Get, None, "p".to_string(), Some(0)).is_none());
    assert!(!should_look_up_cache(Method::Get, false));
    assert!(!should_look_up_cache(Method::Head, true));
}

#[test]
fn post_forwarded_and_not_cached() {
    let raw = b"POST /x HTTP/1.1\r\ncontent-length: 5\r\naccept-encoding: gzip\r\nhost: me\r\n\r\nhello";
    let (mut req, _) = parse_request(raw).unwrap();
    let service = Service { addr: "127.0.0.1".to_string(), port: 9000 };
    req.rewrite_for_upstream(service.host());
    let out = req.to_buffer();
    assert!(out.ends_with(b"\r\n\r\nhello"));
    let (seen, _) = parse_request(&out).unwrap();
    assert_eq!(seen.header.headers.get("host").unwrap(), "127.0.0.1:9000");
    assert!(seen.header.headers.get("accept-encoding").is_none());
    assert_eq!(seen.body, b"hello".to_vec());
    let res = upstream_png();
    assert!(!should_cache(Method::Post, &res));
    assert!(pending_write(Method::Post, &res, "p".to_string(), false, 60, Some(1)).is_none());
}

#[test]
fn upstream_down_retries_exhausted() {
    let failure_retries: u16 = 2;
    let failure_delay_ms: u64 = 10;
    let mut waits = 0u64;
    let mut left = failure_retries;
    loop {
        match after_failed_connect(left) {
            ConnectStep::Retry { retries_left } => {
                waits += 1;
                left = retries_left;
            }
            ConnectStep::GiveUp => break,
        }
    }
    assert_eq!(waits, 2);
    assert!(waits * failure_delay_ms >= 20);
    let reply = Response::response500();
    assert_eq!(reply.header.status.code.value(), 500);
    let registry = CCFifoQueue::new(vec![Service { addr: "10.0.0.9".to_string(), port: 1 }]);
    let s = borrow_service(&registry).unwrap();
    assert_eq!(s.addr, "10.0.0.9");
    let again = borrow_service(&registry).unwrap();
    assert_eq!(again.addr, "10.0.0.9");
}

#[test]
fn malformed_request_gets_400() {
    let err = parse_request(b"NOTAVERB / HTTP/1.1\r\n\r\n").unwrap_err();
    assert_eq!(err, HttpError::MalformedMessage);
    let reply = parse_failure_reply(err).unwrap();
    assert_eq!(reply.header.status.code.value(), 400);
    assert!(parse_failure_reply(HttpError::DecodeError).is_none());
    assert!(parse_failure_reply(HttpError::IoError).is_none());
}

#[test]
fn cacheability_policy() {
    assert!(response(Code::Code200, Some("image/png"), vec![1]).is_cacheable());
    assert!(response(Code::Code206, Some("application/pdf"), vec![]).is_cacheable());
    assert!(!response(Code::Code404, Some("image/png"), vec![1]).is_cacheable());
    assert!(!response(Code::Code300, Some("image/png"), vec![1]).is_cacheable());
    assert!(!response(Code::Code200, Some("text/html"), vec![1]).is_cacheable());
    assert!(!response(Code::Code200, None, vec![1]).is_cacheable());
    let limit = 31 * 1048576 - 1;
    assert!(response(Code::Code200, Some("text/css"), vec![0; limit]).is_cacheable());
    let over = response(Code::Code200, Some("text/css"), vec![0; 31 * 1048576]);
    assert_eq!(over.body_size_mb(), 31);
    assert!(!over.is_cacheable());
    assert!(!should_cache(Method::Head, &response(Code::Code200, Some("text/css"), vec![])));
}

#[test]
fn directory_path_is_not_written() {
    let res = upstream_png();
    assert!(pending_write(Method::Get, &res, "dir".to_string(), true, 60, Some(1)).is_none());
}

#[test]
fn from_cache_file_headers() {
    let f = CacheFile {
        metadata: FileMetadata::with_timestamp(1, 2, 3, None),
        path: "p".to_string(),
        content_data: b"abc".to_vec(),
    };
    let r = Response::from_cache_file(f);
    assert_eq!(r.header.status.reason, "OK");
    assert!(r.get_content_type().is_none());
    assert_eq!(r.header.headers.get("content-length").unwrap(), "3");
    assert_eq!(r.header.headers.get("server").unwrap(), "rusty-proxy");
    let mut h = Headers::new();
    h.insert("x".to_string(), "y".to_string());
    assert_eq!(h.len(), 1);
}

#[test]
fn round_robin_rotation() {
    let endpoints = vec![
        Service { addr: "a".to_string(), port: 1 },
        Service { addr: "b".to_string(), port: 2 },
        Service { addr: "c".to_string(), port: 3 },
    ];
    let registry = CCFifoQueue::new(endpoints);
    let handle = registry.clone();
    let mut counts = [0usize; 3];
    let n = 10;
    for i in 0..n {
        let q = if i % 2 == 0 { &registry } else { &handle };
        let s = borrow_service(q).unwrap();
        counts[(s.port - 1) as usize] += 1;
    }
    for c in counts.iter() {
        assert!(*c == n / 3 || *c == n / 3 + 1);
    }
    assert_eq!(counts.iter().sum::<usize>(), n);
}

#[test]
fn address_registry_keeps_order() {
    let q = AddrQueue::new(vec![("x".to_string(), 1), ("y".to_string(), 2)]);
    let other = q.clone();
    let first = other.poller.lock().unwrap().recv().unwrap();
    assert_eq!(first, ("x".to_string(), 1));
    q.pusher.send(first).unwrap();
    let second = q.poller.lock().unwrap().recv().unwrap();
    assert_eq!(second, ("y".to_string(), 2));
}
