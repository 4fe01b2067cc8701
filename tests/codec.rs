use rusty_proxy::headers::{
    cacheable_types, content_length, is_cacheable_content_type, parse_headers, parse_version,
    Headers, HttpError,
};
use rusty_proxy::request::{
    parse_request, parse_request_head, parse_request_header, parse_uri, Method, Request,
    RequestHeader, RequestLine,
};
use rusty_proxy::response::{parse_response, parse_response_header, Code, Response};

fn header(name: &str, value: &str) -> (String, String) {
    (name.to_string(), value.to_string())
}

fn request(method: Method, uri: &str, fields: Vec<(String, String)>, body: &[u8]) -> Request {
    let mut headers = Headers::new();
    for (k, v) in fields {
        headers.insert(k, v);
    }
    Request {
        header: RequestHeader {
            metadata: RequestLine {
                method,
                uri: uri.to_string(),
                version: "HTTP/1.1".to_string(),
            },
            headers,
        },
        body: body.to_vec(),
    }
}

#[test]
fn parses_a_get_request_with_headers() {
    let raw = b"GET /path/to/resource HTTP/1.1\r\nHost: example.com\r\nAccept:  */* \r\n\r\n";
    let (req, used) = parse_request(raw).unwrap();
    assert_eq!(used, raw.len());
    assert_eq!(req.header.metadata.method, Method::Get);
    assert_eq!(req.header.metadata.uri, "/path/to/resource");
    assert_eq!(req.header.metadata.version, "HTTP/1.1");
    assert_eq!(req.header.headers.get("host").unwrap(), "example.com");
    assert_eq!(req.header.headers.get("accept").unwrap(), "*/*");
    assert!(req.body.is_empty());
}

#[test]
fn body_follows_content_length() {
    let raw = b"POST /x HTTP/1.1\r\ncontent-length: 5\r\n\r\nhelloEXTRA";
    let (req, used) = parse_request(raw).unwrap();
    assert_eq!(req.header.metadata.method, Method::Post);
    assert_eq!(req.body, b"hello".to_vec());
    assert_eq!(used, raw.len() - 5);
    assert_eq!(req.header.get_content_length(), Some(5));
}

#[test]
fn truncated_body_is_malformed() {
    let raw = b"POST /x HTTP/1.1\r\ncontent-length: 9\r\n\r\nhello";
    assert_eq!(parse_request(raw).unwrap_err(), HttpError::MalformedMessage);
}

#[test]
fn missing_blank_line_is_malformed() {
    assert_eq!(
        parse_request(b"GET / HTTP/1.1\r\nhost: a\r\n").unwrap_err(),
        HttpError::MalformedMessage
    );
}

#[test]
fn unknown_method_is_malformed() {
    let raw = b"NOTAVERB / HTTP/1.1\r\n\r\n";
    assert_eq!(parse_request(raw).unwrap_err(), HttpError::MalformedMessage);
}

#[test]
fn every_method_parses() {
    let names = ["OPTIONS", "GET", "HEAD", "POST", "PUT", "DELETE", "TRACE", "CONNECT"];
    let methods = [
        Method::Options,
        Method::Get,
        Method::Head,
        Method::Post,
        Method::Put,
        Method::Delete,
        Method::Trace,
        Method::Connect,
    ];
    for (n, m) in names.iter().zip(methods.iter()) {
        let text = format!("{} /a HTTP/1.1\r\n\r\n", n);
        let h = parse_request_header(&text).unwrap();
        assert_eq!(h.metadata.method, *m);
        assert_eq!(m.name(), *n);
    }
}

#[test]
fn non_utf8_head_is_a_decode_error() {
    let raw = b"GET / HTTP/1.1\r\nx: \xff\xfe\r\n\r\n";
    assert_eq!(parse_request(raw).unwrap_err(), HttpError::DecodeError);
    assert_eq!(parse_request_head(raw).unwrap_err(), HttpError::DecodeError);
}

#[test]
fn version_must_be_exact() {
    assert_eq!(parse_version("HTTP/1.1").unwrap(), "HTTP/1.1");
    assert_eq!(parse_version("HTTP-1.1").unwrap_err(), HttpError::MalformedMessage);
    assert!(parse_request_header("GET / HTTP/1.0\r\n\r\n").is_err());
}

#[test]
fn uri_must_parse_as_url() {
    assert_eq!(parse_uri("/a/b?c=d").unwrap(), "/a/b?c=d");
    assert_eq!(parse_uri("http://example.com/x").unwrap(), "http://example.com/x");
    assert_eq!(parse_uri("http://[::1").unwrap_err(), HttpError::MalformedMessage);
    assert_eq!(parse_uri("").unwrap_err(), HttpError::MalformedMessage);
    assert!(parse_request_header("GET http://[::1 HTTP/1.1\r\n\r\n").is_err());
}

#[test]
fn request_line_shape_is_checked() {
    assert!(parse_request_header("GET/ HTTP/1.1\r\n\r\n").is_err());
    assert!(parse_request_header("GET /\r\n\r\n").is_err());
    assert!(parse_request_header("GET / HTTP/1.1").is_err());
}

#[test]
fn header_names_lowercase_values_trimmed() {
    let h = parse_headers("Content-Type:   text/css  \r\nX-UPPER:\tv\r\n\r\n").unwrap();
    assert_eq!(h.get("content-type").unwrap(), "text/css");
    assert_eq!(h.get("x-upper").unwrap(), "v");
    assert!(h.get("Content-Type").is_none());
}

#[test]
fn header_without_colon_is_malformed() {
    assert_eq!(parse_headers("novalue\r\n\r\n").unwrap_err(), HttpError::MalformedMessage);
}

#[test]
fn header_section_needs_two_empty_lines() {
    assert!(parse_headers("\r\n").is_ok());
    assert!(parse_headers("a:b\r\n").is_err());
    assert!(parse_headers("\r\n\r\n\r\n").is_err());
}

#[test]
fn duplicate_header_last_wins() {
    let h = parse_headers("A: 1\r\na: 2\r\n\r\n").unwrap();
    assert_eq!(h.len(), 1);
    assert_eq!(h.get("a").unwrap(), "2");
}

#[test]
fn header_map_insert_and_remove() {
    let mut h = Headers::new();
    h.insert("a".to_string(), "1".to_string());
    h.insert("b".to_string(), "2".to_string());
    h.insert("a".to_string(), "3".to_string());
    assert_eq!(h.len(), 2);
    assert_eq!(h.get("a").unwrap(), "3");
    h.remove("a");
    assert!(h.get("a").is_none());
    assert_eq!(h.get("b").unwrap(), "2");
    h.remove("zzz");
    assert_eq!(h.len(), 1);
}

#[test]
fn serialization_layout() {
    let req = request(Method::Post, "/x", vec![header("a", "1"), header("b", "2")], b"hi");
    assert_eq!(req.to_buffer(), b"POST /x HTTP/1.1\r\na:1\r\nb:2\r\n\r\nhi".to_vec());
    assert_eq!(req.header.to_buffer(), b"POST /x HTTP/1.1\r\na:1\r\nb:2\r\n\r\n".to_vec());
}

#[test]
fn request_round_trip() {
    let req = request(
        Method::Put,
        "/caf\u{e9}/item",
        vec![
            header("content-length", "4"),
            header("x-note", "\u{fc}ber:colon"),
            header("host", "h"),
        ],
        b"\r\n\r\n",
    );
    let bytes = req.to_buffer();
    let (back, used) = parse_request(&bytes).unwrap();
    assert_eq!(used, bytes.len());
    assert_eq!(back.header.metadata.method, Method::Put);
    assert_eq!(back.header.metadata.uri, "/caf\u{e9}/item");
    assert_eq!(back.header.metadata.version, "HTTP/1.1");
    assert_eq!(back.header.headers.len(), 3);
    for i in 0..req.header.headers.len() {
        let (k, v) = req.header.headers.field_at(i);
        assert_eq!(back.header.headers.get(k).unwrap(), v);
    }
    assert_eq!(back.body, req.body);
}

#[test]
fn rewrite_for_upstream_strips_hop_by_hop() {
    let mut req = request(
        Method::Post,
        "/x",
        vec![
            header("transfer-encoding", "chunked"),
            header("accept-encoding", "gzip"),
            header("content-encoding", "br"),
            header("host", "client"),
            header("content-length", "5"),
        ],
        b"hello",
    );
    req.rewrite_for_upstream("10.0.0.1:8080".to_string());
    assert!(req.header.headers.get("transfer-encoding").is_none());
    assert!(req.header.headers.get("accept-encoding").is_none());
    assert!(req.header.headers.get("content-encoding").is_none());
    assert_eq!(req.header.headers.get("host").unwrap(), "10.0.0.1:8080");
    assert_eq!(req.header.headers.get("content-length").unwrap(), "5");
    assert_eq!(req.body, b"hello".to_vec());
}

#[test]
fn content_length_reads_as_usize() {
    let mut h = Headers::new();
    assert_eq!(content_length(&h), None);
    h.insert("content-length".to_string(), "+12".to_string());
    assert_eq!(content_length(&h), Some(12));
    h.insert("content-length".to_string(), "1x".to_string());
    assert_eq!(content_length(&h), None);
    h.insert("content-length".to_string(), "99999999999999999999999".to_string());
    assert_eq!(content_length(&h), None);
    h.insert("content-length".to_string(), "18446744073709551615".to_string());
    assert_eq!(content_length(&h), Some(usize::MAX));
}

#[test]
fn cacheable_type_list() {
    let types = cacheable_types();
    assert_eq!(types.len(), 20);
    assert!(types.contains(&"image/png"));
    let mut h = Headers::new();
    assert!(!is_cacheable_content_type(&h));
    h.insert("content-type".to_string(), "image/png".to_string());
    assert!(is_cacheable_content_type(&h));
    h.insert("content-type".to_string(), "text/html".to_string());
    assert!(!is_cacheable_content_type(&h));
}

#[test]
fn status_codes_parse_and_fold() {
    let cases = [
        ("200", 200u16),
        ("206", 206),
        ("307", 307),
        ("404", 404),
        ("400", 400),
        ("417", 417),
        ("500", 500),
        ("503", 503),
        ("505", 505),
        ("299", 200),
        ("306", 300),
        ("418", 400),
        ("599", 500),
        ("1xx", 100),
    ];
    for (text, code) in cases.iter() {
        let head = format!("HTTP/1.1 {} Reason words\r\n\r\n", text);
        let h = parse_response_header(&head).unwrap();
        assert_eq!(h.status.code.value(), *code);
        assert_eq!(h.status.reason, "Reason words");
    }
    assert!(parse_response_header("HTTP/1.1 600 X\r\n\r\n").is_err());
    assert!(parse_response_header("HTTP/1.1  X\r\n\r\n").is_err());
    assert!(parse_response_header("HTTP/1.0 200 OK\r\n\r\n").is_err());
}

#[test]
fn code_numbers_and_text() {
    assert_eq!(Code::Code404.value(), 404);
    assert_eq!(Code::Code404.to_text(), "404");
    assert_eq!(Code::from_value(501).unwrap().value(), 501);
    assert!(Code::from_value(306).is_none());
}

#[test]
fn response_round_trip_through_bytes() {
    let raw = b"HTTP/1.1 200 OK\r\ncontent-type: image/png\r\ncontent-length: 4\r\n\r\n\x89PNG";
    let (res, used) = parse_response(raw).unwrap();
    assert_eq!(used, raw.len());
    assert_eq!(res.body, b"\x89PNG".to_vec());
    let bytes = res.to_buffer();
    let (again, _) = parse_response(&bytes).unwrap();
    assert_eq!(again.body, res.body);
    assert_eq!(again.get_content_type().unwrap(), "image/png");
}

#[test]
fn fixed_responses() {
    let r = Response::response400();
    assert_eq!(r.header.status.code.value(), 400);
    assert_eq!(r.header.status.reason, "Malformed request");
    assert_eq!(r.header.headers.get("server").unwrap(), "rusty-proxy");
    let r = Response::response500();
    assert_eq!(r.header.status.code.value(), 500);
    assert_eq!(
        r.to_buffer(),
        b"HTTP/1.1 500 Internal server error\r\nserver:rusty-proxy\r\n\r\n".to_vec()
    );
}
