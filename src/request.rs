//! Request messages: the start line, the head, the body, their parsing and
//! their serialisation.
use vstd::prelude::*;
use vstd::string::StrSliceExecFns;
use vstd::utf8::{
    decode_utf8, encode_utf8, encode_utf8_decode_utf8, encode_utf8_valid_utf8, valid_utf8,
};

use crate::framing::{
    find_head_end, head_end, lemma_scan_end, lemma_scan_line, plain_bytes, scan_below_two,
};
use crate::headers::{
    content_length, content_length_of, field_line, field_ok, fields_text, header_section,
    http_version, lemma_field_line_reads_back, lemma_header_section_round_trip, parse_headers,
    parse_version, Field, Headers, HttpError,
};
use crate::text::{
    chars_of, copy_bytes, crlf, crlf_at, find_char, find_crlf, first_crlf, first_of, has_no,
    is_first_crlf, lemma_encode_crlf, lemma_encode_first, lemma_encode_utf8_avoids,
    lemma_encode_utf8_concat, lemma_first_crlf_after, lemma_first_of_after, span_is,
    string_between, utf8_str,
};

verus! {

/// Whether `url::Url::parse` accepts a text.
pub uninterp spec fn url_accepts(s: Seq<char>) -> bool;

/// Relies on `url::Url::parse`: whether it accepts the text, which depends on
/// the text alone.
#[verifier::external_body]
fn url_parses(s: &str) -> (r: bool)
    ensures
        r == url_accepts(s@),
{
    url::Url::parse(s).is_ok()
}

/// The origin put in front of a request target that is a bare path.
pub open spec fn placeholder_origin() -> Seq<char> {
    "http://host"@
}

/// The text handed to the URL parser for request target `u`.
pub open spec fn uri_target(u: Seq<char>) -> Seq<char> {
    if u.len() > 0 && u[0] == '/' {
        placeholder_origin() + u
    } else {
        u
    }
}

/// A request target is valid where it parses as a URL, absolute or as a path
/// under a placeholder origin.
pub open spec fn valid_uri(u: Seq<char>) -> bool {
    url_accepts(uri_target(u))
}

/// The request methods.
#[derive(Debug, Clone, Copy, PartialEq, Eq, Structural)]
pub enum Method {
    Options,
    Get,
    Head,
    Post,
    Put,
    Delete,
    Trace,
    Connect,
}

/// A method's name on the wire.
pub open spec fn method_name(m: Method) -> Seq<char> {
    match m {
        Method::Options => seq!['O', 'P', 'T', 'I', 'O', 'N', 'S'],
        Method::Get => seq!['G', 'E', 'T'],
        Method::Head => seq!['H', 'E', 'A', 'D'],
        Method::Post => seq!['P', 'O', 'S', 'T'],
        Method::Put => seq!['P', 'U', 'T'],
        Method::Delete => seq!['D', 'E', 'L', 'E', 'T', 'E'],
        Method::Trace => seq!['T', 'R', 'A', 'C', 'E'],
        Method::Connect => seq!['C', 'O', 'N', 'N', 'E', 'C', 'T'],
    }
}

/// The method that a name denotes.
pub open spec fn method_of(s: Seq<char>) -> Option<Method> {
    if s == method_name(Method::Options) {
        Some(Method::Options)
    } else if s == method_name(Method::Get) {
        Some(Method::Get)
    } else if s == method_name(Method::Head) {
        Some(Method::Head)
    } else if s == method_name(Method::Post) {
        Some(Method::Post)
    } else if s == method_name(Method::Put) {
        Some(Method::Put)
    } else if s == method_name(Method::Delete) {
        Some(Method::Delete)
    } else if s == method_name(Method::Trace) {
        Some(Method::Trace)
    } else if s == method_name(Method::Connect) {
        Some(Method::Connect)
    } else {
        None
    }
}

impl Method {
    /// The method's name on the wire.
    pub fn name(&self) -> (r: String)
        ensures
            r@ == method_name(*self),
    {
        let r = match self {
            Method::Options => {
                proof {
                    reveal_strlit("OPTIONS");
                }
                String::from_str("OPTIONS")
            },
            Method::Get => {
                proof {
                    reveal_strlit("GET");
                }
                String::from_str("GET")
            },
            Method::Head => {
                proof {
                    reveal_strlit("HEAD");
                }
                String::from_str("HEAD")
            },
            Method::Post => {
                proof {
                    reveal_strlit("POST");
                }
                String::from_str("POST")
            },
            Method::Put => {
                proof {
                    reveal_strlit("PUT");
                }
                String::from_str("PUT")
            },
            Method::Delete => {
                proof {
                    reveal_strlit("DELETE");
                }
                String::from_str("DELETE")
            },
            Method::Trace => {
                proof {
                    reveal_strlit("TRACE");
                }
                String::from_str("TRACE")
            },
            Method::Connect => {
                proof {
                    reveal_strlit("CONNECT");
                }
                String::from_str("CONNECT")
            },
        };
        assert(r@ =~= method_name(*self));
        r
    }
}

/// Reads the method named by `cs[from..to]`.
fn parse_method(cs: &Vec<char>, from: usize, to: usize) -> (r: Result<Method, HttpError>)
    requires
        from <= to <= cs@.len(),
    ensures
        r == (match method_of(cs@.subrange(from as int, to as int)) {
            Some(m) => Ok(m),
            None => Err(HttpError::MalformedMessage),
        }),
{
    let ghost s = cs@.subrange(from as int, to as int);
    if span_is(cs, from, to, &['O', 'P', 'T', 'I', 'O', 'N', 'S']) {
        assert(s =~= method_name(Method::Options));
        Ok(Method::Options)
    } else if span_is(cs, from, to, &['G', 'E', 'T']) {
        assert(s =~= method_name(Method::Get));
        Ok(Method::Get)
    } else if span_is(cs, from, to, &['H', 'E', 'A', 'D']) {
        assert(s =~= method_name(Method::Head));
        Ok(Method::Head)
    } else if span_is(cs, from, to, &['P', 'O', 'S', 'T']) {
        assert(s =~= method_name(Method::Post));
        Ok(Method::Post)
    } else if span_is(cs, from, to, &['P', 'U', 'T']) {
        assert(s =~= method_name(Method::Put));
        Ok(Method::Put)
    } else if span_is(cs, from, to, &['D', 'E', 'L', 'E', 'T', 'E']) {
        assert(s =~= method_name(Method::Delete));
        Ok(Method::Delete)
    } else if span_is(cs, from, to, &['T', 'R', 'A', 'C', 'E']) {
        assert(s =~= method_name(Method::Trace));
        Ok(Method::Trace)
    } else if span_is(cs, from, to, &['C', 'O', 'N', 'N', 'E', 'C', 'T']) {
        assert(s =~= method_name(Method::Connect));
        Ok(Method::Connect)
    } else {
        proof {
            assert(['O', 'P', 'T', 'I', 'O', 'N', 'S']@ =~= method_name(Method::Options));
            assert(['G', 'E', 'T']@ =~= method_name(Method::Get));
            assert(['H', 'E', 'A', 'D']@ =~= method_name(Method::Head));
            assert(['P', 'O', 'S', 'T']@ =~= method_name(Method::Post));
            assert(['P', 'U', 'T']@ =~= method_name(Method::Put));
            assert(['D', 'E', 'L', 'E', 'T', 'E']@ =~= method_name(Method::Delete));
            assert(['T', 'R', 'A', 'C', 'E']@ =~= method_name(Method::Trace));
            assert(['C', 'O', 'N', 'N', 'E', 'C', 'T']@ =~= method_name(Method::Connect));
        }
        Err(HttpError::MalformedMessage)
    }
}

/// Accepts a request target that parses as a URL, absolute or, where it
/// starts with `/`, under a placeholder origin.
pub fn parse_uri(input: &str) -> (r: Result<String, HttpError>)
    ensures
        r is Ok <==> valid_uri(input@),
        r matches Ok(u) ==> u@ == input@,
        r matches Err(e) ==> e == HttpError::MalformedMessage,
{
    let is_path = !input.is_empty() && input.get_char(0) == '/';
    let ok = if is_path {
        let mut t = String::from_str("http://host");
        t.append(input);
        url_parses(t.as_str())
    } else {
        url_parses(input)
    };
    if ok {
        Ok(String::from_str(input))
    } else {
        Err(HttpError::MalformedMessage)
    }
}

/// The start line of a request, without its CRLF: method, space, target,
/// space, version.
pub open spec fn request_line_of(line: Seq<char>) -> Option<(Method, Seq<char>, Seq<char>)> {
    match first_of(line, ' ') {
        None => None,
        Some(a) => {
            let rest = line.skip(a + 1);
            match (method_of(line.take(a)), first_of(rest, ' ')) {
                (Some(m), Some(b)) => {
                    let uri = rest.take(b);
                    let version = rest.skip(b + 1);
                    if valid_uri(uri) && version == http_version() {
                        Some((m, uri, version))
                    } else {
                        None
                    }
                },
                _ => None,
            }
        },
    }
}

/// The start line of a request.
#[derive(Debug)]
pub struct RequestLine {
    pub method: Method,
    pub uri: String,
    pub version: String,
}

impl View for RequestLine {
    type V = (Method, Seq<char>, Seq<char>);

    open spec fn view(&self) -> (Method, Seq<char>, Seq<char>) {
        (self.method, self.uri@, self.version@)
    }
}

/// A start line written out, with its CRLF.
pub open spec fn request_line_text(l: (Method, Seq<char>, Seq<char>)) -> Seq<char> {
    method_name(l.0) + seq![' '] + l.1 + seq![' '] + l.2 + crlf()
}

impl RequestLine {
    /// Appends the line and its CRLF to `out`.
    pub fn write_text(&self, out: &mut String)
        ensures
            final(out)@ == old(out)@ + request_line_text(self@),
    {
        proof {
            reveal_strlit(" ");
            reveal_strlit("\r\n");
        }
        let m = self.method.name();
        out.append(m.as_str());
        out.append(" ");
        out.append(self.uri.as_str());
        out.append(" ");
        out.append(self.version.as_str());
        out.append("\r\n");
        assert(" "@ =~= seq![' ']);
        assert("\r\n"@ =~= crlf());
        assert(final(out)@ =~= old(out)@ + request_line_text(self@));
    }
}

/// Reads the start line `cs[from..to]` (without its CRLF).
fn parse_request_line(input: &str, cs: &Vec<char>, from: usize, to: usize) -> (r: Result<RequestLine, HttpError>)
    requires
        from <= to <= cs@.len(),
        cs@ == input@,
    ensures
        r is Ok <==> request_line_of(cs@.subrange(from as int, to as int)) is Some,
        r matches Ok(l) ==> Some(l@) == request_line_of(cs@.subrange(from as int, to as int)),
        r matches Err(e) ==> e == HttpError::MalformedMessage,
{
    let ghost line = cs@.subrange(from as int, to as int);
    let a = match find_char(cs, from, to, ' ') {
        Some(a) => a,
        None => {
            return Err(HttpError::MalformedMessage);
        },
    };
    let ghost rest = line.skip(a - from + 1);
    assert(line.take(a - from) =~= cs@.subrange(from as int, a as int));
    let method = match parse_method(cs, from, a) {
        Ok(m) => m,
        Err(e) => {
            return Err(e);
        },
    };
    assert(rest =~= cs@.subrange(a + 1, to as int));
    let b = match find_char(cs, a + 1, to, ' ') {
        Some(b) => b,
        None => {
            return Err(HttpError::MalformedMessage);
        },
    };
    assert(rest.take(b - (a + 1)) =~= cs@.subrange(a + 1, b as int));
    assert(rest.skip(b - (a + 1) + 1) =~= cs@.subrange(b + 1, to as int));
    let uri_text = string_between(input, a + 1, b);
    let uri = match parse_uri(uri_text.as_str()) {
        Ok(u) => u,
        Err(e) => {
            return Err(e);
        },
    };
    let version_text = string_between(input, b + 1, to);
    let version = match parse_version(version_text.as_str()) {
        Ok(v) => v,
        Err(e) => {
            return Err(e);
        },
    };
    Ok(RequestLine { method, uri, version })
}

/// The head of a request: start line, CRLF, header section.
pub open spec fn request_head_of(text: Seq<char>) -> Option<
    (Method, Seq<char>, Seq<char>, Map<Seq<char>, Seq<char>>),
> {
    match first_crlf(text) {
        None => None,
        Some(i) => match (request_line_of(text.take(i)), header_section(text.skip(i + 2))) {
            (Some(l), Some(m)) => Some((l.0, l.1, l.2, m)),
            _ => None,
        },
    }
}

/// The head of a request: start line and header map.
#[derive(Debug)]
pub struct RequestHeader {
    pub metadata: RequestLine,
    pub headers: Headers,
}

impl View for RequestHeader {
    type V = (Method, Seq<char>, Seq<char>, Map<Seq<char>, Seq<char>>);

    open spec fn view(&self) -> (Method, Seq<char>, Seq<char>, Map<Seq<char>, Seq<char>>) {
        (self.metadata.method, self.metadata.uri@, self.metadata.version@, self.headers@)
    }
}

/// A request head written out: start line, header lines, blank line.
pub open spec fn request_head_text(h: &RequestHeader) -> Seq<char> {
    request_line_text(h.metadata@) + fields_text(h.headers.entries()) + crlf()
}

/// Reads a request head: the start line up to the first CRLF, then the
/// header section.
pub fn parse_request_header(input: &str) -> (r: Result<RequestHeader, HttpError>)
    ensures
        r is Ok <==> request_head_of(input@) is Some,
        r matches Ok(h) ==> Some(h@) == request_head_of(input@),
        r matches Err(e) ==> e == HttpError::MalformedMessage,
{
    let cs = chars_of(input);
    let i = match find_crlf(&cs, 0) {
        Some(i) => i,
        None => {
            assert forall|k: int| !is_first_crlf(input@, k) by {}
            return Err(HttpError::MalformedMessage);
        },
    };
    proof {
        let k = choose|k: int| is_first_crlf(cs@, k);
        assert(is_first_crlf(cs@, i as int));
        assert(k == i) by {
            if k < i {
                assert(!crlf_at(cs@, k));
            } else if k > i {
                assert(!crlf_at(cs@, i as int));
            }
        }
    }
    assert(cs@.subrange(0, i as int) =~= input@.take(i as int));
    let metadata = match parse_request_line(input, &cs, 0, i) {
        Ok(l) => l,
        Err(e) => {
            return Err(e);
        },
    };
    let rest = string_between(input, i + 2, cs.len());
    assert(rest@ =~= input@.skip(i + 2));
    let headers = match parse_headers(rest.as_str()) {
        Ok(h) => h,
        Err(e) => {
            return Err(e);
        },
    };
    Ok(RequestHeader { metadata, headers })
}

impl RequestHeader {
    /// The announced body length.
    pub fn get_content_length(&self) -> (r: Option<usize>)
        ensures
            r matches Some(n) ==> content_length_of(self.headers@) == Some(n as nat),
            r is None ==> content_length_of(self.headers@) is None || content_length_of(
                self.headers@,
            )->0 > usize::MAX,
    {
        content_length(&self.headers)
    }

    /// Sets header `k` to `v`.
    pub fn insert_header(&mut self, k: String, v: String)
        ensures
            final(self).headers@ == old(self).headers@.insert(k@, v@),
            final(self).metadata@ == old(self).metadata@,
    {
        self.headers.insert(k, v);
    }

    /// Removes header `k`.
    pub fn remove_header(&mut self, k: String)
        ensures
            final(self).headers@ == old(self).headers@.remove(k@),
            final(self).metadata@ == old(self).metadata@,
    {
        self.headers.remove(k.as_str());
    }

    /// The head as text.
    pub fn to_text(&self) -> (r: String)
        ensures
            r@ == request_head_text(self),
    {
        proof {
            reveal_strlit("\r\n");
        }
        let mut out = String::new();
        self.metadata.write_text(&mut out);
        self.headers.write_fields(&mut out);
        out.append("\r\n");
        assert("\r\n"@ =~= crlf());
        assert(out@ =~= request_head_text(self));
        out
    }

    /// The head as bytes on the wire.
    pub fn to_buffer(&self) -> (r: Vec<u8>)
        ensures
            r@ == encode_utf8(request_head_text(self)),
    {
        let t = self.to_text();
        t.as_str().as_bytes_vec()
    }
}

/// What a request view is: method, target, version, header map, body.
pub type RequestView = (Method, Seq<char>, Seq<char>, Map<Seq<char>, Seq<char>>, Seq<u8>);

/// A request message.
#[derive(Debug)]
pub struct Request {
    pub header: RequestHeader,
    pub body: Vec<u8>,
}

impl View for Request {
    type V = RequestView;

    open spec fn view(&self) -> RequestView {
        (
            self.header.metadata.method,
            self.header.metadata.uri@,
            self.header.metadata.version@,
            self.header.headers@,
            self.body@,
        )
    }
}

/// A request written out: the head as UTF-8, then the body.
pub open spec fn request_bytes(r: &Request) -> Seq<u8> {
    encode_utf8(request_head_text(&r.header)) + r.body@
}

/// The head that the bytes `head` denote.
pub open spec fn request_head_from_bytes(head: Seq<u8>) -> Result<
    (Method, Seq<char>, Seq<char>, Map<Seq<char>, Seq<char>>),
    HttpError,
> {
    if !valid_utf8(head) {
        Err(HttpError::DecodeError)
    } else {
        match request_head_of(decode_utf8(head)) {
            Some(h) => Ok(h),
            None => Err(HttpError::MalformedMessage),
        }
    }
}

/// The body length that a head announces, where it announces one that fits
/// in memory; no body otherwise.
pub open spec fn body_length(m: Map<Seq<char>, Seq<char>>) -> nat {
    match content_length_of(m) {
        Some(n) => if n <= usize::MAX {
            n
        } else {
            0
        },
        None => 0,
    }
}

/// The request at the start of `bytes`, and how many bytes it takes: the
/// head up to the blank line, then as many body bytes as the head announces.
pub open spec fn request_of(bytes: Seq<u8>) -> Result<(RequestView, nat), HttpError> {
    match head_end(bytes) {
        None => Err(HttpError::MalformedMessage),
        Some(n) => match request_head_from_bytes(bytes.take(n)) {
            Err(e) => Err(e),
            Ok(h) => {
                let len = body_length(h.3);
                if n + len <= bytes.len() {
                    Ok(((h.0, h.1, h.2, h.3, bytes.subrange(n, n + len)), (n + len) as nat))
                } else {
                    Err(HttpError::MalformedMessage)
                }
            },
        },
    }
}

/// Reads a request head from its bytes (the blank line included).
pub fn parse_request_head(head: &[u8]) -> (r: Result<RequestHeader, HttpError>)
    ensures
        r matches Ok(h) ==> request_head_from_bytes(head@) == Ok::<_, HttpError>(h@),
        r matches Err(e) ==> request_head_from_bytes(head@) == Err::<
            (Method, Seq<char>, Seq<char>, Map<Seq<char>, Seq<char>>),
            HttpError,
        >(e),
{
    match utf8_str(head) {
        None => Err(HttpError::DecodeError),
        Some(text) => parse_request_header(text),
    }
}

/// Reads the request at the start of `buf`; returns it and the number of
/// bytes it takes.
pub fn parse_request(buf: &[u8]) -> (r: Result<(Request, usize), HttpError>)
    ensures
        r matches Ok((req, n)) ==> request_of(buf@) == Ok::<_, HttpError>((req@, n as nat)),
        r matches Err(e) ==> request_of(buf@) == Err::<(RequestView, nat), HttpError>(e),
{
    let n = match find_head_end(buf) {
        Some(n) => n,
        None => {
            return Err(HttpError::MalformedMessage);
        },
    };
    let header = match parse_request_head(&buf[0..n]) {
        Ok(h) => h,
        Err(e) => {
            assert(buf@.subrange(0, n as int) =~= buf@.take(n as int));
            return Err(e);
        },
    };
    assert(buf@.subrange(0, n as int) =~= buf@.take(n as int));
    let len: usize = match header.get_content_length() {
        Some(l) => l,
        None => 0,
    };
    if len > buf.len() - n {
        return Err(HttpError::MalformedMessage);
    }
    let body = copy_bytes(buf, n, n + len);
    Ok((Request { header, body }, n + len))
}

impl Request {
    /// The request as bytes on the wire.
    pub fn to_buffer(&self) -> (r: Vec<u8>)
        ensures
            r@ == request_bytes(self),
    {
        let mut out = self.header.to_buffer();
        let mut body = copy_bytes(self.body.as_slice(), 0, self.body.len());
        assert(self.body@.subrange(0, self.body@.len() as int) =~= self.body@);
        out.append(&mut body);
        out
    }

    /// Prepares the request for the upstream: drops the hop-by-hop headers
    /// `transfer-encoding`, `accept-encoding` and `content-encoding`, and sets
    /// `host` to the upstream's address.
    pub fn rewrite_for_upstream(&mut self, host: String)
        ensures
            final(self).header.headers@ == old(self).header.headers@.remove(
                "transfer-encoding"@,
            ).remove("accept-encoding"@).remove("content-encoding"@).insert("host"@, host@),
            final(self).header.metadata@ == old(self).header.metadata@,
            final(self).body@ == old(self).body@,
    {
        self.header.remove_header(String::from_str("transfer-encoding"));
        self.header.remove_header(String::from_str("accept-encoding"));
        self.header.remove_header(String::from_str("content-encoding"));
        self.header.insert_header(String::from_str("host"), host);
    }
}

/// A method's name reads back as the method.
pub proof fn lemma_method_name_reads_back(m: Method)
    ensures
        method_of(method_name(m)) == Some(m),
        method_name(m).len() > 0,
        has_no(method_name(m), ' '),
        has_no(method_name(m), '\r'),
        has_no(method_name(m), '\n'),
{
    let o = method_name(Method::Options);
    let g = method_name(Method::Get);
    let h = method_name(Method::Head);
    let po = method_name(Method::Post);
    let pu = method_name(Method::Put);
    let d = method_name(Method::Delete);
    let t = method_name(Method::Trace);
    assert(o.len() == 7 && g.len() == 3 && h.len() == 4 && po.len() == 4);
    assert(pu.len() == 3 && d.len() == 6 && t.len() == 5);
    assert(o[0] == 'O' && g[0] == 'G' && pu[0] == 'P' && h[0] == 'H' && po[0] == 'P');
    assert(h[1] == 'E' && po[1] == 'O' && method_name(Method::Connect)[0] == 'C');
    match m {
        Method::Options => {},
        Method::Get => {
            assert(g != o);
        },
        Method::Head => {
            assert(h != o && h != g);
        },
        Method::Post => {
            assert(po != o && po != g && po != h);
        },
        Method::Put => {
            assert(pu != o && pu != g && pu != h && pu != po);
        },
        Method::Delete => {
            assert(d != o && d != g && d != h && d != po && d != pu);
        },
        Method::Trace => {
            assert(t != o && t != g && t != h && t != po && t != pu && t != d);
        },
        Method::Connect => {
            let c = method_name(Method::Connect);
            assert(c != o && c != g && c != h && c != po && c != pu && c != d && c != t);
        },
    }
}

/// A start line, without its CRLF.
pub open spec fn request_line_core(l: (Method, Seq<char>, Seq<char>)) -> Seq<char> {
    method_name(l.0) + seq![' '] + l.1 + seq![' '] + l.2
}

/// A start line of a valid request reads back, and holds no CR or LF.
proof fn lemma_request_line_reads_back(l: (Method, Seq<char>, Seq<char>))
    requires
        has_no(l.1, ' '),
        has_no(l.1, '\r'),
        has_no(l.1, '\n'),
        valid_uri(l.1),
        l.2 == http_version(),
    ensures
        request_line_of(request_line_core(l)) == Some(l),
        request_line_core(l).len() > 0,
        has_no(request_line_core(l), '\r'),
        has_no(request_line_core(l), '\n'),
{
    let name = method_name(l.0);
    let lc = request_line_core(l);
    lemma_method_name_reads_back(l.0);
    assert(http_version() =~= seq!['H', 'T', 'T', 'P', '/', '1', '.', '1']);
    assert forall|i: int| 0 <= i < lc.len() implies lc[i] != '\r' && lc[i] != '\n' by {
        if i < name.len() {
            assert(lc[i] == name[i]);
        } else if i == name.len() {
        } else if i < name.len() + 1 + l.1.len() {
            assert(lc[i] == l.1[i - name.len() - 1]);
        } else if i == name.len() + 1 + l.1.len() {
        } else {
            assert(lc[i] == l.2[i - name.len() - 2 - l.1.len()]);
        }
    }
    let rest1 = l.1 + seq![' '] + l.2;
    assert(lc =~= name + seq![' '] + rest1);
    lemma_first_of_after(name, ' ', rest1);
    lemma_first_of_after(l.1, ' ', l.2);
}

/// The bytes of a line that holds no CR and no LF.
proof fn lemma_plain_line(cs: Seq<char>)
    requires
        cs.len() > 0,
        has_no(cs, '\r'),
        has_no(cs, '\n'),
    ensures
        plain_bytes(encode_utf8(cs)),
{
    lemma_encode_first(cs);
    lemma_encode_utf8_avoids(cs, '\r');
    lemma_encode_utf8_avoids(cs, '\n');
    assert('\r' as u32 == 13 && '\n' as u32 == 10);
}

/// Header lines after a start line keep the scanner below two and leave it
/// at one.
proof fn lemma_scan_fields(p: Seq<u8>, es: Seq<Field>)
    requires
        scan_below_two(p),
        crate::framing::crlf_count(p) == 1,
        forall|i: int| 0 <= i < es.len() ==> field_ok(#[trigger] es[i]),
    ensures
        scan_below_two(p + encode_utf8(fields_text(es))),
        crate::framing::crlf_count(p + encode_utf8(fields_text(es))) == 1,
    decreases es.len(),
{
    if es.len() == 0 {
        assert(encode_utf8(fields_text(es)) =~= Seq::<u8>::empty());
        assert(p + Seq::<u8>::empty() =~= p);
    } else {
        let rest = es.drop_first();
        assert forall|i: int| 0 <= i < rest.len() implies field_ok(#[trigger] rest[i]) by {
            assert(rest[i] == es[i + 1]);
        }
        assert(field_ok(es[0]));
        lemma_field_line_reads_back(es[0]);
        let l = field_line(es[0]);
        lemma_plain_line(l);
        let x = encode_utf8(l);
        lemma_scan_line(p, x);
        let q = p + x + seq![13u8, 10u8];
        lemma_scan_fields(q, rest);
        lemma_encode_utf8_concat(l + crlf(), fields_text(rest));
        lemma_encode_utf8_concat(l, crlf());
        lemma_encode_crlf();
        assert(fields_text(es) == l + crlf() + fields_text(rest));
        assert(p + encode_utf8(fields_text(es)) =~= q + encode_utf8(fields_text(rest)));
    }
}

/// A request that reads back as itself: the target holds no space, CR or
/// LF and parses as a URL; the version is `HTTP/1.1`; every header reads back
/// as itself; the body is as long as the head announces.
pub open spec fn valid_request(r: &Request) -> bool {
    let l = r.header.metadata@;
    &&& has_no(l.1, ' ')
    &&& has_no(l.1, '\r')
    &&& has_no(l.1, '\n')
    &&& valid_uri(l.1)
    &&& l.2 == http_version()
    &&& forall|i: int|
        0 <= i < r.header.headers.entries().len() ==> field_ok(
            #[trigger] r.header.headers.entries()[i],
        )
    &&& r.body@.len() == body_length(r.header.headers@)
}

/// The head of a valid request reads back as text.
proof fn lemma_request_head_reads_back(r: &Request)
    requires
        valid_request(r),
    ensures
        request_head_of(request_head_text(&r.header)) == Some(
            (r.header.metadata.method, r.header.metadata.uri@, r.header.metadata.version@, r.header.headers@),
        ),
{
    let l = r.header.metadata@;
    let es = r.header.headers.entries();
    let lc = request_line_core(l);
    let f = fields_text(es);
    let t = request_head_text(&r.header);
    assert(request_line_text(l) =~= lc + crlf());
    assert(t =~= lc + crlf() + (f + crlf()));
    lemma_request_line_reads_back(l);
    lemma_first_crlf_after(lc, f + crlf());
    lemma_header_section_round_trip(es);
}

/// The bytes of a valid request's head end where the scanner stops.
proof fn lemma_request_head_frames(r: &Request)
    requires
        valid_request(r),
    ensures
        head_end(request_bytes(r)) == Some(encode_utf8(request_head_text(&r.header)).len() as int),
{
    let l = r.header.metadata@;
    let es = r.header.headers.entries();
    let lc = request_line_core(l);
    let f = fields_text(es);
    let t = request_head_text(&r.header);
    assert(request_line_text(l) =~= lc + crlf());
    assert(t =~= lc + crlf() + f + crlf());
    lemma_request_line_reads_back(l);
    lemma_encode_crlf();
    lemma_encode_utf8_concat(lc + crlf() + f, crlf());
    lemma_encode_utf8_concat(lc + crlf(), f);
    lemma_encode_utf8_concat(lc, crlf());
    let x = encode_utf8(lc);
    lemma_plain_line(lc);
    let e = Seq::<u8>::empty();
    assert(scan_below_two(e)) by {
        assert forall|k: int| 0 <= k <= e.len() implies crate::framing::crlf_count(
            #[trigger] e.take(k),
        ) < 2 by {
            assert(e.take(k) =~= e);
        }
    }
    lemma_scan_line(e, x);
    assert(e + x + seq![13u8, 10u8] =~= x + seq![13u8, 10u8]);
    let after_line = x + seq![13u8, 10u8];
    lemma_scan_fields(after_line, es);
    let after_fields = after_line + encode_utf8(f);
    assert(encode_utf8(t) =~= after_fields + seq![13u8, 10u8]);
    assert(request_bytes(r) =~= after_fields + seq![13u8, 10u8] + r.body@);
    lemma_scan_end(after_fields, r.body@);
}

/// Parsing a serialised request gives back the request: the same start
/// line, the same header map and the same body, using every byte.
pub proof fn lemma_request_round_trip(r: &Request)
    requires
        valid_request(r),
    ensures
        request_of(request_bytes(r)) == Ok::<(RequestView, nat), HttpError>(
            (r@, request_bytes(r).len()),
        ),
{
    let t = request_head_text(&r.header);
    let head = encode_utf8(t);
    let b = request_bytes(r);
    let n = head.len() as int;
    lemma_request_head_reads_back(r);
    lemma_request_head_frames(r);
    assert(b.take(n) =~= head);
    encode_utf8_valid_utf8(t);
    encode_utf8_decode_utf8(t);
    assert(b.subrange(n, n + r.body@.len()) =~= r.body@);
}

} // verus!
