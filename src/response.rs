//! Response messages: status codes, the status line, the head, the body,
//! their parsing and serialisation, and which responses may be cached.
use vstd::prelude::*;
use vstd::string::StrSliceExecFns;
use vstd::utf8::{decode_utf8, encode_utf8, valid_utf8};

use crate::cache::CacheFile;
use crate::framing::{find_head_end, head_end};
use crate::headers::{
    cacheable_type_names, content_length, content_length_of, content_type_name, fields_text,
    header_section, http_version, is_cacheable_content_type, parse_headers, parse_version,
    version_text, Headers, HttpError,
};
use crate::text::{
    all_digits, chars_of, copy_bytes, crlf, crlf_at, decimal_string, decimal_text, digit_value,
    digits_value, find_char, find_crlf, first_crlf, first_of, is_digit, is_first_crlf,
    string_between, utf8_str,
};

verus! {

/// The status codes that are told apart.
#[derive(Debug, Clone, Copy, PartialEq, Eq, Structural)]
pub enum Code {
    Code100,
    Code101,
    Code200,
    Code201,
    Code202,
    Code203,
    Code204,
    Code205,
    Code206,
    Code300,
    Code301,
    Code302,
    Code303,
    Code304,
    Code305,
    Code307,
    Code400,
    Code401,
    Code402,
    Code403,
    Code404,
    Code405,
    Code406,
    Code407,
    Code408,
    Code409,
    Code410,
    Code411,
    Code412,
    Code413,
    Code414,
    Code415,
    Code416,
    Code417,
    Code500,
    Code501,
    Code502,
    Code503,
    Code504,
    Code505,
}

/// A code's number.
pub open spec fn code_value(c: Code) -> nat {
    match c {
        Code::Code100 => 100,
        Code::Code101 => 101,
        Code::Code200 => 200,
        Code::Code201 => 201,
        Code::Code202 => 202,
        Code::Code203 => 203,
        Code::Code204 => 204,
        Code::Code205 => 205,
        Code::Code206 => 206,
        Code::Code300 => 300,
        Code::Code301 => 301,
        Code::Code302 => 302,
        Code::Code303 => 303,
        Code::Code304 => 304,
        Code::Code305 => 305,
        Code::Code307 => 307,
        Code::Code400 => 400,
        Code::Code401 => 401,
        Code::Code402 => 402,
        Code::Code403 => 403,
        Code::Code404 => 404,
        Code::Code405 => 405,
        Code::Code406 => 406,
        Code::Code407 => 407,
        Code::Code408 => 408,
        Code::Code409 => 409,
        Code::Code410 => 410,
        Code::Code411 => 411,
        Code::Code412 => 412,
        Code::Code413 => 413,
        Code::Code414 => 414,
        Code::Code415 => 415,
        Code::Code416 => 416,
        Code::Code417 => 417,
        Code::Code500 => 500,
        Code::Code501 => 501,
        Code::Code502 => 502,
        Code::Code503 => 503,
        Code::Code504 => 504,
        Code::Code505 => 505,
    }
}

/// The numbers that have a code of their own.
pub open spec fn is_known_code(n: nat) -> bool {
    ||| 100 <= n <= 101
    ||| 200 <= n <= 206
    ||| 300 <= n <= 305
    ||| n == 307
    ||| 400 <= n <= 417
    ||| 500 <= n <= 505
}

/// The code that a status text denotes: a known three-digit code stands for
/// itself; any other text that starts with a digit from 1 to 5 stands for
/// the first code of its class.
pub open spec fn status_code_of(s: Seq<char>) -> Option<nat> {
    if s.len() == 3 && all_digits(s) && is_known_code(digits_value(s)) {
        Some(digits_value(s))
    } else if s.len() > 0 && '1' <= s[0] <= '5' {
        Some(digit_value(s[0]) * 100)
    } else {
        None
    }
}

impl Code {
    /// The code's number.
    pub fn value(&self) -> (r: u16)
        ensures
            r as nat == code_value(*self),
    {
        match self {
            Code::Code100 => 100,
            Code::Code101 => 101,
            Code::Code200 => 200,
            Code::Code201 => 201,
            Code::Code202 => 202,
            Code::Code203 => 203,
            Code::Code204 => 204,
            Code::Code205 => 205,
            Code::Code206 => 206,
            Code::Code300 => 300,
            Code::Code301 => 301,
            Code::Code302 => 302,
            Code::Code303 => 303,
            Code::Code304 => 304,
            Code::Code305 => 305,
            Code::Code307 => 307,
            Code::Code400 => 400,
            Code::Code401 => 401,
            Code::Code402 => 402,
            Code::Code403 => 403,
            Code::Code404 => 404,
            Code::Code405 => 405,
            Code::Code406 => 406,
            Code::Code407 => 407,
            Code::Code408 => 408,
            Code::Code409 => 409,
            Code::Code410 => 410,
            Code::Code411 => 411,
            Code::Code412 => 412,
            Code::Code413 => 413,
            Code::Code414 => 414,
            Code::Code415 => 415,
            Code::Code416 => 416,
            Code::Code417 => 417,
            Code::Code500 => 500,
            Code::Code501 => 501,
            Code::Code502 => 502,
            Code::Code503 => 503,
            Code::Code504 => 504,
            Code::Code505 => 505,
        }
    }

    /// The code with number `n`, where there is one.
    pub fn from_value(n: u16) -> (r: Option<Code>)
        ensures
            r is Some <==> is_known_code(n as nat),
            r matches Some(c) ==> code_value(c) == n as nat,
    {
        match n {
            100 => Some(Code::Code100),
            101 => Some(Code::Code101),
            200 => Some(Code::Code200),
            201 => Some(Code::Code201),
            202 => Some(Code::Code202),
            203 => Some(Code::Code203),
            204 => Some(Code::Code204),
            205 => Some(Code::Code205),
            206 => Some(Code::Code206),
            300 => Some(Code::Code300),
            301 => Some(Code::Code301),
            302 => Some(Code::Code302),
            303 => Some(Code::Code303),
            304 => Some(Code::Code304),
            305 => Some(Code::Code305),
            307 => Some(Code::Code307),
            400 => Some(Code::Code400),
            401 => Some(Code::Code401),
            402 => Some(Code::Code402),
            403 => Some(Code::Code403),
            404 => Some(Code::Code404),
            405 => Some(Code::Code405),
            406 => Some(Code::Code406),
            407 => Some(Code::Code407),
            408 => Some(Code::Code408),
            409 => Some(Code::Code409),
            410 => Some(Code::Code410),
            411 => Some(Code::Code411),
            412 => Some(Code::Code412),
            413 => Some(Code::Code413),
            414 => Some(Code::Code414),
            415 => Some(Code::Code415),
            416 => Some(Code::Code416),
            417 => Some(Code::Code417),
            500 => Some(Code::Code500),
            501 => Some(Code::Code501),
            502 => Some(Code::Code502),
            503 => Some(Code::Code503),
            504 => Some(Code::Code504),
            505 => Some(Code::Code505),
            _ => None,
        }
    }

    /// The code's number as three digits.
    pub fn to_text(&self) -> (r: String)
        ensures
            r@ == decimal_text(code_value(*self)),
    {
        decimal_string(self.value() as u64)
    }
}

/// Reads the status code `cs[from..to]`.
fn parse_code(cs: &Vec<char>, from: usize, to: usize) -> (r: Result<Code, HttpError>)
    requires
        from <= to <= cs@.len(),
    ensures
        r is Ok <==> status_code_of(cs@.subrange(from as int, to as int)) is Some,
        r matches Ok(c) ==> status_code_of(cs@.subrange(from as int, to as int)) == Some(
            code_value(c),
        ),
        r matches Err(e) ==> e == HttpError::MalformedMessage,
{
    let ghost s = cs@.subrange(from as int, to as int);
    if to - from == 3 && is_digit_char(cs[from]) && is_digit_char(cs[from + 1]) && is_digit_char(
        cs[from + 2],
    ) {
        let d0 = (cs[from] as u32 - '0' as u32) as u16;
        let d1 = (cs[from + 1] as u32 - '0' as u32) as u16;
        let d2 = (cs[from + 2] as u32 - '0' as u32) as u16;
        let v = d0 * 100 + d1 * 10 + d2;
        proof {
            let s1 = s.drop_last().drop_last();
            let s2 = s.drop_last();
            assert(s1.drop_last() =~= Seq::<char>::empty());
            assert(s1 =~= seq![s[0]]);
            assert(digits_value(s1) == digits_value(s1.drop_last()) * 10 + digit_value(s1.last()));
            assert(digits_value(s1) == digit_value(s[0]));
            assert(digits_value(s2) == digits_value(s1) * 10 + digit_value(s[1]));
            assert(digits_value(s) == digits_value(s2) * 10 + digit_value(s[2]));
            assert(d0 == digit_value(s[0]) && d1 == digit_value(s[1]) && d2 == digit_value(s[2]));
            assert(digits_value(s) == v);
            assert(all_digits(s)) by {
                assert forall|i: int| 0 <= i < 3 implies is_digit(s[i]) by {}
            }
        }
        match Code::from_value(v) {
            Some(c) => {
                return Ok(c);
            },
            None => {},
        }
    } else {
        proof {
            if s.len() == 3 && all_digits(s) {
                assert(is_digit(s[0]) && is_digit(s[1]) && is_digit(s[2]));
            }
        }
    }
    if to > from && '1' <= cs[from] && cs[from] <= '5' {
        let c = cs[from];
        let r = if c == '1' {
            Code::Code100
        } else if c == '2' {
            Code::Code200
        } else if c == '3' {
            Code::Code300
        } else if c == '4' {
            Code::Code400
        } else {
            Code::Code500
        };
        Ok(r)
    } else {
        Err(HttpError::MalformedMessage)
    }
}

fn is_digit_char(c: char) -> (r: bool)
    ensures
        r == is_digit(c),
{
    '0' <= c && c <= '9'
}

/// The status line of a response, without its CRLF: version, space, code,
/// space, reason.
pub open spec fn status_line_of(line: Seq<char>) -> Option<(Seq<char>, nat, Seq<char>)> {
    match first_of(line, ' ') {
        None => None,
        Some(a) => {
            let rest = line.skip(a + 1);
            if line.take(a) != http_version() {
                None
            } else {
                match first_of(rest, ' ') {
                    Some(b) => match status_code_of(rest.take(b)) {
                        Some(c) => Some((line.take(a), c, rest.skip(b + 1))),
                        None => None,
                    },
                    None => None,
                }
            }
        },
    }
}

/// The status line of a response.
#[derive(Debug)]
pub struct StatusLine {
    pub version: String,
    pub code: Code,
    pub reason: String,
}

impl View for StatusLine {
    type V = (Seq<char>, nat, Seq<char>);

    open spec fn view(&self) -> (Seq<char>, nat, Seq<char>) {
        (self.version@, code_value(self.code), self.reason@)
    }
}

/// A status line written out, with its CRLF.
pub open spec fn status_line_text(l: (Seq<char>, nat, Seq<char>)) -> Seq<char> {
    l.0 + seq![' '] + decimal_text(l.1) + seq![' '] + l.2 + crlf()
}

impl StatusLine {
    /// Appends the line and its CRLF to `out`.
    pub fn write_text(&self, out: &mut String)
        ensures
            final(out)@ == old(out)@ + status_line_text(self@),
    {
        proof {
            reveal_strlit(" ");
            reveal_strlit("\r\n");
        }
        let c = self.code.to_text();
        out.append(self.version.as_str());
        out.append(" ");
        out.append(c.as_str());
        out.append(" ");
        out.append(self.reason.as_str());
        out.append("\r\n");
        assert(" "@ =~= seq![' ']);
        assert("\r\n"@ =~= crlf());
        assert(final(out)@ =~= old(out)@ + status_line_text(self@));
    }
}

/// Reads the status line `cs[from..to]` (without its CRLF).
fn parse_status_line(input: &str, cs: &Vec<char>, from: usize, to: usize) -> (r: Result<StatusLine, HttpError>)
    requires
        from <= to <= cs@.len(),
        cs@ == input@,
    ensures
        r is Ok <==> status_line_of(cs@.subrange(from as int, to as int)) is Some,
        r matches Ok(l) ==> Some(l@) == status_line_of(cs@.subrange(from as int, to as int)),
        r matches Err(e) ==> e == HttpError::MalformedMessage,
{
    let ghost line = cs@.subrange(from as int, to as int);
    let a = match find_char(cs, from, to, ' ') {
        Some(a) => a,
        None => {
            return Err(HttpError::MalformedMessage);
        },
    };
    let ghost rest = line.skip(a - from + 1);
    assert(line.take(a - from) =~= cs@.subrange(from as int, a as int));
    let version_text = string_between(input, from, a);
    let version = match parse_version(version_text.as_str()) {
        Ok(v) => v,
        Err(e) => {
            return Err(e);
        },
    };
    assert(rest =~= cs@.subrange(a + 1, to as int));
    let b = match find_char(cs, a + 1, to, ' ') {
        Some(b) => b,
        None => {
            return Err(HttpError::MalformedMessage);
        },
    };
    assert(rest.take(b - (a + 1)) =~= cs@.subrange(a + 1, b as int));
    assert(rest.skip(b - (a + 1) + 1) =~= cs@.subrange(b + 1, to as int));
    let code = match parse_code(cs, a + 1, b) {
        Ok(c) => c,
        Err(e) => {
            return Err(e);
        },
    };
    let reason = string_between(input, b + 1, to);
    Ok(StatusLine { version, code, reason })
}

/// The head of a response: status line, CRLF, header section.
pub open spec fn response_head_of(text: Seq<char>) -> Option<
    (Seq<char>, nat, Seq<char>, Map<Seq<char>, Seq<char>>),
> {
    match first_crlf(text) {
        None => None,
        Some(i) => match (status_line_of(text.take(i)), header_section(text.skip(i + 2))) {
            (Some(l), Some(m)) => Some((l.0, l.1, l.2, m)),
            _ => None,
        },
    }
}

/// The name by which the proxy identifies itself.
pub open spec fn server_name() -> Seq<char> {
    "rusty-proxy"@
}

/// The head of a response: status line and header map.
#[derive(Debug)]
pub struct ResponseHeader {
    pub status: StatusLine,
    pub headers: Headers,
}

impl View for ResponseHeader {
    type V = (Seq<char>, nat, Seq<char>, Map<Seq<char>, Seq<char>>);

    open spec fn view(&self) -> (Seq<char>, nat, Seq<char>, Map<Seq<char>, Seq<char>>) {
        (self.status.version@, code_value(self.status.code), self.status.reason@, self.headers@)
    }
}

/// A response head written out: status line, header lines, blank line.
pub open spec fn response_head_text(h: &ResponseHeader) -> Seq<char> {
    status_line_text(h.status@) + fields_text(h.headers.entries()) + crlf()
}

/// Reads a response head: the status line up to the first CRLF, then the
/// header section.
pub fn parse_response_header(input: &str) -> (r: Result<ResponseHeader, HttpError>)
    ensures
        r is Ok <==> response_head_of(input@) is Some,
        r matches Ok(h) ==> Some(h@) == response_head_of(input@),
        r matches Err(e) ==> e == HttpError::MalformedMessage,
{
    let cs = chars_of(input);
    let i = match find_crlf(&cs, 0) {
        Some(i) => i,
        None => {
            assert forall|k: int| !is_first_crlf(input@, k) by {}
            return Err(HttpError::MalformedMessage);
        },
    };
    proof {
        let k = choose|k: int| is_first_crlf(cs@, k);
        assert(is_first_crlf(cs@, i as int));
        assert(k == i) by {
            if k < i {
                assert(!crlf_at(cs@, k));
            } else if k > i {
                assert(!crlf_at(cs@, i as int));
            }
        }
    }
    assert(cs@.subrange(0, i as int) =~= input@.take(i as int));
    let status = match parse_status_line(input, &cs, 0, i) {
        Ok(l) => l,
        Err(e) => {
            return Err(e);
        },
    };
    let rest = string_between(input, i + 2, cs.len());
    assert(rest@ =~= input@.skip(i + 2));
    let headers = match parse_headers(rest.as_str()) {
        Ok(h) => h,
        Err(e) => {
            return Err(e);
        },
    };
    Ok(ResponseHeader { status, headers })
}

impl ResponseHeader {
    /// A head with the given status line and only the `server` header.
    pub fn new(status: StatusLine) -> (r: ResponseHeader)
        ensures
            r.status@ == status@,
            r.headers@ == Map::<Seq<char>, Seq<char>>::empty().insert("server"@, server_name()),
    {
        let mut headers = Headers::new();
        headers.insert(String::from_str("server"), String::from_str("rusty-proxy"));
        ResponseHeader { status, headers }
    }

    /// The announced body length.
    pub fn get_content_length(&self) -> (r: Option<usize>)
        ensures
            r matches Some(n) ==> content_length_of(self.headers@) == Some(n as nat),
            r is None ==> content_length_of(self.headers@) is None || content_length_of(
                self.headers@,
            )->0 > usize::MAX,
    {
        content_length(&self.headers)
    }

    /// Sets header `k` to `v`.
    pub fn insert_header(&mut self, k: String, v: String)
        ensures
            final(self).headers@ == old(self).headers@.insert(k@, v@),
            final(self).status@ == old(self).status@,
    {
        self.headers.insert(k, v);
    }

    /// Removes header `k`.
    pub fn remove_header(&mut self, k: String)
        ensures
            final(self).headers@ == old(self).headers@.remove(k@),
            final(self).status@ == old(self).status@,
    {
        self.headers.remove(k.as_str());
    }

    /// The head as text.
    pub fn to_text(&self) -> (r: String)
        ensures
            r@ == response_head_text(self),
    {
        proof {
            reveal_strlit("\r\n");
        }
        let mut out = String::new();
        self.status.write_text(&mut out);
        self.headers.write_fields(&mut out);
        out.append("\r\n");
        assert("\r\n"@ =~= crlf());
        assert(out@ =~= response_head_text(self));
        out
    }

    /// The head as bytes on the wire.
    pub fn to_buffer(&self) -> (r: Vec<u8>)
        ensures
            r@ == encode_utf8(response_head_text(self)),
    {
        let t = self.to_text();
        t.as_str().as_bytes_vec()
    }
}

/// What a response view is: version, code, reason, header map, body.
pub type ResponseView = (Seq<char>, nat, Seq<char>, Map<Seq<char>, Seq<char>>, Seq<u8>);

/// The largest body, in whole MiB, that may be cached.
pub const MAX_CACHE_SIZE_MB: usize = 30;

/// The codes whose responses may be cached: 200 to 206.
pub open spec fn is_cacheable_code(n: nat) -> bool {
    200 <= n <= 206
}

/// A response may be cached where its code is 200 to 206, its body is at
/// most 30 MiB (counted in whole MiB) and its content type is one of the
/// cacheable ones.
pub open spec fn cacheable(status: nat, headers: Map<Seq<char>, Seq<char>>, body_len: nat) -> bool {
    &&& is_cacheable_code(status)
    &&& body_len / 1048576 <= 30
    &&& headers.contains_key(content_type_name())
    &&& cacheable_type_names().contains(headers[content_type_name()])
}

/// A response message.
#[derive(Debug)]
pub struct Response {
    pub header: ResponseHeader,
    pub body: Vec<u8>,
}

impl View for Response {
    type V = ResponseView;

    open spec fn view(&self) -> ResponseView {
        (
            self.header.status.version@,
            code_value(self.header.status.code),
            self.header.status.reason@,
            self.header.headers@,
            self.body@,
        )
    }
}

/// A response written out: the head as UTF-8, then the body.
pub open spec fn response_bytes(r: &Response) -> Seq<u8> {
    encode_utf8(response_head_text(&r.header)) + r.body@
}

/// The head that the bytes `head` denote.
pub open spec fn response_head_from_bytes(head: Seq<u8>) -> Result<
    (Seq<char>, nat, Seq<char>, Map<Seq<char>, Seq<char>>),
    HttpError,
> {
    if !valid_utf8(head) {
        Err(HttpError::DecodeError)
    } else {
        match response_head_of(decode_utf8(head)) {
            Some(h) => Ok(h),
            None => Err(HttpError::MalformedMessage),
        }
    }
}

/// The response at the start of `bytes`, and how many bytes it takes.
pub open spec fn response_of(bytes: Seq<u8>) -> Result<(ResponseView, nat), HttpError> {
    match head_end(bytes) {
        None => Err(HttpError::MalformedMessage),
        Some(n) => match response_head_from_bytes(bytes.take(n)) {
            Err(e) => Err(e),
            Ok(h) => {
                let len = crate::request::body_length(h.3);
                if n + len <= bytes.len() {
                    Ok(((h.0, h.1, h.2, h.3, bytes.subrange(n, n + len)), (n + len) as nat))
                } else {
                    Err(HttpError::MalformedMessage)
                }
            },
        },
    }
}

/// Reads a response head from its bytes (the blank line included).
pub fn parse_response_head(head: &[u8]) -> (r: Result<ResponseHeader, HttpError>)
    ensures
        r matches Ok(h) ==> response_head_from_bytes(head@) == Ok::<_, HttpError>(h@),
        r matches Err(e) ==> response_head_from_bytes(head@) == Err::<
            (Seq<char>, nat, Seq<char>, Map<Seq<char>, Seq<char>>),
            HttpError,
        >(e),
{
    match utf8_str(head) {
        None => Err(HttpError::DecodeError),
        Some(text) => parse_response_header(text),
    }
}

/// Reads the response at the start of `buf`; returns it and the number of
/// bytes it takes.
pub fn parse_response(buf: &[u8]) -> (r: Result<(Response, usize), HttpError>)
    ensures
        r matches Ok((res, n)) ==> response_of(buf@) == Ok::<_, HttpError>((res@, n as nat)),
        r matches Err(e) ==> response_of(buf@) == Err::<(ResponseView, nat), HttpError>(e),
{
    let n = match find_head_end(buf) {
        Some(n) => n,
        None => {
            return Err(HttpError::MalformedMessage);
        },
    };
    let header = match parse_response_head(&buf[0..n]) {
        Ok(h) => h,
        Err(e) => {
            assert(buf@.subrange(0, n as int) =~= buf@.take(n as int));
            return Err(e);
        },
    };
    assert(buf@.subrange(0, n as int) =~= buf@.take(n as int));
    let len: usize = match header.get_content_length() {
        Some(l) => l,
        None => 0,
    };
    if len > buf.len() - n {
        return Err(HttpError::MalformedMessage);
    }
    let body = copy_bytes(buf, n, n + len);
    Ok((Response { header, body }, n + len))
}

/// The headers of a reply served from the cache: `server`, the content type
/// where there is one, and the length.
pub open spec fn cache_reply_headers(m: crate::cache::MetadataView) -> Map<Seq<char>, Seq<char>> {
    (match m.2 {
        Some(ct) => Map::<Seq<char>, Seq<char>>::empty().insert("server"@, server_name()).insert(
            content_type_name(),
            ct,
        ),
        None => Map::<Seq<char>, Seq<char>>::empty().insert("server"@, server_name()),
    }).insert("content-length"@, decimal_text(m.3 as nat))
}

impl Response {
    /// A `200 OK` response that serves a cache entry: its content type,
    /// where it has one, its length, and its body.
    pub fn from_cache_file(file: CacheFile) -> (r: Response)
        ensures
            r.header.status@ == (http_version(), 200nat, "OK"@),
            r.header.headers@ == cache_reply_headers(file.metadata@),
            r.body@ == file.content_data@,
    {
        let status = StatusLine {
            version: version_text(),
            code: Code::Code200,
            reason: String::from_str("OK"),
        };
        let mut header = ResponseHeader::new(status);
        match file.metadata.content_type {
            Some(content_type) => {
                header.insert_header(String::from_str("content-type"), content_type);
            },
            None => {},
        }
        header.insert_header(
            String::from_str("content-length"),
            decimal_string(file.metadata.content_length),
        );
        Response { header, body: file.content_data }
    }

    /// The reply to a request that does not parse.
    pub fn response400() -> (r: Response)
        ensures
            r.header.status@ == (http_version(), 400nat, "Malformed request"@),
            r.header.headers@ == Map::<Seq<char>, Seq<char>>::empty().insert("server"@, server_name()),
            r.body@.len() == 0,
    {
        let status = StatusLine {
            version: version_text(),
            code: Code::Code400,
            reason: String::from_str("Malformed request"),
        };
        let header = ResponseHeader::new(status);
        Response { header, body: Vec::new() }
    }

    /// The reply when the upstream cannot be reached or answers badly.
    pub fn response500() -> (r: Response)
        ensures
            r.header.status@ == (http_version(), 500nat, "Internal server error"@),
            r.header.headers@ == Map::<Seq<char>, Seq<char>>::empty().insert("server"@, server_name()),
            r.body@.len() == 0,
    {
        let status = StatusLine {
            version: version_text(),
            code: Code::Code500,
            reason: String::from_str("Internal server error"),
        };
        let header = ResponseHeader::new(status);
        Response { header, body: Vec::new() }
    }

    /// The content type, where there is one.
    pub fn get_content_type(&self) -> (r: Option<String>)
        ensures
            r is Some <==> self.header.headers@.contains_key(content_type_name()),
            r matches Some(t) ==> t@ == self.header.headers@[content_type_name()],
    {
        match self.header.headers.get("content-type") {
            Some(t) => Some(String::from_str(t.as_str())),
            None => None,
        }
    }

    /// Whether the response may be cached (the request's method aside).
    pub fn is_cacheable(&self) -> (r: bool)
        ensures
            r == cacheable(code_value(self.header.status.code), self.header.headers@, self.body@.len()),
    {
        let code = self.header.status.code.value();
        let is_valid_status_code = 200 <= code && code <= 206;
        self.body.len() / 1048576 <= MAX_CACHE_SIZE_MB && is_valid_status_code
            && is_cacheable_content_type(&self.header.headers)
    }

    /// The body's size in whole MiB (at most `u32::MAX`).
    pub fn body_size_mb(&self) -> (r: u32)
        ensures
            r as nat == if self.body@.len() / 1048576 <= u32::MAX {
                self.body@.len() / 1048576
            } else {
                u32::MAX as nat
            },
    {
        let mb = self.body.len() / 1048576;
        if mb > u32::MAX as usize {
            u32::MAX
        } else {
            mb as u32
        }
    }

    /// Marks the response as coming from this proxy, before it goes to the
    /// client.
    pub fn set_server(&mut self)
        ensures
            final(self).header.headers@ == old(self).header.headers@.insert("server"@, server_name()),
            final(self).header.status@ == old(self).header.status@,
            final(self).body@ == old(self).body@,
    {
        self.header.insert_header(String::from_str("server"), String::from_str("rusty-proxy"));
    }

    /// The response as bytes on the wire.
    pub fn to_buffer(&self) -> (r: Vec<u8>)
        ensures
            r@ == response_bytes(self),
    {
        let mut out = self.header.to_buffer();
        let mut body = copy_bytes(self.body.as_slice(), 0, self.body.len());
        assert(self.body@.subrange(0, self.body@.len() as int) =~= self.body@);
        out.append(&mut body);
        out
    }
}

} // verus!
