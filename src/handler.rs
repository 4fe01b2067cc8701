//! The decisions of the per-request pipeline. The caller performs the I/O
//! (sockets, files, sleeping) and hands the outcomes in; these functions say
//! what to do next.
use vstd::prelude::*;

use crate::cache::{entry_of, expired_at, opt_view, CacheFile, FileMetadata, MetadataView};
use crate::headers::{content_type_name, http_version, HttpError};
use crate::request::Method;
use crate::response::{cache_reply_headers, cacheable, code_value, server_name, Response};
use crate::text::copy_bytes;

verus! {

/// What to send back when the request does not parse: a `400` for a
/// malformed message, nothing (the connection is closed) for anything else.
pub fn parse_failure_reply(e: HttpError) -> (r: Option<Response>)
    ensures
        r is Some <==> e == HttpError::MalformedMessage,
        r matches Some(res) ==> res.header.status@ == (http_version(), 400nat, "Malformed request"@)
            && res.header.headers@ == Map::<Seq<char>, Seq<char>>::empty().insert(
            "server"@,
            server_name(),
        ) && res.body@.len() == 0,
{
    match e {
        HttpError::MalformedMessage => Some(Response::response400()),
        _ => None,
    }
}

/// The next step after a failed connection attempt.
#[derive(Debug, Clone, Copy, PartialEq, Eq, Structural)]
pub enum ConnectStep {
    /// Wait the failure delay, then try again with this many retries left.
    Retry { retries_left: u16 },
    /// Stop; the client gets a `500`.
    GiveUp,
}

/// After a failed attempt with `retries_left` retries left: retry while any
/// are left.
pub fn after_failed_connect(retries_left: u16) -> (r: ConnectStep)
    ensures
        retries_left == 0 ==> r == ConnectStep::GiveUp,
        retries_left > 0 ==> r == (ConnectStep::Retry { retries_left: (retries_left - 1) as u16 }),
{
    if retries_left < 1 {
        ConnectStep::GiveUp
    } else {
        ConnectStep::Retry { retries_left: retries_left - 1 }
    }
}

/// Whether the request may be answered from the cache: a `GET` whose entry
/// path is a regular file.
pub fn should_look_up_cache(method: Method, is_file: bool) -> (r: bool)
    ensures
        r == (method == Method::Get && is_file),
{
    method == Method::Get && is_file
}

/// The body served from the cache for a request with `method`, given the
/// entry's bytes and the time: the entry's body where the request is a `GET`,
/// the entry reads and it is not expired; a clock that could not be read
/// counts as not expired.
pub open spec fn cache_hit(method: Method, entry: Option<Seq<u8>>, now: Option<u64>) -> Option<
    (MetadataView, Seq<u8>),
> {
    if method != Method::Get {
        None
    } else {
        match entry {
            None => None,
            Some(b) => match entry_of(b) {
                None => None,
                Some((m, body)) => {
                    let expired = match now {
                        Some(t) => expired_at(m, t),
                        None => false,
                    };
                    if expired {
                        None
                    } else {
                        Some((m, body))
                    }
                },
            },
        }
    }
}

pub open spec fn bytes_view(b: Option<&[u8]>) -> Option<Seq<u8>> {
    match b {
        Some(s) => Some(s@),
        None => None,
    }
}

/// The reply from the cache for a request with `method`, given the bytes of
/// the entry file (where it could be read) and the time (where the clock
/// could be read): the entry's response where it reads and is not expired;
/// `None` (pass the request on) otherwise. A clock that cannot be read
/// counts as not expired.
pub fn cached_response(method: Method, entry: Option<&[u8]>, path: String, now: Option<u64>) -> (r: Option<Response>)
    ensures
        r is Some <==> cache_hit(method, bytes_view(entry), now) is Some,
        r matches Some(res) ==> cache_hit(method, bytes_view(entry), now) matches Some((m, body))
            && res.header.status@ == (http_version(), 200nat, "OK"@) && res.header.headers@
            == cache_reply_headers(m) && res.body@ == body,
{
    if method != Method::Get {
        return None;
    }
    let bytes = match entry {
        Some(b) => b,
        None => {
            return None;
        },
    };
    let file = match CacheFile::from_bytes(path, bytes) {
        Ok(f) => f,
        Err(_) => {
            return None;
        },
    };
    let expired = match now {
        Some(t) => file.metadata.is_expired_at(t),
        None => false,
    };
    if expired {
        None
    } else {
        Some(Response::from_cache_file(file))
    }
}

/// Whether the upstream's response to a request with `method` is cached:
/// only for `GET`, and only where the response is cacheable.
pub fn should_cache(method: Method, res: &Response) -> (r: bool)
    ensures
        r == (method == Method::Get && cacheable(
            code_value(res.header.status.code),
            res.header.headers@,
            res.body@.len(),
        )),
{
    method == Method::Get && res.is_cacheable()
}

/// The entry to queue for writing after the upstream answered: where the
/// response is to be cached, its path is not a directory and the clock could
/// be read (`now`), an entry at `path` stamped `now`, with `ttl` seconds to
/// live and the response's content type and body.
pub fn pending_write(
    method: Method,
    res: &Response,
    path: String,
    path_is_dir: bool,
    ttl: u64,
    now: Option<u64>,
) -> (r: Option<CacheFile>)
    ensures
        r is Some <==> method == Method::Get && cacheable(
            code_value(res.header.status.code),
            res.header.headers@,
            res.body@.len(),
        ) && !path_is_dir && now is Some,
        r matches Some(f) ==> f.path@ == path@ && f.metadata.timestamp == now->0
            && f.metadata.ttl_secs == ttl && f.content_data@ == res.body@
            && f.metadata.content_length == res.body@.len() && (opt_view(f.metadata.content_type)
            is Some <==> res.header.headers@.contains_key(content_type_name())) && (opt_view(
            f.metadata.content_type,
        ) matches Some(ct) ==> ct == res.header.headers@[content_type_name()]),
{
    if !should_cache(method, res) || path_is_dir {
        return None;
    }
    let t = match now {
        Some(t) => t,
        None => {
            return None;
        },
    };
    let body = copy_bytes(res.body.as_slice(), 0, res.body.len());
    assert(res.body@.subrange(0, res.body@.len() as int) =~= res.body@);
    let metadata = FileMetadata::with_timestamp(t, ttl, res.body.len() as u64, res.get_content_type());
    Some(CacheFile { metadata, path, content_data: body })
}

} // verus!
