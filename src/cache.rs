//! Cache entries: their metadata, the on-disk layout, expiry, and where an
//! entry lives under the cache root.
//!
//! Layout of an entry: the content type as UTF-8 and a line feed (only the
//! line feed where there is none), then timestamp, TTL and body length as
//! little-endian `u64`s, then the body.
use vstd::prelude::*;
use vstd::string::StrSliceExecFns;
use vstd::utf8::{
    decode_utf8, encode_utf8, encode_utf8_decode_utf8, encode_utf8_valid_utf8, valid_utf8,
};

use crate::text::{chars_of, copy_bytes, lemma_encode_utf8_avoids, string_between, utf8_str};

verus! {

/// Failures of the cache store.
#[derive(Debug, Clone, Copy, PartialEq, Eq, Structural)]
pub enum CacheError {
    /// The bytes are not an entry.
    Corrupt,
    /// The system clock could not be read.
    Clock,
}

/// The eight little-endian bytes of `n`.
pub open spec fn le8(n: u64) -> Seq<u8> {
    seq![
        (n & 0xff) as u8,
        ((n >> 8u64) & 0xff) as u8,
        ((n >> 16u64) & 0xff) as u8,
        ((n >> 24u64) & 0xff) as u8,
        ((n >> 32u64) & 0xff) as u8,
        ((n >> 40u64) & 0xff) as u8,
        ((n >> 48u64) & 0xff) as u8,
        ((n >> 56u64) & 0xff) as u8,
    ]
}

/// Two numbers with the same bytes are equal.
pub proof fn lemma_le8_injective(a: u64, b: u64)
    requires
        le8(a) == le8(b),
    ensures
        a == b,
{
    assert(le8(a)[0] == le8(b)[0] && le8(a)[1] == le8(b)[1] && le8(a)[2] == le8(b)[2] && le8(a)[3]
        == le8(b)[3]);
    assert(le8(a)[4] == le8(b)[4] && le8(a)[5] == le8(b)[5] && le8(a)[6] == le8(b)[6] && le8(a)[7]
        == le8(b)[7]);
    assert(a == b) by (bit_vector)
        requires
            (a & 0xff) as u8 == (b & 0xff) as u8,
            ((a >> 8u64) & 0xff) as u8 == ((b >> 8u64) & 0xff) as u8,
            ((a >> 16u64) & 0xff) as u8 == ((b >> 16u64) & 0xff) as u8,
            ((a >> 24u64) & 0xff) as u8 == ((b >> 24u64) & 0xff) as u8,
            ((a >> 32u64) & 0xff) as u8 == ((b >> 32u64) & 0xff) as u8,
            ((a >> 40u64) & 0xff) as u8 == ((b >> 40u64) & 0xff) as u8,
            ((a >> 48u64) & 0xff) as u8 == ((b >> 48u64) & 0xff) as u8,
            ((a >> 56u64) & 0xff) as u8 == ((b >> 56u64) & 0xff) as u8,
    ;
}

/// The number whose little-endian bytes are `b`.
pub open spec fn le_value(b: Seq<u8>) -> u64 {
    choose|n: u64| #[trigger] le8(n) == b
}

/// Relies on `u64::to_le_bytes`: the eight bytes of `n`, least significant
/// first.
#[verifier::external_body]
fn u64_to_le(n: u64) -> (r: Vec<u8>)
    ensures
        r@ == le8(n),
{
    n.to_le_bytes().to_vec()
}

/// Relies on `u64::from_le_bytes`: the number whose bytes, least significant
/// first, are `b`.
#[verifier::external_body]
fn u64_from_le(b: &[u8]) -> (r: u64)
    requires
        b@.len() == 8,
    ensures
        le8(r) == b@,
{
    u64::from_le_bytes([b[0], b[1], b[2], b[3], b[4], b[5], b[6], b[7]])
}

/// Reads the number at `b[at..at + 8]`.
fn read_u64(b: &[u8], at: usize) -> (r: u64)
    requires
        at + 8 <= b@.len(),
    ensures
        r == le_value(b@.subrange(at as int, at + 8)),
{
    let len = b.len();
    assert(at + 8 <= len);
    let bytes = copy_bytes(b, at, at + 8);
    let r = u64_from_le(bytes.as_slice());
    proof {
        let n = choose|n: u64| #[trigger] le8(n) == b@.subrange(at as int, at + 8);
        lemma_le8_injective(n, r);
    }
    r
}

/// What metadata is: timestamp, TTL (both in seconds), content type, body
/// length.
pub type MetadataView = (u64, u64, Option<Seq<char>>, u64);

/// The metadata of a cache entry.
#[derive(Debug)]
pub struct FileMetadata {
    /// Creation time, in seconds since the Unix epoch.
    pub timestamp: u64,
    /// Time to live, in seconds.
    pub ttl_secs: u64,
    pub content_type: Option<String>,
    pub content_length: u64,
}

pub open spec fn opt_view(o: Option<String>) -> Option<Seq<char>> {
    match o {
        Some(s) => Some(s@),
        None => None,
    }
}

impl View for FileMetadata {
    type V = MetadataView;

    open spec fn view(&self) -> MetadataView {
        (self.timestamp, self.ttl_secs, opt_view(self.content_type), self.content_length)
    }
}

/// The content-type line: the type's UTF-8 bytes, then a line feed.
pub open spec fn type_line(ct: Option<Seq<char>>) -> Seq<u8> {
    match ct {
        Some(c) => encode_utf8(c),
        None => Seq::empty(),
    }.push(10u8)
}

/// The bytes of an entry's metadata.
pub open spec fn header_bytes(m: MetadataView) -> Seq<u8> {
    type_line(m.2) + le8(m.0) + le8(m.1) + le8(m.3)
}

/// The bytes of an entry.
pub open spec fn entry_bytes(m: MetadataView, body: Seq<u8>) -> Seq<u8> {
    header_bytes(m) + body
}

/// `i` is the first line feed of `b`.
pub open spec fn is_first_lf(b: Seq<u8>, i: int) -> bool {
    0 <= i < b.len() && b[i] == 10 && forall|j: int| 0 <= j < i ==> b[j] != 10
}

/// The first line feed of `b`, where it has one.
pub open spec fn first_lf(b: Seq<u8>) -> Option<int> {
    if exists|i: int| is_first_lf(b, i) {
        Some(choose|i: int| is_first_lf(b, i))
    } else {
        None
    }
}

/// The metadata at the start of `b` and its length in bytes: a UTF-8 line
/// (empty for no content type), then three little-endian numbers.
pub open spec fn metadata_of(b: Seq<u8>) -> Option<(MetadataView, nat)> {
    match first_lf(b) {
        None => None,
        Some(i) => {
            let line = b.take(i);
            if !valid_utf8(line) || b.len() < i + 25 {
                None
            } else {
                let ct = if i == 0 {
                    None
                } else {
                    Some(decode_utf8(line))
                };
                Some(
                    (
                        (
                            le_value(b.subrange(i + 1, i + 9)),
                            le_value(b.subrange(i + 9, i + 17)),
                            ct,
                            le_value(b.subrange(i + 17, i + 25)),
                        ),
                        (i + 25) as nat,
                    ),
                )
            }
        },
    }
}

/// The entry that `b` holds: metadata, then as many body bytes as it
/// announces (bytes after those are not part of it).
pub open spec fn entry_of(b: Seq<u8>) -> Option<(MetadataView, Seq<u8>)> {
    match metadata_of(b) {
        None => None,
        Some((m, h)) => if h + m.3 <= b.len() {
            Some((m, b.subrange(h as int, h + m.3)))
        } else {
            None
        },
    }
}

/// An entry is expired once `now` has reached its timestamp plus its TTL.
pub open spec fn expired_at(m: MetadataView, now: u64) -> bool {
    now >= m.0 + m.1
}

#[verifier::external_type_specification]
#[verifier::external_body]
pub struct ExSystemTime(std::time::SystemTime);

/// Relies on `SystemTime::now`. Nothing is promised of the value: it is the
/// time.
#[verifier::external_body]
fn system_now() -> (r: std::time::SystemTime) {
    std::time::SystemTime::now()
}

/// Relies on `SystemTime::duration_since`: the whole seconds from the Unix
/// epoch to `t`, or `None` where `t` is before it.
#[verifier::external_body]
fn secs_since_epoch(t: &std::time::SystemTime) -> (r: Option<u64>) {
    match t.duration_since(std::time::UNIX_EPOCH) {
        Ok(d) => Some(d.as_secs()),
        Err(_) => None,
    }
}

/// The whole seconds since the Unix epoch, where the clock can be read.
fn unix_now() -> (r: Option<u64>) {
    let t = system_now();
    secs_since_epoch(&t)
}

/// The first line feed of `b`.
fn find_lf(b: &[u8]) -> (r: Option<usize>)
    ensures
        r matches Some(i) ==> first_lf(b@) == Some(i as int),
        r is None ==> first_lf(b@) is None,
{
    let mut i: usize = 0;
    while i < b.len()
        invariant
            i <= b@.len(),
            forall|j: int| 0 <= j < i ==> b@[j] != 10,
        decreases b@.len() - i,
    {
        if b[i] == 10 {
            assert(is_first_lf(b@, i as int));
            proof {
                let k = choose|k: int| is_first_lf(b@, k);
                if k < i {
                } else if k > i {
                    assert(b@[i as int] != 10);
                }
            }
            return Some(i);
        }
        i = i + 1;
    }
    assert forall|k: int| !is_first_lf(b@, k) by {
        if 0 <= k < b@.len() {
            assert(b@[k] != 10);
        }
    }
    None
}

impl FileMetadata {
    /// Metadata stamped with the time `now`.
    pub fn with_timestamp(now: u64, ttl: u64, content_length: u64, content_type: Option<String>) -> (r: FileMetadata)
        ensures
            r@ == (now, ttl, opt_view(content_type), content_length),
    {
        FileMetadata { timestamp: now, ttl_secs: ttl, content_type, content_length }
    }

    /// Metadata stamped with the current time.
    pub fn new(ttl: u64, content_length: u64, content_type: Option<String>) -> (r: Result<FileMetadata, CacheError>)
        ensures
            r matches Ok(m) ==> m.ttl_secs == ttl && m.content_length == content_length
                && opt_view(m.content_type) == opt_view(content_type),
            r matches Err(e) ==> e == CacheError::Clock,
    {
        match unix_now() {
            Some(now) => Ok(FileMetadata::with_timestamp(now, ttl, content_length, content_type)),
            None => Err(CacheError::Clock),
        }
    }

    /// Whether the entry is expired at `now` (seconds since the epoch).
    pub fn is_expired_at(&self, now: u64) -> (r: bool)
        ensures
            r == expired_at(self@, now),
    {
        now >= self.timestamp && now - self.timestamp >= self.ttl_secs
    }

    /// Whether the entry is expired now; `false` where the clock cannot be
    /// read, so that nothing is deleted on a bad clock.
    pub fn is_expired(&self) -> (r: bool)
        ensures
            r ==> exists|now: u64| expired_at(self@, now),
    {
        match unix_now() {
            Some(now) => self.is_expired_at(now),
            None => false,
        }
    }

    /// The metadata's bytes.
    pub fn to_bytes(&self) -> (r: Vec<u8>)
        ensures
            r@ == header_bytes(self@),
    {
        let mut out: Vec<u8> = match &self.content_type {
            Some(ct) => ct.as_str().as_bytes_vec(),
            None => Vec::new(),
        };
        out.push(10u8);
        assert(out@ == type_line(opt_view(self.content_type)));
        let mut t = u64_to_le(self.timestamp);
        let mut l = u64_to_le(self.ttl_secs);
        let mut n = u64_to_le(self.content_length);
        out.append(&mut t);
        out.append(&mut l);
        out.append(&mut n);
        out
    }

    /// Reads the metadata at the start of `b`; returns it and its length in
    /// bytes.
    pub fn from_bytes(b: &[u8]) -> (r: Result<(FileMetadata, usize), CacheError>)
        ensures
            r matches Ok((m, h)) ==> metadata_of(b@) == Some((m@, h as nat)),
            r matches Err(e) ==> metadata_of(b@) is None && e == CacheError::Corrupt,
    {
        let i = match find_lf(b) {
            Some(i) => i,
            None => {
                return Err(CacheError::Corrupt);
            },
        };
        let line = copy_bytes(b, 0, i);
        assert(line@ =~= b@.take(i as int));
        let text = match utf8_str(line.as_slice()) {
            Some(t) => t,
            None => {
                return Err(CacheError::Corrupt);
            },
        };
        if b.len() - i < 25 {
            return Err(CacheError::Corrupt);
        }
        let content_type = if i == 0 {
            None
        } else {
            Some(String::from_str(text))
        };
        let timestamp = read_u64(b, i + 1);
        let ttl_secs = read_u64(b, i + 9);
        let content_length = read_u64(b, i + 17);
        Ok((FileMetadata { timestamp, ttl_secs, content_type, content_length }, i + 25))
    }
}

/// A cache entry: metadata, where it lives, and the body.
#[derive(Debug)]
pub struct CacheFile {
    pub metadata: FileMetadata,
    pub path: String,
    pub content_data: Vec<u8>,
}

impl CacheFile {
    /// An entry stamped with the current time.
    pub fn new(
        ttl: u64,
        content_length: u64,
        path: String,
        content_data: Vec<u8>,
        content_type: Option<String>,
    ) -> (r: Result<CacheFile, CacheError>)
        ensures
            r matches Ok(f) ==> f.metadata.ttl_secs == ttl && f.metadata.content_length
                == content_length && opt_view(f.metadata.content_type) == opt_view(content_type)
                && f.path@ == path@ && f.content_data@ == content_data@,
            r matches Err(e) ==> e == CacheError::Clock,
    {
        match FileMetadata::new(ttl, content_length, content_type) {
            Ok(metadata) => Ok(CacheFile { metadata, path, content_data }),
            Err(e) => Err(e),
        }
    }

    /// The entry's bytes on disk.
    pub fn to_bytes(&self) -> (r: Vec<u8>)
        ensures
            r@ == entry_bytes(self.metadata@, self.content_data@),
    {
        let mut out = self.metadata.to_bytes();
        let mut body = copy_bytes(self.content_data.as_slice(), 0, self.content_data.len());
        assert(self.content_data@.subrange(0, self.content_data@.len() as int)
            =~= self.content_data@);
        out.append(&mut body);
        out
    }

    /// Reads the entry that `b` holds, stored at `path`.
    pub fn from_bytes(path: String, b: &[u8]) -> (r: Result<CacheFile, CacheError>)
        ensures
            r matches Ok(f) ==> entry_of(b@) == Some((f.metadata@, f.content_data@)) && f.path@
                == path@,
            r matches Err(e) ==> entry_of(b@) is None && e == CacheError::Corrupt,
    {
        let (metadata, h) = match FileMetadata::from_bytes(b) {
            Ok(p) => p,
            Err(e) => {
                return Err(e);
            },
        };
        if metadata.content_length > (b.len() - h) as u64 {
            return Err(CacheError::Corrupt);
        }
        let end = h + metadata.content_length as usize;
        let content_data = copy_bytes(b, h, end);
        Ok(CacheFile { metadata, path, content_data })
    }
}

/// A valid entry: a content type, where there is one, is not empty and
/// holds no line feed; the body is as long as the metadata says.
pub open spec fn valid_entry(m: MetadataView, body: Seq<u8>) -> bool {
    &&& m.2 matches Some(c) ==> c.len() > 0 && forall|i: int| 0 <= i < c.len() ==> c[i] != '\n'
    &&& body.len() == m.3
}

/// Reading back what was written gives the same entry: content type,
/// timestamp, TTL and body.
pub proof fn lemma_entry_round_trip(m: MetadataView, body: Seq<u8>)
    requires
        valid_entry(m, body),
    ensures
        entry_of(entry_bytes(m, body)) == Some((m, body)),
{
    let b = entry_bytes(m, body);
    let line = match m.2 {
        Some(c) => encode_utf8(c),
        None => Seq::<u8>::empty(),
    };
    let i = line.len() as int;
    match m.2 {
        Some(c) => {
            lemma_encode_utf8_avoids(c, '\n');
            encode_utf8_valid_utf8(c);
            encode_utf8_decode_utf8(c);
            assert(c.len() > 0);
            crate::text::lemma_encode_first(c);
        },
        None => {},
    }
    assert(b =~= line + seq![10u8] + le8(m.0) + le8(m.1) + le8(m.3) + body);
    assert(is_first_lf(b, i)) by {
        assert forall|j: int| 0 <= j < i implies b[j] != 10 by {
            assert(b[j] == line[j]);
        }
    }
    let k = choose|k: int| is_first_lf(b, k);
    assert(k == i) by {
        if k < i {
            assert(b[k] != 10);
        } else if k > i {
            assert(b[i] != 10);
        }
    }
    assert(b.take(i) =~= line);
    assert(valid_utf8(line)) by {
        if line.len() == 0 {
        }
    }
    assert(b.subrange(i + 1, i + 9) =~= le8(m.0));
    assert(b.subrange(i + 9, i + 17) =~= le8(m.1));
    assert(b.subrange(i + 17, i + 25) =~= le8(m.3));
    let t = choose|n: u64| #[trigger] le8(n) == le8(m.0);
    lemma_le8_injective(t, m.0);
    let l = choose|n: u64| #[trigger] le8(n) == le8(m.1);
    lemma_le8_injective(l, m.1);
    let n = choose|n: u64| #[trigger] le8(n) == le8(m.3);
    lemma_le8_injective(n, m.3);
    assert(b.subrange(i + 25, i + 25 + m.3) =~= body);
    match m.2 {
        Some(c) => {
            assert(i != 0);
        },
        None => {
            assert(i == 0);
        },
    }
}

/// A request target without its leading `/`, so that it stays under the
/// cache root.
pub open spec fn strip_leading_slash(u: Seq<char>) -> Seq<char> {
    if u.len() > 0 && u[0] == '/' {
        u.drop_first()
    } else {
        u
    }
}

/// `rel` under directory `dir`, with one separator between them.
pub open spec fn join_path(dir: Seq<char>, rel: Seq<char>) -> Seq<char> {
    if dir.len() == 0 {
        rel
    } else if dir.last() == '/' {
        dir + rel
    } else {
        dir + seq!['/'] + rel
    }
}

/// Where the entry for request target `uri` lives under `cache_dir`.
pub fn mk_file_path(cache_dir: &String, uri: String) -> (r: String)
    ensures
        r@ == join_path(cache_dir@, strip_leading_slash(uri@)),
{
    let u = chars_of(uri.as_str());
    let start: usize = if u.len() > 0 && u[0] == '/' {
        1
    } else {
        0
    };
    let rel = string_between(uri.as_str(), start, u.len());
    assert(rel@ =~= strip_leading_slash(uri@));
    let d = chars_of(cache_dir.as_str());
    let mut out = String::from_str(cache_dir.as_str());
    if d.len() > 0 && d[d.len() - 1] != '/' {
        proof {
            reveal_strlit("/");
        }
        out.append("/");
        assert("/"@ =~= seq!['/']);
    }
    out.append(rel.as_str());
    out
}

/// The files of a sweep, each a path and the bytes that start it.
pub type SweepView = Seq<(Seq<char>, Seq<u8>)>;

pub open spec fn sweep_view(files: Seq<(String, Vec<u8>)>) -> SweepView {
    files.map_values(|f: (String, Vec<u8>)| (f.0@, f.1@))
}

/// The paths, in order, of the files whose metadata reads and is expired at
/// `now`.
pub open spec fn sweep_victims(files: SweepView, now: u64) -> Seq<Seq<char>>
    decreases files.len(),
{
    if files.len() == 0 {
        Seq::empty()
    } else {
        let rest = sweep_victims(files.drop_last(), now);
        match metadata_of(files.last().1) {
            Some((m, _)) => if expired_at(m, now) {
                rest.push(files.last().0)
            } else {
                rest
            },
            None => rest,
        }
    }
}

/// Which of the files found in a sweep to delete at `now`: those whose
/// metadata reads and is expired. Files that do not read are left alone.
pub fn expired_paths(files: &Vec<(String, Vec<u8>)>, now: u64) -> (r: Vec<String>)
    ensures
        r@.map_values(|p: String| p@) == sweep_victims(sweep_view(files@), now),
{
    let mut out: Vec<String> = Vec::new();
    let mut i: usize = 0;
    while i < files.len()
        invariant
            i <= files@.len(),
            out@.map_values(|p: String| p@) == sweep_victims(sweep_view(files@).take(i as int), now),
        decreases files@.len() - i,
    {
        let ghost prev = out@.map_values(|p: String| p@);
        let ghost part = sweep_view(files@).take(i + 1);
        assert(part.drop_last() =~= sweep_view(files@).take(i as int));
        assert(part.last() == (files@[i as int].0@, files@[i as int].1@));
        match FileMetadata::from_bytes(files[i].1.as_slice()) {
            Ok((m, _)) => {
                if m.is_expired_at(now) {
                    let p = String::from_str(files[i].0.as_str());
                    out.push(p);
                    assert(out@.map_values(|p: String| p@) =~= prev.push(files@[i as int].0@));
                }
            },
            Err(_) => {},
        }
        i = i + 1;
    }
    assert(sweep_view(files@).take(i as int) =~= sweep_view(files@));
    out
}

/// A file whose metadata reads and whose timestamp plus TTL is at most `now`
/// is among those that a sweep at `now` deletes.
pub proof fn lemma_sweep_deletes_expired(files: SweepView, now: u64, i: int)
    requires
        0 <= i < files.len(),
        metadata_of(files[i].1) matches Some((m, _)) && m.0 + m.1 <= now,
    ensures
        sweep_victims(files, now).contains(files[i].0),
    decreases files.len(),
{
    let rest = files.drop_last();
    if i == files.len() - 1 {
        let v = sweep_victims(files, now);
        assert(v == sweep_victims(rest, now).push(files.last().0));
        assert(v[v.len() - 1] == files[i].0);
    } else {
        assert(rest[i] == files[i]);
        lemma_sweep_deletes_expired(rest, now, i);
        let r = sweep_victims(rest, now);
        let k = choose|k: int| 0 <= k < r.len() && r[k] == files[i].0;
        let v = sweep_victims(files, now);
        assert(v[k] == files[i].0);
    }
}

} // verus!
