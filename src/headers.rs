//! Header maps: lowercase names to values, kept in insertion order so that
//! serialisation is deterministic, and the parsing of a header section.
use vstd::prelude::*;

use crate::text::{
    chars_of, crlf, crlf_at, crlf_lines, find_char, find_crlf, first_of, has_no,
    lemma_crlf_lines_cons, lemma_crlf_lines_empty, lemma_crlf_lines_last, lemma_crlf_lines_next,
    lemma_first_of_after, lower_of, lowercase, parse_unsigned, span_is, string_between,
    trim_of, trimmed, unsigned_of,
};

verus! {

/// Failures of the HTTP codec.
#[derive(Debug, Clone, Copy, PartialEq, Eq, Structural)]
pub enum HttpError {
    /// Bad framing, unknown method, bad version, bad line shape or bad URI.
    MalformedMessage,
    /// Header bytes that are not UTF-8.
    DecodeError,
    /// The underlying stream failed.
    IoError,
}

/// A header name and its value, as character sequences.
pub type Field = (Seq<char>, Seq<char>);

/// The map that inserting `s` in order into an empty map gives (a later
/// name overwrites an earlier one).
pub open spec fn map_of(s: Seq<Field>) -> Map<Seq<char>, Seq<char>>
    decreases s.len(),
{
    if s.len() == 0 {
        Map::empty()
    } else {
        map_of(s.drop_last()).insert(s.last().0, s.last().1)
    }
}

/// No name occurs twice in `s`.
pub open spec fn names_unique(s: Seq<Field>) -> bool {
    forall|i: int, j: int| 0 <= i < j < s.len() ==> s[i].0 != s[j].0
}

pub open spec fn field_views(s: Seq<(String, String)>) -> Seq<Field> {
    s.map_values(|e: (String, String)| (e.0@, e.1@))
}

/// With unique names, `map_of(s)` holds exactly the pairs of `s`.
pub proof fn lemma_map_of_unique(s: Seq<Field>)
    requires
        names_unique(s),
    ensures
        forall|i: int|
            0 <= i < s.len() ==> #[trigger] map_of(s).contains_key(s[i].0) && map_of(s)[s[i].0]
                == s[i].1,
        forall|k: Seq<char>|
            #[trigger] map_of(s).contains_key(k) ==> exists|i: int| 0 <= i < s.len() && s[i].0 == k,
    decreases s.len(),
{
    if s.len() > 0 {
        let p = s.drop_last();
        assert(map_of(s) == map_of(p).insert(s.last().0, s.last().1));
        assert(names_unique(p));
        lemma_map_of_unique(p);
        assert forall|k: Seq<char>| #[trigger] map_of(s).contains_key(k) implies exists|i: int|
            0 <= i < s.len() && s[i].0 == k by {
            if k != s.last().0 {
                assert(map_of(p).contains_key(k));
                let i = choose|i: int| 0 <= i < p.len() && p[i].0 == k;
                assert(s[i].0 == k);
            } else {
                assert(s[s.len() - 1].0 == k);
            }
        }
        assert forall|i: int| 0 <= i < s.len() implies #[trigger] map_of(s).contains_key(s[i].0)
            && map_of(s)[s[i].0] == s[i].1 by {
            if i < s.len() - 1 {
                assert(p[i] == s[i]);
                assert(s[i].0 != s.last().0);
                assert(map_of(p).contains_key(p[i].0));
            } else {
                assert(s.last() == s[i]);
            }
        }
    }
}

/// Replacing the pair of an existing name is an insertion into the map.
pub proof fn lemma_map_of_update(s: Seq<Field>, i: int, v: Seq<char>)
    requires
        names_unique(s),
        0 <= i < s.len(),
    ensures
        names_unique(s.update(i, (s[i].0, v))),
        map_of(s.update(i, (s[i].0, v))) == map_of(s).insert(s[i].0, v),
{
    let t = s.update(i, (s[i].0, v));
    assert(names_unique(t)) by {
        assert forall|a: int, b: int| 0 <= a < b < t.len() implies t[a].0 != t[b].0 by {
            assert(t[a].0 == s[a].0 && t[b].0 == s[b].0);
        }
    }
    lemma_map_of_unique(s);
    lemma_map_of_unique(t);
    assert forall|k: Seq<char>| #[trigger] map_of(t).contains_key(k) <==> map_of(s).insert(
        s[i].0,
        v,
    ).contains_key(k) by {
        if map_of(t).contains_key(k) {
            let j = choose|j: int| 0 <= j < t.len() && t[j].0 == k;
            assert(s[j].0 == k);
            assert(map_of(s).contains_key(s[j].0));
        }
        if map_of(s).contains_key(k) {
            let j = choose|j: int| 0 <= j < s.len() && s[j].0 == k;
            assert(t[j].0 == k);
            assert(map_of(t).contains_key(t[j].0));
        }
        if k == s[i].0 {
            assert(map_of(t).contains_key(t[i].0));
        }
    }
    assert forall|k: Seq<char>| #[trigger] map_of(t).contains_key(k) implies map_of(t)[k]
        == map_of(s).insert(s[i].0, v)[k] by {
        let j = choose|j: int| 0 <= j < t.len() && t[j].0 == k;
        assert(map_of(t).contains_key(t[j].0));
        assert(map_of(s).contains_key(s[j].0));
    }
    assert(map_of(t) =~= map_of(s).insert(s[i].0, v));
}

/// Removing the pair of a name removes that name from the map.
pub proof fn lemma_map_of_remove(s: Seq<Field>, i: int)
    requires
        names_unique(s),
        0 <= i < s.len(),
    ensures
        names_unique(s.remove(i)),
        map_of(s.remove(i)) == map_of(s).remove(s[i].0),
{
    let t = s.remove(i);
    assert(names_unique(t)) by {
        assert forall|a: int, b: int| 0 <= a < b < t.len() implies t[a].0 != t[b].0 by {
            let a2 = if a < i {
                a
            } else {
                a + 1
            };
            let b2 = if b < i {
                b
            } else {
                b + 1
            };
            assert(t[a] == s[a2] && t[b] == s[b2]);
        }
    }
    lemma_map_of_unique(s);
    lemma_map_of_unique(t);
    assert forall|k: Seq<char>| #[trigger] map_of(t).contains_key(k) <==> map_of(s).remove(
        s[i].0,
    ).contains_key(k) by {
        if map_of(t).contains_key(k) {
            let j = choose|j: int| 0 <= j < t.len() && t[j].0 == k;
            let j2 = if j < i {
                j
            } else {
                j + 1
            };
            assert(t[j] == s[j2]);
            assert(map_of(s).contains_key(s[j2].0));
        }
        if map_of(s).contains_key(k) && k != s[i].0 {
            let j = choose|j: int| 0 <= j < s.len() && s[j].0 == k;
            let j2 = if j < i {
                j
            } else {
                j - 1
            };
            assert(t[j2] == s[j]);
            assert(map_of(t).contains_key(t[j2].0));
        }
    }
    assert forall|k: Seq<char>| #[trigger] map_of(t).contains_key(k) implies map_of(t)[k]
        == map_of(s)[k] by {
        let j = choose|j: int| 0 <= j < t.len() && t[j].0 == k;
        let j2 = if j < i {
            j
        } else {
            j + 1
        };
        assert(t[j] == s[j2]);
        assert(map_of(t).contains_key(t[j].0));
        assert(map_of(s).contains_key(s[j2].0));
    }
    assert(map_of(t) =~= map_of(s).remove(s[i].0));
}

/// A header map. Names are unique; pairs keep the order in which their
/// names were first inserted.
#[derive(Debug)]
pub struct Headers {
    fields: Vec<(String, String)>,
}

impl View for Headers {
    type V = Map<Seq<char>, Seq<char>>;

    open spec fn view(&self) -> Map<Seq<char>, Seq<char>> {
        map_of(self.entries())
    }
}

impl Headers {
    /// The pairs, in the order in which they are written out.
    pub closed spec fn entries(&self) -> Seq<Field> {
        field_views(self.fields@)
    }

    #[verifier::type_invariant]
    spec fn names_are_unique(&self) -> bool {
        names_unique(self.entries())
    }

    /// An empty map.
    pub fn new() -> (r: Headers)
        ensures
            r@ == Map::<Seq<char>, Seq<char>>::empty(),
            r.entries() == Seq::<Field>::empty(),
    {
        let r = Headers { fields: Vec::new() };
        assert(r.entries() =~= Seq::<Field>::empty());
        r
    }

    /// The number of names.
    pub fn len(&self) -> (r: usize)
        ensures
            r == self.entries().len(),
    {
        self.fields.len()
    }

    /// The name and value at position `i`.
    pub fn field_at(&self, i: usize) -> (r: (&String, &String))
        requires
            i < self.entries().len(),
        ensures
            (r.0@, r.1@) == self.entries()[i as int],
    {
        (&self.fields[i].0, &self.fields[i].1)
    }

    fn position(&self, k: &String) -> (r: Option<usize>)
        ensures
            r matches Some(i) ==> i < self.entries().len() && self.entries()[i as int].0 == k@,
            r is None ==> forall|i: int|
                0 <= i < self.entries().len() ==> self.entries()[i].0 != k@,
    {
        let mut i: usize = 0;
        while i < self.fields.len()
            invariant
                i <= self.fields@.len(),
                forall|j: int| 0 <= j < i ==> self.entries()[j].0 != k@,
            decreases self.fields@.len() - i,
        {
            if self.fields[i].0 == *k {
                return Some(i);
            }
            i = i + 1;
        }
        None
    }

    /// The value of name `k`.
    pub fn get(&self, k: &str) -> (r: Option<&String>)
        ensures
            r is Some <==> self@.contains_key(k@),
            r matches Some(v) ==> v@ == self@[k@],
    {
        proof {
            use_type_invariant(self);
            lemma_map_of_unique(self.entries());
        }
        let key = String::from_str(k);
        match self.position(&key) {
            Some(i) => {
                assert(self.entries()[i as int].0 == k@);
                assert(map_of(self.entries()).contains_key(self.entries()[i as int].0));
                Some(&self.fields[i].1)
            },
            None => {
                assert(!self@.contains_key(k@)) by {
                    if self@.contains_key(k@) {
                        let j = choose|j: int|
                            0 <= j < self.entries().len() && self.entries()[j].0 == k@;
                    }
                }
                None
            },
        }
    }

    /// Sets name `k` to `v`, replacing any earlier value.
    pub fn insert(&mut self, k: String, v: String)
        ensures
            final(self)@ == old(self)@.insert(k@, v@),
            forall|i: int|
                0 <= i < old(self).entries().len() && old(self).entries()[i].0 != k@
                    ==> final(self).entries()[i] == old(self).entries()[i],
            old(self)@.contains_key(k@) ==> final(self).entries().len() == old(self).entries().len(),
            !old(self)@.contains_key(k@) ==> final(self).entries() == old(self).entries().push(
                (k@, v@),
            ),
    {
        proof {
            use_type_invariant(&*self);
            lemma_map_of_unique(self.entries());
        }
        let ghost before = self.entries();
        let mut fields: Vec<(String, String)> = Vec::new();
        std::mem::swap(&mut fields, &mut self.fields);
        assert(field_views(fields@) == before);
        match self.position_in(&fields, &k) {
            Some(i) => {
                proof {
                    lemma_map_of_update(before, i as int, v@);
                }
                fields.set(i, (k, v));
                assert(field_views(fields@) =~= before.update(i as int, (before[i as int].0, v@)));
            },
            None => {
                assert(!map_of(before).contains_key(k@)) by {
                    if map_of(before).contains_key(k@) {
                        let j = choose|j: int| 0 <= j < before.len() && before[j].0 == k@;
                    }
                }
                fields.push((k, v));
                assert(field_views(fields@) =~= before.push((k@, v@)));
                assert(before.push((k@, v@)).drop_last() =~= before);
                assert(names_unique(before.push((k@, v@))));
            },
        }
        self.fields = fields;
    }

    fn position_in(&self, fields: &Vec<(String, String)>, k: &String) -> (r: Option<usize>)
        ensures
            r matches Some(i) ==> i < fields@.len() && fields@[i as int].0@ == k@,
            r is None ==> forall|i: int| 0 <= i < fields@.len() ==> fields@[i].0@ != k@,
    {
        let mut i: usize = 0;
        while i < fields.len()
            invariant
                i <= fields@.len(),
                forall|j: int| 0 <= j < i ==> fields@[j].0@ != k@,
            decreases fields@.len() - i,
        {
            if fields[i].0 == *k {
                return Some(i);
            }
            i = i + 1;
        }
        None
    }

    /// Removes name `k`, where present.
    pub fn remove(&mut self, k: &str)
        ensures
            final(self)@ == old(self)@.remove(k@),
    {
        proof {
            use_type_invariant(&*self);
            lemma_map_of_unique(self.entries());
        }
        let ghost before = self.entries();
        let key = String::from_str(k);
        let mut fields: Vec<(String, String)> = Vec::new();
        std::mem::swap(&mut fields, &mut self.fields);
        assert(field_views(fields@) == before);
        match self.position_in(&fields, &key) {
            Some(i) => {
                proof {
                    lemma_map_of_remove(before, i as int);
                }
                fields.remove(i);
                assert(field_views(fields@) =~= before.remove(i as int));
            },
            None => {
                assert(!map_of(before).contains_key(k@)) by {
                    if map_of(before).contains_key(k@) {
                        let j = choose|j: int| 0 <= j < before.len() && before[j].0 == k@;
                    }
                }
                assert(map_of(before) =~= map_of(before).remove(k@));
            },
        }
        self.fields = fields;
    }
}

/// The first `:` of `line`, where it has one.
pub open spec fn colon_of(line: Seq<char>) -> Option<int> {
    first_of(line, ':')
}

/// The name and value of a header line: the name before the first `:`,
/// lowercased; the value after it, trimmed.
pub open spec fn field_of(line: Seq<char>) -> Field {
    let i = colon_of(line)->0;
    (lower_of(line.take(i)), trim_of(line.skip(i + 1)))
}

/// How many of `lines` are empty.
pub open spec fn empty_lines(lines: Seq<Seq<char>>) -> nat
    decreases lines.len(),
{
    if lines.len() == 0 {
        0
    } else {
        empty_lines(lines.drop_last()) + if lines.last().len() == 0 {
            1nat
        } else {
            0nat
        }
    }
}

/// The fields of the non-empty lines, in order.
pub open spec fn fields_of_lines(lines: Seq<Seq<char>>) -> Seq<Field>
    decreases lines.len(),
{
    if lines.len() == 0 {
        Seq::empty()
    } else if lines.last().len() == 0 {
        fields_of_lines(lines.drop_last())
    } else {
        fields_of_lines(lines.drop_last()).push(field_of(lines.last()))
    }
}

/// Every non-empty line holds a `:`.
pub open spec fn lines_have_colons(lines: Seq<Seq<char>>) -> bool {
    forall|i: int| 0 <= i < lines.len() && lines[i].len() > 0 ==> colon_of(#[trigger] lines[i]) is Some
}

/// The header map that the text after a start line denotes: lines cut at
/// CRLF, exactly two of them empty (the end of the last field and the blank
/// line), each other one a field.
pub open spec fn header_section(text: Seq<char>) -> Option<Map<Seq<char>, Seq<char>>> {
    let lines = crlf_lines(text);
    if lines_have_colons(lines) && empty_lines(lines) == 2 {
        Some(map_of(fields_of_lines(lines)))
    } else {
        None
    }
}

/// `HTTP/1.1`.
pub open spec fn http_version() -> Seq<char> {
    seq!['H', 'T', 'T', 'P', '/', '1', '.', '1']
}

/// The one protocol version spoken.
pub fn version_text() -> (r: String)
    ensures
        r@ == http_version(),
{
    proof {
        reveal_strlit("HTTP/1.1");
    }
    let r = String::from_str("HTTP/1.1");
    assert(r@ =~= http_version());
    r
}

/// Accepts exactly the version `HTTP/1.1`.
pub fn parse_version(input: &str) -> (r: Result<String, HttpError>)
    ensures
        r is Ok <==> input@ == http_version(),
        r matches Ok(v) ==> v@ == http_version(),
        r matches Err(e) ==> e == HttpError::MalformedMessage,
{
    let cs = chars_of(input);
    let v: [char; 8] = ['H', 'T', 'T', 'P', '/', '1', '.', '1'];
    assert(v@ =~= http_version());
    assert(cs@.subrange(0, cs@.len() as int) =~= cs@);
    if span_is(&cs, 0, cs.len(), &v) {
        Ok(version_text())
    } else {
        Err(HttpError::MalformedMessage)
    }
}

/// Reads the header line `cs[from..to]`.
fn parse_header(input: &str, cs: &Vec<char>, from: usize, to: usize) -> (r: Result<(String, String), HttpError>)
    requires
        from <= to <= cs@.len(),
        cs@ == input@,
    ensures
        r is Ok <==> colon_of(cs@.subrange(from as int, to as int)) is Some,
        r matches Ok(p) ==> (p.0@, p.1@) == field_of(cs@.subrange(from as int, to as int)),
        r matches Err(e) ==> e == HttpError::MalformedMessage,
{
    let ghost line = cs@.subrange(from as int, to as int);
    match find_char(cs, from, to, ':') {
        Some(c) => {
            let name = string_between(input, from, c);
            let value = string_between(input, c + 1, to);
            assert(name@ =~= line.take(c - from));
            assert(value@ =~= line.skip(c - from + 1));
            let key = lowercase(name.as_str());
            let val = String::from_str(trimmed(value.as_str()));
            Ok((key, val))
        },
        None => {
            Err(HttpError::MalformedMessage)
        },
    }
}

/// Reads the header fields that follow a start line, up to and including
/// the blank line.
pub fn parse_headers(input: &str) -> (r: Result<Headers, HttpError>)
    ensures
        r is Ok <==> header_section(input@) is Some,
        r matches Ok(h) ==> Some(h@) == header_section(input@),
        r matches Err(e) ==> e == HttpError::MalformedMessage,
{
    let cs = chars_of(input);
    let mut headers = Headers::new();
    let mut empties: usize = 0;
    let mut pos: usize = 0;
    let ghost mut done: Seq<Seq<char>> = Seq::empty();
    assert(cs@.skip(0) =~= cs@);
    loop
        invariant
            pos <= cs@.len(),
            cs@ == input@,
            done + crlf_lines(cs@.skip(pos as int)) == crlf_lines(cs@),
            empties == if empty_lines(done) < 3 {
                empty_lines(done)
            } else {
                3
            },
            lines_have_colons(done),
            headers@ == map_of(fields_of_lines(done)),
        decreases cs@.len() - pos,
    {
        let next = find_crlf(&cs, pos);
        let end: usize = match next {
            Some(i) => i,
            None => cs.len(),
        };
        let ghost line = cs@.subrange(pos as int, end as int);
        proof {
            match next {
                Some(i) => lemma_crlf_lines_next(cs@, pos as int, i as int),
                None => {
                    lemma_crlf_lines_last(cs@, pos as int);
                    assert(cs@.skip(pos as int) =~= line);
                },
            }
        }
        let ghost prev = done;
        proof {
            done = done.push(line);
            assert(done.drop_last() =~= prev);
        }
        if end == pos {
            if empties < 3 {
                empties = empties + 1;
            }
        } else {
            match parse_header(input, &cs, pos, end) {
                Ok((k, v)) => {
                    headers.insert(k, v);
                },
                Err(e) => {
                    assert(!lines_have_colons(crlf_lines(cs@))) by {
                        let all = crlf_lines(cs@);
                        assert(all[prev.len() as int] == line);
                    }
                    return Err(e);
                },
            }
        }
        assert(line.len() == 0 <==> end == pos);
        assert(empty_lines(done) == empty_lines(prev) + if line.len() == 0 {
            1nat
        } else {
            0nat
        });
        assert(fields_of_lines(done) == if line.len() == 0 {
            fields_of_lines(prev)
        } else {
            fields_of_lines(prev).push(field_of(line))
        });
        assert(fields_of_lines(prev).push(field_of(line)).drop_last() =~= fields_of_lines(prev));
        assert(lines_have_colons(done)) by {
            assert forall|i: int| 0 <= i < done.len() && done[i].len() > 0 implies colon_of(
                #[trigger] done[i],
            ) is Some by {
                if i < prev.len() {
                    assert(done[i] == prev[i]);
                }
            }
        }
        match next {
            Some(i) => {
                assert(crlf_at(cs@, i as int));
                let n = cs.len();
                assert(i + 2 <= n);
                pos = i + 2;
                assert(prev + (seq![line] + crlf_lines(cs@.skip(pos as int))) =~= done
                    + crlf_lines(cs@.skip(pos as int)));
            },
            None => {
                assert(done =~= prev + seq![line]);
                assert(done == crlf_lines(cs@));
                if empties == 2 {
                    return Ok(headers);
                } else {
                    return Err(HttpError::MalformedMessage);
                }
            },
        }
    }
}

/// The content types whose responses may be cached.
pub open spec fn cacheable_type_names() -> Seq<Seq<char>> {
    seq![
        "application/octet-stream"@,
        "text/css"@,
        "text/javascript"@,
        "image/apng"@,
        "image/avif"@,
        "image/gif"@,
        "image/jpeg"@,
        "image/png"@,
        "image/svg+xml"@,
        "image/webp"@,
        "image/bmp"@,
        "image/x-icon"@,
        "image/tiff"@,
        "audio/webm"@,
        "audio/mpeg"@,
        "audio/ogg"@,
        "audio/x-wav"@,
        "audio/mp4"@,
        "application/ogg"@,
        "application/pdf"@,
    ]
}

/// The name of the content-type header.
pub open spec fn content_type_name() -> Seq<char> {
    "content-type"@
}

/// The content types whose responses may be cached.
pub fn cacheable_types() -> (r: Vec<&'static str>)
    ensures
        r@.map_values(|t: &str| t@) == cacheable_type_names(),
{
    let r = vec![
        "application/octet-stream",
        "text/css",
        "text/javascript",
        "image/apng",
        "image/avif",
        "image/gif",
        "image/jpeg",
        "image/png",
        "image/svg+xml",
        "image/webp",
        "image/bmp",
        "image/x-icon",
        "image/tiff",
        "audio/webm",
        "audio/mpeg",
        "audio/ogg",
        "audio/x-wav",
        "audio/mp4",
        "application/ogg",
        "application/pdf",
    ];
    assert(r@.map_values(|t: &str| t@) =~= cacheable_type_names());
    r
}

/// Whether the map has a content type, and that type is one of the
/// cacheable ones.
pub fn is_cacheable_content_type(headers: &Headers) -> (r: bool)
    ensures
        r == (headers@.contains_key(content_type_name()) && cacheable_type_names().contains(
            headers@[content_type_name()],
        )),
{
    match headers.get("content-type") {
        Some(ct) => {
            let types = cacheable_types();
            let mut i: usize = 0;
            while i < types.len()
                invariant
                    i <= types@.len(),
                    headers@.contains_key(content_type_name()),
                    headers@[content_type_name()] == ct@,
                    types@.map_values(|t: &str| t@) == cacheable_type_names(),
                    forall|j: int| 0 <= j < i ==> cacheable_type_names()[j] != ct@,
                decreases types@.len() - i,
            {
                let t = String::from_str(types[i]);
                assert(t@ == cacheable_type_names()[i as int]);
                if t == *ct {
                    assert(cacheable_type_names().contains(ct@));
                    assert(headers@.contains_key(content_type_name()));
                    assert(headers@[content_type_name()] == ct@);
                    return true;
                }
                i = i + 1;
            }
            false
        },
        None => false,
    }
}

/// One header written out: name, `:`, value.
pub open spec fn field_line(f: Field) -> Seq<char> {
    f.0 + seq![':'] + f.1
}

/// The header lines of `s`, each ended by CRLF.
pub open spec fn fields_text(s: Seq<Field>) -> Seq<char>
    decreases s.len(),
{
    if s.len() == 0 {
        Seq::empty()
    } else {
        field_line(s[0]) + crlf() + fields_text(s.drop_first())
    }
}

/// Writing one more header line extends the text at its end.
pub proof fn lemma_fields_text_push(s: Seq<Field>, i: int)
    requires
        0 <= i < s.len(),
    ensures
        fields_text(s.take(i + 1)) == fields_text(s.take(i)) + field_line(s[i]) + crlf(),
    decreases i,
{
    if i == 0 {
        assert(s.take(1).drop_first() =~= Seq::<Field>::empty());
        assert(s.take(0) =~= Seq::<Field>::empty());
        assert(fields_text(s.take(1)) == field_line(s[0]) + crlf() + fields_text(Seq::<Field>::empty()));
        assert(field_line(s[0]) + crlf() + Seq::<char>::empty() =~= field_line(s[0]) + crlf());
    } else {
        let t = s.drop_first();
        lemma_fields_text_push(t, i - 1);
        assert(s.take(i + 1).drop_first() =~= t.take(i));
        assert(s.take(i).drop_first() =~= t.take(i - 1));
        assert(t[i - 1] == s[i]);
        assert(fields_text(s.take(i + 1)) == field_line(s[0]) + crlf() + fields_text(t.take(i)));
        assert(fields_text(s.take(i)) == field_line(s[0]) + crlf() + fields_text(t.take(i - 1)));
        assert(field_line(s[0]) + crlf() + (fields_text(t.take(i - 1)) + field_line(s[i]) + crlf())
            =~= field_line(s[0]) + crlf() + fields_text(t.take(i - 1)) + field_line(s[i]) + crlf());
    }
}

impl Headers {
    /// Appends every header as `name:value` and CRLF, in order.
    pub fn write_fields(&self, out: &mut String)
        ensures
            final(out)@ == old(out)@ + fields_text(self.entries()),
    {
        let ghost start = out@;
        let mut i: usize = 0;
        assert(self.entries().take(0) =~= Seq::<Field>::empty());
        assert(out@ =~= start + fields_text(self.entries().take(0)));
        while i < self.fields.len()
            invariant
                i <= self.fields@.len(),
                out@ == start + fields_text(self.entries().take(i as int)),
            decreases self.fields@.len() - i,
        {
            proof {
                lemma_fields_text_push(self.entries(), i as int);
                reveal_strlit(":");
                reveal_strlit("\r\n");
            }
            out.append(self.fields[i].0.as_str());
            out.append(":");
            out.append(self.fields[i].1.as_str());
            out.append("\r\n");
            assert(":"@ =~= seq![':']);
            assert("\r\n"@ =~= crlf());
            i = i + 1;
        }
        assert(self.entries().take(i as int) =~= self.entries());
    }
}

/// A header that reads back as itself: the name holds no `:`, neither part
/// holds CR or LF, the name is lowercase and the value trimmed.
pub open spec fn field_ok(f: Field) -> bool {
    &&& has_no(f.0, ':')
    &&& has_no(f.0, '\r')
    &&& has_no(f.0, '\n')
    &&& has_no(f.1, '\r')
    &&& has_no(f.1, '\n')
    &&& lower_of(f.0) == f.0
    &&& trim_of(f.1) == f.1
}

/// A written header line reads back as the header.
pub proof fn lemma_field_line_reads_back(f: Field)
    requires
        field_ok(f),
    ensures
        field_line(f).len() > 0,
        has_no(field_line(f), '\r'),
        has_no(field_line(f), '\n'),
        colon_of(field_line(f)) == Some(f.0.len() as int),
        field_of(field_line(f)) == f,
{
    lemma_first_of_after(f.0, ':', f.1);
    let l = field_line(f);
    assert(l[f.0.len() as int] == ':');
    assert forall|i: int| 0 <= i < l.len() implies l[i] != '\r' && l[i] != '\n' by {
        if i < f.0.len() {
            assert(l[i] == f.0[i]);
        } else if i > f.0.len() {
            assert(l[i] == f.1[i - f.0.len() - 1]);
        }
    }
}

/// Written header lines, then the blank line, cut at CRLFs: one piece per
/// header, then two empty pieces.
pub proof fn lemma_fields_text_lines(es: Seq<Field>)
    requires
        forall|i: int| 0 <= i < es.len() ==> field_ok(#[trigger] es[i]),
    ensures
        crlf_lines(fields_text(es) + crlf()) == es.map_values(|f: Field| field_line(f)) + seq![
            Seq::<char>::empty(),
            Seq::<char>::empty(),
        ],
    decreases es.len(),
{
    let empty = Seq::<char>::empty();
    if es.len() == 0 {
        assert(fields_text(es) + crlf() =~= empty + crlf() + empty);
        lemma_crlf_lines_cons(empty, empty);
        lemma_crlf_lines_empty();
        assert(es.map_values(|f: Field| field_line(f)) + seq![empty, empty] =~= seq![empty] + seq![
            empty,
        ]);
    } else {
        let rest = es.drop_first();
        assert forall|i: int| 0 <= i < rest.len() implies field_ok(#[trigger] rest[i]) by {
            assert(rest[i] == es[i + 1]);
        }
        lemma_fields_text_lines(rest);
        assert(field_ok(es[0]));
        lemma_field_line_reads_back(es[0]);
        let tail = fields_text(rest) + crlf();
        assert(fields_text(es) + crlf() =~= field_line(es[0]) + crlf() + tail);
        lemma_crlf_lines_cons(field_line(es[0]), tail);
        assert(es.map_values(|f: Field| field_line(f)) =~= seq![field_line(es[0])]
            + rest.map_values(|f: Field| field_line(f)));
        assert(es.map_values(|f: Field| field_line(f)) + seq![empty, empty] =~= seq![field_line(es[0])]
            + (rest.map_values(|f: Field| field_line(f)) + seq![empty, empty]));
    }
}

/// Header lines read back field by field, none of them empty.
pub proof fn lemma_field_lines_read_back(es: Seq<Field>)
    requires
        forall|i: int| 0 <= i < es.len() ==> field_ok(#[trigger] es[i]),
    ensures
        fields_of_lines(es.map_values(|f: Field| field_line(f))) == es,
        empty_lines(es.map_values(|f: Field| field_line(f))) == 0,
        lines_have_colons(es.map_values(|f: Field| field_line(f))),
    decreases es.len(),
{
    let ls = es.map_values(|f: Field| field_line(f));
    if es.len() > 0 {
        let p = es.drop_last();
        assert forall|i: int| 0 <= i < p.len() implies field_ok(#[trigger] p[i]) by {
            assert(p[i] == es[i]);
        }
        lemma_field_lines_read_back(p);
        assert(ls.drop_last() =~= p.map_values(|f: Field| field_line(f)));
        assert(field_ok(es.last()));
        lemma_field_line_reads_back(es.last());
        assert(ls.last() == field_line(es.last()));
        assert(p.push(es.last()) =~= es);
    } else {
        assert(ls =~= Seq::<Seq<char>>::empty());
        assert(es =~= Seq::<Field>::empty());
    }
    assert forall|i: int| 0 <= i < ls.len() && ls[i].len() > 0 implies colon_of(#[trigger] ls[i]) is Some by {
        assert(field_ok(es[i]));
        lemma_field_line_reads_back(es[i]);
    }
}

/// A header section written out reads back as the same map.
pub proof fn lemma_header_section_round_trip(es: Seq<Field>)
    requires
        forall|i: int| 0 <= i < es.len() ==> field_ok(#[trigger] es[i]),
    ensures
        header_section(fields_text(es) + crlf()) == Some(map_of(es)),
{
    let empty = Seq::<char>::empty();
    lemma_fields_text_lines(es);
    lemma_field_lines_read_back(es);
    let ls = es.map_values(|f: Field| field_line(f));
    let all = ls + seq![empty, empty];
    assert(all.drop_last() =~= ls.push(empty));
    assert(all.drop_last().drop_last() =~= ls);
    assert(empty_lines(all) == empty_lines(all.drop_last()) + 1);
    assert(empty_lines(all.drop_last()) == empty_lines(ls) + 1);
    assert(fields_of_lines(all) == fields_of_lines(all.drop_last()));
    assert(fields_of_lines(all.drop_last()) == fields_of_lines(ls));
    assert(lines_have_colons(all)) by {
        assert forall|i: int| 0 <= i < all.len() && all[i].len() > 0 implies colon_of(
            #[trigger] all[i],
        ) is Some by {
            assert(i < ls.len());
            assert(all[i] == ls[i]);
        }
    }
}

/// The name of the content-length header.
pub open spec fn content_length_name() -> Seq<char> {
    "content-length"@
}

/// The body length that a header map announces, where it announces one
/// that reads as a number.
pub open spec fn content_length_of(m: Map<Seq<char>, Seq<char>>) -> Option<nat> {
    if m.contains_key(content_length_name()) {
        unsigned_of(m[content_length_name()])
    } else {
        None
    }
}

/// The announced body length; `None` where there is none, it is no number,
/// or it does not fit in `usize`.
pub fn content_length(headers: &Headers) -> (r: Option<usize>)
    ensures
        r matches Some(n) ==> content_length_of(headers@) == Some(n as nat),
        r is None ==> content_length_of(headers@) is None || content_length_of(headers@)->0
            > usize::MAX,
{
    match headers.get("content-length") {
        Some(v) => parse_unsigned(v.as_str()),
        None => None,
    }
}

} // verus!
