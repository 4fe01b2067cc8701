//! Character-level helpers shared by the codec and the cache format.
use vstd::prelude::*;
use vstd::std_specs::iter::IteratorSpec;
use vstd::string::StrSliceExecFns;
use vstd::utf8::{char_is_scalar, char_u32_cast, decode_utf8, encode_scalar, encode_utf8, has_width_1_encoding, valid_utf8};

verus! {

/// What `str::to_lowercase` makes of a character sequence.
pub uninterp spec fn lower_of(s: Seq<char>) -> Seq<char>;

/// What `str::trim` makes of a character sequence.
pub uninterp spec fn trim_of(s: Seq<char>) -> Seq<char>;

/// True where `s` holds a carriage return immediately followed by a line feed at `i`.
pub open spec fn crlf_at(s: Seq<char>, i: int) -> bool {
    0 <= i && i + 1 < s.len() && s[i] == '\r' && s[i + 1] == '\n'
}

/// `i` is the first CRLF of `s`.
pub open spec fn is_first_crlf(s: Seq<char>, i: int) -> bool {
    crlf_at(s, i) && forall|j: int| 0 <= j < i ==> !crlf_at(s, j)
}

/// `i` is the first occurrence of `c` in `s`.
pub open spec fn is_first_of(s: Seq<char>, c: char, i: int) -> bool {
    0 <= i < s.len() && s[i] == c && forall|j: int| 0 <= j < i ==> s[j] != c
}

/// The first `c` of `s`, where it has one.
pub open spec fn first_of(s: Seq<char>, c: char) -> Option<int> {
    if exists|i: int| is_first_of(s, c, i) {
        Some(choose|i: int| is_first_of(s, c, i))
    } else {
        None
    }
}

/// The first CRLF of `s`, where it has one.
pub open spec fn first_crlf(s: Seq<char>) -> Option<int> {
    if exists|i: int| is_first_crlf(s, i) {
        Some(choose|i: int| is_first_crlf(s, i))
    } else {
        None
    }
}

/// CR then LF.
pub open spec fn crlf() -> Seq<char> {
    seq!['\r', '\n']
}

/// `s` cut at each CRLF, as `str::split("\r\n")` cuts it.
pub open spec fn crlf_lines(s: Seq<char>) -> Seq<Seq<char>>
    decreases s.len(),
{
    if exists|i: int| is_first_crlf(s, i) {
        let i = choose|i: int| is_first_crlf(s, i);
        seq![s.take(i)] + crlf_lines(s.skip(i + 2))
    } else {
        seq![s]
    }
}

pub open spec fn is_digit(c: char) -> bool {
    '0' <= c <= '9'
}

pub open spec fn digit_value(c: char) -> nat {
    (c as nat - '0' as nat) as nat
}

/// The number that a non-empty run of decimal digits denotes.
pub open spec fn digits_value(s: Seq<char>) -> nat
    decreases s.len(),
{
    if s.len() == 0 {
        0
    } else {
        digits_value(s.drop_last()) * 10 + digit_value(s.last())
    }
}

/// Every character of `s` is a decimal digit.
pub open spec fn all_digits(s: Seq<char>) -> bool {
    forall|i: int| 0 <= i < s.len() ==> is_digit(s[i])
}

/// `s` without one leading `+`, where it has one.
pub open spec fn unsigned_digits(s: Seq<char>) -> Seq<char> {
    if s.len() > 0 && s[0] == '+' {
        s.drop_first()
    } else {
        s
    }
}

/// The unsigned integer that `s` spells, as `usize::from_str` reads it: an
/// optional `+`, then one or more decimal digits.
pub open spec fn unsigned_of(s: Seq<char>) -> Option<nat> {
    let d = unsigned_digits(s);
    if d.len() > 0 && all_digits(d) {
        Some(digits_value(d))
    } else {
        None
    }
}

pub open spec fn digit_char(d: nat) -> char {
    ('0' as nat + d) as char
}

/// The shortest decimal spelling of `n`.
pub open spec fn decimal_text(n: nat) -> Seq<char>
    decreases n,
{
    if n < 10 {
        seq![digit_char(n)]
    } else {
        decimal_text(n / 10).push(digit_char(n % 10))
    }
}

/// Cutting `s` from `pos` on: the first piece ends at the CRLF at `i`.
pub proof fn lemma_crlf_lines_next(s: Seq<char>, pos: int, i: int)
    requires
        0 <= pos <= i,
        crlf_at(s, i),
        forall|j: int| pos <= j < i ==> !crlf_at(s, j),
    ensures
        crlf_lines(s.skip(pos)) == seq![s.subrange(pos, i)] + crlf_lines(s.skip(i + 2)),
{
    let t = s.skip(pos);
    let k = i - pos;
    assert(crlf_at(t, k));
    assert forall|j: int| 0 <= j < k implies !crlf_at(t, j) by {
        assert(!crlf_at(s, pos + j));
    }
    assert(is_first_crlf(t, k));
    let c = choose|c: int| is_first_crlf(t, c);
    assert(c == k) by {
        if c < k {
            assert(!crlf_at(t, c));
        } else if c > k {
            assert(!crlf_at(t, k));
        }
    }
    assert(t.take(k) =~= s.subrange(pos, i));
    assert(t.skip(k + 2) =~= s.skip(i + 2));
}

/// Cutting `s` from `pos` on, where no CRLF follows: one piece.
pub proof fn lemma_crlf_lines_last(s: Seq<char>, pos: int)
    requires
        0 <= pos <= s.len(),
        forall|j: int| pos <= j ==> !crlf_at(s, j),
    ensures
        crlf_lines(s.skip(pos)) == seq![s.skip(pos)],
{
    let t = s.skip(pos);
    assert forall|c: int| !is_first_crlf(t, c) by {
        if crlf_at(t, c) {
            assert(crlf_at(s, pos + c));
        }
    }
}

/// UTF-8 encoding distributes over concatenation.
pub proof fn lemma_encode_utf8_concat(a: Seq<char>, b: Seq<char>)
    ensures
        encode_utf8(a + b) == encode_utf8(a) + encode_utf8(b),
    decreases a.len(),
{
    if a.len() == 0 {
        assert(a + b =~= b);
        assert(encode_utf8(a) =~= Seq::<u8>::empty());
        assert(Seq::<u8>::empty() + encode_utf8(b) =~= encode_utf8(b));
    } else {
        lemma_encode_utf8_concat(a.drop_first(), b);
        assert((a + b).drop_first() =~= a.drop_first() + b);
        assert((a + b)[0] == a[0]);
        assert(encode_scalar(a[0] as u32) + (encode_utf8(a.drop_first()) + encode_utf8(b))
            =~= encode_scalar(a[0] as u32) + encode_utf8(a.drop_first()) + encode_utf8(b));
    }
}

/// The encoding of a non-empty sequence starts with that of its first
/// character, which is never empty.
pub proof fn lemma_encode_first(cs: Seq<char>)
    requires
        cs.len() > 0,
    ensures
        encode_utf8(cs).len() > 0,
{
    assert(encode_utf8(cs) == encode_scalar(cs[0] as u32) + encode_utf8(cs.drop_first()));
}

/// CRLF is two bytes, 13 and 10.
pub proof fn lemma_encode_crlf()
    ensures
        encode_utf8(crlf()) == seq![13u8, 10u8],
{
    let c = crlf();
    let r = c.drop_first();
    assert(r =~= seq!['\n']);
    assert(r.drop_first() =~= Seq::<char>::empty());
    let x = '\r' as u32;
    let y = '\n' as u32;
    assert(x == 13 && y == 10);
    assert((13u32 & 0x7F) as u8 == 13u8 && (10u32 & 0x7F) as u8 == 10u8) by (bit_vector);
    assert(encode_scalar(y) =~= seq![10u8]);
    assert(encode_scalar(x) =~= seq![13u8]);
    assert(encode_utf8(r.drop_first()) =~= Seq::<u8>::empty());
    assert(encode_utf8(r) == encode_scalar(r[0] as u32) + encode_utf8(r.drop_first()));
    assert(encode_utf8(r) =~= seq![10u8]);
    assert(encode_utf8(c) == encode_scalar(c[0] as u32) + encode_utf8(r));
    assert(encode_utf8(c) =~= seq![13u8, 10u8]);
}

/// Every byte of a character's UTF-8 encoding is either the character itself
/// (an ASCII character) or at least 0x80.
pub proof fn lemma_encode_scalar_bytes(c: char)
    ensures
        forall|j: int|
            0 <= j < encode_scalar(c as u32).len() ==> (#[trigger] encode_scalar(c as u32)[j] >= 0x80 || (
            (c as u32) < 0x80 && encode_scalar(c as u32)[j] == c as u32 as u8)),
{
    let v = c as u32;
    char_is_scalar(c);
    if has_width_1_encoding(v) {
        assert((v & 0x7F) as u8 == v as u8) by (bit_vector)
            requires
                v <= 0x7F,
        ;
    } else {
        let b1 = ((v >> 6) & 0x1F) as u8;
        let b2 = ((v >> 12) & 0x0F) as u8;
        let b3 = ((v >> 18) & 0x7) as u8;
        let c1 = (v & 0x3F) as u8;
        let c2 = ((v >> 6) & 0x3F) as u8;
        let c3 = ((v >> 12) & 0x3F) as u8;
        assert((0xC0u8 | b1) >= 0x80 && (0xE0u8 | b2) >= 0x80 && (0xF0u8 | b3) >= 0x80) by (
        bit_vector);
        assert((0x80u8 | c1) >= 0x80 && (0x80u8 | c2) >= 0x80 && (0x80u8 | c3) >= 0x80) by (
        bit_vector);
    }
}

/// An ASCII character that does not occur in `cs` gives a byte that does not
/// occur in its encoding.
pub proof fn lemma_encode_utf8_avoids(cs: Seq<char>, c: char)
    requires
        (c as u32) < 0x80,
        forall|i: int| 0 <= i < cs.len() ==> cs[i] != c,
    ensures
        forall|j: int|
            0 <= j < encode_utf8(cs).len() ==> encode_utf8(cs)[j] != c as u32 as u8,
    decreases cs.len(),
{
    if cs.len() > 0 {
        let rest = cs.drop_first();
        lemma_encode_utf8_avoids(rest, c);
        lemma_encode_scalar_bytes(cs[0]);
        let e = encode_scalar(cs[0] as u32);
        assert(encode_utf8(cs) == e + encode_utf8(rest));
        let x = cs[0] as u32;
        let y = c as u32;
        assert(x < 0x80 && y < 0x80 && x != y ==> x as u8 != y as u8) by (bit_vector);
        assert(cs[0] != c);
        char_u32_cast(cs[0], cs[0] as u32);
        char_u32_cast(c, c as u32);
        assert((cs[0] as u32) != (c as u32));
        assert forall|j: int| 0 <= j < encode_utf8(cs).len() implies encode_utf8(cs)[j]
            != c as u32 as u8 by {
            if j < e.len() {
                assert(encode_utf8(cs)[j] == e[j]);
            } else {
                assert(encode_utf8(cs)[j] == encode_utf8(rest)[j - e.len()]);
            }
        }
    }
}

/// `c` does not occur in `s`.
pub open spec fn has_no(s: Seq<char>, c: char) -> bool {
    forall|i: int| 0 <= i < s.len() ==> s[i] != c
}

/// In `a`, CRLF, `b`, where `a` holds no carriage return, the first CRLF is
/// the one after `a`.
pub proof fn lemma_first_crlf_after(a: Seq<char>, b: Seq<char>)
    requires
        has_no(a, '\r'),
    ensures
        is_first_crlf(a + crlf() + b, a.len() as int),
        first_crlf(a + crlf() + b) == Some(a.len() as int),
        (a + crlf() + b).take(a.len() as int) == a,
        (a + crlf() + b).skip(a.len() as int + 2) == b,
{
    let s = a + crlf() + b;
    let n = a.len() as int;
    assert(s[n] == '\r' && s[n + 1] == '\n');
    assert forall|j: int| 0 <= j < n implies !crlf_at(s, j) by {
        assert(s[j] == a[j]);
    }
    assert(is_first_crlf(s, n));
    let k = choose|k: int| is_first_crlf(s, k);
    assert(k == n) by {
        if k < n {
            assert(!crlf_at(s, k));
        } else if k > n {
            assert(!crlf_at(s, n));
        }
    }
    assert(s.take(n) =~= a);
    assert(s.skip(n + 2) =~= b);
}

/// Cutting `a`, CRLF, `b` at CRLFs, where `a` holds no carriage return: `a`,
/// then the pieces of `b`.
pub proof fn lemma_crlf_lines_cons(a: Seq<char>, b: Seq<char>)
    requires
        has_no(a, '\r'),
    ensures
        crlf_lines(a + crlf() + b) == seq![a] + crlf_lines(b),
{
    lemma_first_crlf_after(a, b);
}

/// The empty text is one empty piece.
pub proof fn lemma_crlf_lines_empty()
    ensures
        crlf_lines(Seq::<char>::empty()) == seq![Seq::<char>::empty()],
{
    assert forall|i: int| !is_first_crlf(Seq::<char>::empty(), i) by {}
}

/// In `a`, `c`, `b`, where `a` holds no `c`, the first `c` is the one after `a`.
pub proof fn lemma_first_of_after(a: Seq<char>, c: char, b: Seq<char>)
    requires
        has_no(a, c),
    ensures
        first_of(a + seq![c] + b, c) == Some(a.len() as int),
        (a + seq![c] + b).take(a.len() as int) == a,
        (a + seq![c] + b).skip(a.len() as int + 1) == b,
{
    let s = a + seq![c] + b;
    let n = a.len() as int;
    assert(s[n] == c);
    assert forall|j: int| 0 <= j < n implies s[j] != c by {
        assert(s[j] == a[j]);
    }
    assert(is_first_of(s, c, n));
    let k = choose|k: int| is_first_of(s, c, k);
    assert(k == n) by {
        if k < n {
            assert(s[k] != c);
        } else if k > n {
            assert(s[n] != c);
        }
    }
    assert(s.take(n) =~= a);
    assert(s.skip(n + 1) =~= b);
}

/// The characters of `s`, in order.
pub fn chars_of(s: &str) -> (r: Vec<char>)
    ensures
        r@ == s@,
{
    let mut out: Vec<char> = Vec::new();
    for c in it: s.chars()
        invariant
            out@ == it.seq().take(it.index() as int),
    {
        out.push(c);
    }
    out
}

/// Relies on `str::to_lowercase`, whose result depends on the characters alone.
#[verifier::external_body]
pub fn lowercase(s: &str) -> (r: String)
    ensures
        r@ == lower_of(s@),
{
    s.to_lowercase()
}

/// Relies on `str::trim`, whose result depends on the characters alone.
#[verifier::external_body]
pub fn trimmed(s: &str) -> (r: &str)
    ensures
        r@ == trim_of(s@),
{
    s.trim()
}

/// Relies on `std::str::from_utf8`: it accepts exactly the well-formed UTF-8
/// byte sequences, and the string then holds the characters they encode.
#[verifier::external_body]
pub fn utf8_str(b: &[u8]) -> (r: Option<&str>)
    ensures
        r is Some <==> valid_utf8(b@),
        r matches Some(s) ==> s@ == decode_utf8(b@),
{
    std::str::from_utf8(b).ok()
}

/// The characters `s[from..to]` as a string.
pub fn string_between(s: &str, from: usize, to: usize) -> (r: String)
    requires
        from <= to <= s@.len(),
    ensures
        r@ == s@.subrange(from as int, to as int),
{
    String::from_str(s.substring_char(from, to))
}

/// A copy of `b[from..to]`.
pub fn copy_bytes(b: &[u8], from: usize, to: usize) -> (r: Vec<u8>)
    requires
        from <= to <= b@.len(),
    ensures
        r@ == b@.subrange(from as int, to as int),
{
    let mut out: Vec<u8> = Vec::new();
    let mut i: usize = from;
    while i < to
        invariant
            from <= i <= to <= b@.len(),
            out@ == b@.subrange(from as int, i as int),
        decreases to - i,
    {
        out.push(b[i]);
        i = i + 1;
        assert(out@ =~= b@.subrange(from as int, i as int));
    }
    out
}

/// Whether `cs[from..to]` spells exactly `lit`.
pub fn span_is(cs: &Vec<char>, from: usize, to: usize, lit: &[char]) -> (r: bool)
    requires
        from <= to <= cs@.len(),
    ensures
        r == (cs@.subrange(from as int, to as int) == lit@),
{
    if to - from != lit.len() {
        return false;
    }
    let mut i: usize = 0;
    while i < lit.len()
        invariant
            from <= to <= cs@.len(),
            to - from == lit@.len(),
            i <= lit@.len(),
            forall|j: int| 0 <= j < i ==> cs@[from + j] == lit@[j],
        decreases lit@.len() - i,
    {
        if cs[from + i] != lit[i] {
            assert(cs@.subrange(from as int, to as int)[i as int] != lit@[i as int]);
            return false;
        }
        i = i + 1;
    }
    assert(cs@.subrange(from as int, to as int) =~= lit@);
    true
}

/// The first CRLF of `cs` at or after `from`.
pub fn find_crlf(cs: &Vec<char>, from: usize) -> (r: Option<usize>)
    requires
        from <= cs@.len(),
    ensures
        r matches Some(i) ==> from <= i && crlf_at(cs@, i as int) && forall|j: int|
            from <= j < i ==> !crlf_at(cs@, j),
        r is None ==> forall|j: int| from <= j ==> !crlf_at(cs@, j),
{
    let mut i: usize = from;
    while cs.len() - i > 1
        invariant
            from <= i <= cs@.len(),
            forall|j: int| from <= j < i ==> !crlf_at(cs@, j),
        decreases cs@.len() - i,
    {
        if cs[i] == '\r' && cs[i + 1] == '\n' {
            return Some(i);
        }
        i = i + 1;
    }
    None
}

/// The first `c` of `cs[from..to]`.
pub fn find_char(cs: &Vec<char>, from: usize, to: usize, c: char) -> (r: Option<usize>)
    requires
        from <= to <= cs@.len(),
    ensures
        r matches Some(i) ==> is_first_of(cs@.subrange(from as int, to as int), c, i - from)
            && first_of(cs@.subrange(from as int, to as int), c) == Some(i - from),
        r is None ==> forall|j: int| from <= j < to ==> cs@[j] != c,
        r is None ==> first_of(cs@.subrange(from as int, to as int), c) is None,
{
    let ghost sub = cs@.subrange(from as int, to as int);
    let mut i: usize = from;
    while i < to
        invariant
            from <= i <= to <= cs@.len(),
            sub == cs@.subrange(from as int, to as int),
            forall|j: int| from <= j < i ==> cs@[j] != c,
        decreases to - i,
    {
        if cs[i] == c {
            assert(is_first_of(sub, c, i - from));
            proof {
                let k = choose|k: int| is_first_of(sub, c, k);
                if k < i - from {
                    assert(sub[k] == cs@[from + k]);
                } else if k > i - from {
                    assert(sub[i - from] != c);
                }
            }
            return Some(i);
        }
        i = i + 1;
    }
    assert forall|k: int| !is_first_of(sub, c, k) by {
        if 0 <= k < sub.len() {
            assert(sub[k] == cs@[from + k]);
        }
    }
    None
}

/// Reads an unsigned decimal as `usize::from_str` does; `None` where the text
/// is no such number or the number does not fit.
pub fn parse_unsigned(s: &str) -> (r: Option<usize>)
    ensures
        r matches Some(n) ==> unsigned_of(s@) == Some(n as nat),
        r is None ==> unsigned_of(s@) is None || unsigned_of(s@)->0 > usize::MAX,
{
    let cs = chars_of(s);
    let start: usize = if cs.len() > 0 && cs[0] == '+' {
        1
    } else {
        0
    };
    let ghost d = cs@.skip(start as int);
    assert(d == unsigned_digits(s@));
    if start >= cs.len() {
        return None;
    }
    let mut acc: usize = 0;
    let mut i: usize = start;
    let mut overflow = false;
    while i < cs.len()
        invariant
            start <= i <= cs@.len(),
            cs@ == s@,
            d == cs@.skip(start as int),
            d == unsigned_digits(s@),
            forall|j: int| start <= j < i ==> is_digit(cs@[j]),
            !overflow ==> acc as nat == digits_value(cs@.subrange(start as int, i as int)),
            overflow ==> digits_value(cs@.subrange(start as int, i as int)) > usize::MAX,
        decreases cs@.len() - i,
    {
        let c = cs[i];
        if !('0' <= c && c <= '9') {
            assert(!is_digit(d[i - start]));
            assert(!all_digits(d));
            return None;
        }
        let dv = (c as u32 - '0' as u32) as usize;
        let ghost prev = cs@.subrange(start as int, i as int);
        let ghost next = cs@.subrange(start as int, i + 1);
        assert(next.drop_last() == prev);
        assert(digits_value(next) == digits_value(prev) * 10 + dv);
        if !overflow {
            if acc > (usize::MAX - dv) / 10 {
                overflow = true;
                assert(digits_value(next) > usize::MAX) by (nonlinear_arith)
                    requires
                        acc > (usize::MAX - dv) / 10,
                        digits_value(next) == acc * 10 + dv,
                        dv <= 9,
                ;
            } else {
                assert(acc * 10 + dv <= usize::MAX) by (nonlinear_arith)
                    requires
                        acc <= (usize::MAX - dv) / 10,
                        dv <= 9,
                ;
                acc = acc * 10 + dv;
            }
        } else {
            assert(digits_value(next) >= digits_value(prev)) by (nonlinear_arith)
                requires
                    digits_value(next) == digits_value(prev) * 10 + dv,
            ;
        }
        i = i + 1;
    }
    assert(cs@.subrange(start as int, cs@.len() as int) == d);
    if overflow {
        None
    } else {
        Some(acc)
    }
}

/// The digit `d` as a one-character string.
fn digit_str(d: u64) -> (r: &'static str)
    requires
        d < 10,
    ensures
        r@ == seq![digit_char(d as nat)],
{
    let r = match d {
        0 => {
            proof {
                reveal_strlit("0");
            }
            "0"
        },
        1 => {
            proof {
                reveal_strlit("1");
            }
            "1"
        },
        2 => {
            proof {
                reveal_strlit("2");
            }
            "2"
        },
        3 => {
            proof {
                reveal_strlit("3");
            }
            "3"
        },
        4 => {
            proof {
                reveal_strlit("4");
            }
            "4"
        },
        5 => {
            proof {
                reveal_strlit("5");
            }
            "5"
        },
        6 => {
            proof {
                reveal_strlit("6");
            }
            "6"
        },
        7 => {
            proof {
                reveal_strlit("7");
            }
            "7"
        },
        8 => {
            proof {
                reveal_strlit("8");
            }
            "8"
        },
        _ => {
            proof {
                reveal_strlit("9");
            }
            "9"
        },
    };
    assert(r@ =~= seq![digit_char(d as nat)]);
    r
}

/// Appends the decimal spelling of `n` to `out`.
pub fn push_decimal(n: u64, out: &mut String)
    ensures
        final(out)@ == old(out)@ + decimal_text(n as nat),
    decreases n,
{
    if n >= 10 {
        push_decimal(n / 10, out);
    }
    out.append(digit_str(n % 10));
    assert(decimal_text(n as nat) == if n < 10 {
        seq![digit_char(n as nat)]
    } else {
        decimal_text((n / 10) as nat).push(digit_char((n % 10) as nat))
    });
    assert(final(out)@ =~= old(out)@ + decimal_text(n as nat));
}

/// The decimal spelling of `n`, as `u64::to_string` writes it.
pub fn decimal_string(n: u64) -> (r: String)
    ensures
        r@ == decimal_text(n as nat),
{
    let mut out = String::new();
    push_decimal(n, &mut out);
    assert(out@ =~= decimal_text(n as nat));
    out
}

} // verus!
