//! Finding the end of a message head in a byte stream: the head ends at the
//! second line feed in a row, carriage returns in between not counting.
use vstd::prelude::*;

verus! {

/// The scanner's count after one more byte: a line feed adds one, a carriage
/// return leaves it, any other byte resets it.
pub open spec fn next_count(c: nat, b: u8) -> nat {
    if b == 13 {
        c
    } else if b == 10 {
        c + 1
    } else {
        0
    }
}

/// The scanner's count after the bytes `s`.
pub open spec fn crlf_count(s: Seq<u8>) -> nat
    decreases s.len(),
{
    if s.len() == 0 {
        0
    } else {
        next_count(crlf_count(s.drop_last()), s.last())
    }
}

/// The first `n` bytes of `s` are its head: the count reaches two there and
/// not before.
pub open spec fn is_head_end(s: Seq<u8>, n: int) -> bool {
    0 < n <= s.len() && crlf_count(s.take(n)) >= 2 && forall|k: int|
        0 <= k < n ==> crlf_count(#[trigger] s.take(k)) < 2
}

/// The length of the head of `s`, where `s` holds a whole head.
pub open spec fn head_end(s: Seq<u8>) -> Option<int> {
    if exists|n: int| is_head_end(s, n) {
        Some(choose|n: int| is_head_end(s, n))
    } else {
        None
    }
}

/// At most one length is the head's.
pub proof fn lemma_head_end_unique(s: Seq<u8>, n: int, m: int)
    requires
        is_head_end(s, n),
        is_head_end(s, m),
    ensures
        n == m,
{
    if n < m {
        assert(crlf_count(s.take(n)) < 2);
    } else if m < n {
        assert(crlf_count(s.take(m)) < 2);
    }
}

/// One step of the head scanner; the head is complete when this returns 2.
pub fn step_crlf_count(count: u8, byte: u8) -> (r: u8)
    requires
        count < 2,
    ensures
        r == next_count(count as nat, byte),
{
    if byte == 13 {
        count
    } else if byte == 10 {
        count + 1
    } else {
        0
    }
}

/// The length of the head at the start of `buf`.
pub fn find_head_end(buf: &[u8]) -> (r: Option<usize>)
    ensures
        r matches Some(n) ==> head_end(buf@) == Some(n as int),
        r is None ==> head_end(buf@) is None,
{
    let mut count: u8 = 0;
    let mut i: usize = 0;
    assert(buf@.take(0) =~= Seq::<u8>::empty());
    while i < buf.len()
        invariant
            i <= buf@.len(),
            count as nat == crlf_count(buf@.take(i as int)),
            count < 2,
            forall|k: int| 0 <= k <= i ==> crlf_count(#[trigger] buf@.take(k)) < 2,
        decreases buf@.len() - i,
    {
        let ghost prev = buf@.take(i as int);
        count = step_crlf_count(count, buf[i]);
        assert(buf@.take(i + 1).drop_last() =~= prev);
        i = i + 1;
        if count >= 2 {
            assert(is_head_end(buf@, i as int));
            proof {
                let n = choose|n: int| is_head_end(buf@, n);
                lemma_head_end_unique(buf@, n, i as int);
            }
            return Some(i);
        }
    }
    assert forall|n: int| !is_head_end(buf@, n) by {
        if 0 < n <= buf@.len() {
            assert(crlf_count(buf@.take(n)) < 2);
        }
    }
    None
}

/// No prefix of `s` brings the scanner to two.
pub open spec fn scan_below_two(s: Seq<u8>) -> bool {
    forall|k: int| 0 <= k <= s.len() ==> crlf_count(#[trigger] s.take(k)) < 2
}

/// A non-empty run of bytes that holds no CR and no LF.
pub open spec fn plain_bytes(x: Seq<u8>) -> bool {
    x.len() > 0 && forall|i: int| 0 <= i < x.len() ==> x[i] != 10 && x[i] != 13
}

/// A line of plain bytes and its CRLF, after bytes that never brought the
/// scanner to two, do not either, and leave it at one.
pub proof fn lemma_scan_line(p: Seq<u8>, x: Seq<u8>)
    requires
        scan_below_two(p),
        plain_bytes(x),
    ensures
        scan_below_two(p + x + seq![13u8, 10u8]),
        crlf_count(p + x + seq![13u8, 10u8]) == 1,
{
    let s = p + x + seq![13u8, 10u8];
    let a = p.len() as int;
    let b = a + x.len();
    assert forall|k: int| 0 <= k <= s.len() implies crlf_count(#[trigger] s.take(k)) < 2 by {
        if k <= a {
            assert(s.take(k) =~= p.take(k));
        } else if k <= b {
            let t = s.take(k);
            assert(t.last() == x[k - a - 1]);
            assert(x[k - a - 1] != 10 && x[k - a - 1] != 13);
            assert(crlf_count(t) == next_count(crlf_count(t.drop_last()), t.last()));
        } else {
            lemma_count_after_line(p, x);
            if k == b + 1 {
                assert(s.take(k) =~= (p + x).push(13u8));
            } else {
                assert(s.take(k) =~= s);
            }
        }
    }
    lemma_count_after_line(p, x);
    assert(s.take(s.len() as int) =~= s);
}

/// After a line of plain bytes the count is zero; a CR keeps it there and
/// the LF brings it to one.
pub proof fn lemma_count_after_line(p: Seq<u8>, x: Seq<u8>)
    requires
        plain_bytes(x),
    ensures
        crlf_count(p + x) == 0,
        crlf_count((p + x).push(13u8)) == 0,
        crlf_count(p + x + seq![13u8, 10u8]) == 1,
{
    let t = p + x;
    assert(t.last() == x[x.len() - 1]);
    assert(x[x.len() - 1] != 10 && x[x.len() - 1] != 13);
    assert(crlf_count(t) == next_count(crlf_count(t.drop_last()), t.last()));
    let u = t.push(13u8);
    assert(u.drop_last() =~= t);
    assert(crlf_count(u) == next_count(crlf_count(u.drop_last()), u.last()));
    let v = p + x + seq![13u8, 10u8];
    assert(v.drop_last() =~= u);
    assert(crlf_count(v) == next_count(crlf_count(v.drop_last()), v.last()));
}

/// A CRLF after bytes that never brought the scanner to two and left it at
/// one ends a head there.
pub proof fn lemma_scan_end(p: Seq<u8>, rest: Seq<u8>)
    requires
        scan_below_two(p),
        crlf_count(p) == 1,
    ensures
        head_end(p + seq![13u8, 10u8] + rest) == Some(p.len() as int + 2),
{
    let h = p + seq![13u8, 10u8];
    let s = h + rest;
    let n = p.len() as int;
    assert(s.take(n + 2) =~= h);
    assert(h.drop_last() =~= p.push(13u8));
    assert(p.push(13u8).drop_last() =~= p);
    assert(crlf_count(p.push(13u8)) == next_count(crlf_count(p), 13u8));
    assert(crlf_count(h) == next_count(crlf_count(p.push(13u8)), 10u8));
    assert(p.take(n) =~= p);
    assert forall|k: int| 0 <= k < n + 2 implies crlf_count(#[trigger] s.take(k)) < 2 by {
        if k <= n {
            assert(s.take(k) =~= p.take(k));
        } else {
            assert(s.take(k) =~= p.push(13u8));
        }
    }
    assert(is_head_end(s, n + 2));
    let m = choose|m: int| is_head_end(s, m);
    lemma_head_end_unique(s, m, n + 2);
}

} // verus!
