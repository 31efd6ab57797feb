//! Small helpers on byte strings. All text handled by the engine
//! (layout source, field names, callback names) is a `Vec<u8>`.

use vstd::prelude::*;

verus! {

/// True when `pat` occurs in `s` starting exactly at position `i`.
pub open spec fn matches_at(s: Seq<u8>, i: int, pat: Seq<u8>) -> bool {
    0 <= i && i + pat.len() <= s.len() && s.subrange(i, i + pat.len()) == pat
}

/// A match of a concatenation is a match of each part in turn.
pub proof fn lemma_matches_split(s: Seq<u8>, i: int, a: Seq<u8>, b: Seq<u8>)
    requires
        matches_at(s, i, a + b),
    ensures
        matches_at(s, i, a),
        matches_at(s, i + a.len(), b),
{
    let w = a + b;
    let lw = w.len() as int;
    let la = a.len() as int;
    let lb = b.len() as int;
    assert forall|t: int| 0 <= t < la implies s.subrange(i, i + la)[t] == a[t] by {
        assert(s.subrange(i, i + lw)[t] == s[i + t]);
        assert(s.subrange(i, i + la)[t] == s[i + t]);
        assert(s.subrange(i, i + lw)[t] == w[t]);
        assert(w[t] == a[t]);
    }
    assert(s.subrange(i, i + la) =~= a);
    assert forall|t: int| 0 <= t < lb implies s.subrange(i + la, i + la + lb)[t] == b[t] by {
        assert(s.subrange(i, i + lw)[la + t] == s[i + (la + t)]);
        assert(s.subrange(i + la, i + la + lb)[t] == s[i + la + t]);
        assert(s.subrange(i, i + lw)[la + t] == w[la + t]);
        assert(w[la + t] == b[t]);
    }
    assert(s.subrange(i + la, i + la + lb) =~= b);
}

/// A match of a single byte pins the byte at that position.
pub proof fn lemma_matches_byte(s: Seq<u8>, i: int, b: u8)
    requires
        matches_at(s, i, seq![b]),
    ensures
        0 <= i < s.len() && s[i] == b,
{
    assert(s.subrange(i, i + 1)[0] == s[i]);
}

/// Byte-for-byte comparison of `pat` against `s` at position `i`.
pub fn match_at(s: &Vec<u8>, i: usize, pat: &Vec<u8>) -> (r: bool)
    ensures
        r == matches_at(s@, i as int, pat@),
{
    let n: usize = s.len();
    let m: usize = pat.len();
    if i > n || m > n - i {
        return false;
    }
    let mut k: usize = 0;
    while k < m
        invariant
            0 <= k <= m,
            m == pat@.len(),
            n == s@.len(),
            i + m <= n,
            forall|j: int| 0 <= j < k ==> s@[i + j] == pat@[j],
        decreases m - k,
    {
        if s[i + k] != pat[k] {
            assert(s@.subrange(i as int, i + pat@.len())[k as int] != pat@[k as int]);
            return false;
        }
        k += 1;
    }
    assert(s@.subrange(i as int, i + pat@.len()) =~= pat@);
    true
}

/// A fresh copy of the bytes of `v` in positions `[a, b)`.
pub fn sub_bytes(v: &Vec<u8>, a: usize, b: usize) -> (r: Vec<u8>)
    requires
        a <= b <= v@.len(),
    ensures
        r@ == v@.subrange(a as int, b as int),
{
    let mut r: Vec<u8> = Vec::new();
    let mut k: usize = a;
    assert(r@ =~= v@.subrange(a as int, a as int));
    while k < b
        invariant
            a <= k <= b <= v@.len(),
            r@ == v@.subrange(a as int, k as int),
        decreases b - k,
    {
        r.push(v[k]);
        k += 1;
        assert(r@ =~= v@.subrange(a as int, k as int));
    }
    r
}

/// Byte-for-byte equality of two byte strings.
pub fn bytes_eq(a: &Vec<u8>, b: &Vec<u8>) -> (r: bool)
    ensures
        r == (a@ == b@),
{
    if a.len() != b.len() {
        assert(a@ != b@);
        return false;
    }
    let n: usize = a.len();
    let mut k: usize = 0;
    while k < n
        invariant
            0 <= k <= n,
            n == a@.len(),
            a@.len() == b@.len(),
            forall|j: int| 0 <= j < k ==> a@[j] == b@[j],
        decreases n - k,
    {
        if a[k] != b[k] {
            return false;
        }
        k += 1;
    }
    assert(a@ =~= b@);
    true
}

} // verus!
