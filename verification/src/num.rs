//! The engine's numeric model: a non-negative fixed-point number with
//! three decimal places, stored as a count of thousandths. Slider values
//! and range bounds are `Fixed`, and the layout text writes them in
//! decimal notation such as `42.5` or `100.0`.

use vstd::prelude::*;
use vstd::arithmetic::div_mod::lemma_fundamental_div_mod;
use vstd::arithmetic::div_mod::lemma_div_denominator;
use crate::bytes::matches_at;

verus! {

/// A non-negative decimal number with at most three fractional digits,
/// stored exactly as a count of thousandths (`42.5` is `42500`).
#[derive(Clone, Copy, Debug, PartialEq, Eq, Structural)]
pub struct Fixed {
    pub thousandths: u64,
}

impl Fixed {
    /// The number of thousandths as a mathematical integer.
    pub open spec fn value(self) -> nat {
        self.thousandths as nat
    }

    /// Builds the value `whole + frac/1000`; `frac` must be below 1000.
    pub fn from_parts(whole: u64, frac: u64) -> (r: Fixed)
        requires
            frac < 1000,
            whole * 1000 + frac <= u64::MAX,
        ensures
            r.value() == whole * 1000 + frac,
    {
        Fixed { thousandths: whole * 1000 + frac }
    }

    /// Renders the value in decimal notation, e.g. `37.0` or `42.5`.
    pub fn to_bytes(&self) -> (r: Vec<u8>)
        ensures
            r@ == spec_fmt_fixed(self.value()),
    {
        fmt_fixed_bytes(self.thousandths)
    }
}

/// ASCII decimal digit test.
pub open spec fn is_digit(b: u8) -> bool {
    48 <= b <= 57
}

/// The ASCII byte for the decimal digit `d`.
pub open spec fn dig(d: int) -> u8 {
    (48 + d) as u8
}

/// Decimal digits of `n`, most significant first, no leading zeros
/// (except for `n == 0`, which is the single digit `0`).
pub open spec fn fmt_nat(n: nat) -> Seq<u8>
    decreases n,
{
    if n < 10 {
        seq![dig(n as int)]
    } else {
        fmt_nat(n / 10).push(dig((n % 10) as int))
    }
}

/// `fmt_nat` yields at least one byte, and only digit bytes.
pub proof fn lemma_fmt_nat_digits(n: nat)
    ensures
        fmt_nat(n).len() >= 1,
        forall|j: int| 0 <= j < fmt_nat(n).len() ==> is_digit(#[trigger] fmt_nat(n)[j]),
    decreases n,
{
    if n >= 10 {
        lemma_fmt_nat_digits(n / 10);
    }
}

/// The numeric value of a digit string, most significant digit first.
pub open spec fn digits_val(ds: Seq<u8>) -> nat
    decreases ds.len(),
{
    if ds.len() == 0 {
        0
    } else {
        (digits_val(ds.drop_last()) * 10 + (ds.last() - 48)) as nat
    }
}

/// Reading back the digits of `n` yields `n`.
pub proof fn lemma_digits_val_fmt(n: nat)
    ensures
        digits_val(fmt_nat(n)) == n,
    decreases n,
{
    if n < 10 {
        assert(fmt_nat(n) =~= seq![dig(n as int)]);
        assert(fmt_nat(n).drop_last() =~= Seq::<u8>::empty());
        assert(fmt_nat(n).last() == dig(n as int));
        assert(dig(n as int) - 48 == n);
        assert(digits_val(seq![dig(n as int)]) == digits_val(Seq::<u8>::empty()) * 10 + (dig(
            n as int,
        ) - 48));
        assert(digits_val(fmt_nat(n)) == n);
    } else {
        lemma_digits_val_fmt(n / 10);
        assert(fmt_nat(n).drop_last() =~= fmt_nat(n / 10));
        assert(fmt_nat(n).last() == dig((n % 10) as int));
        assert(dig((n % 10) as int) - 48 == n % 10);
        lemma_fundamental_div_mod(n as int, 10);
        assert(digits_val(fmt_nat(n)) == (n / 10) * 10 + n % 10);
    }
}

/// A digit string is worth at least as much as any of its prefixes.
pub proof fn lemma_digits_val_prefix(ds: Seq<u8>, j: int)
    requires
        0 <= j <= ds.len(),
        forall|k: int| 0 <= k < ds.len() ==> is_digit(#[trigger] ds[k]),
    ensures
        digits_val(ds) >= digits_val(ds.subrange(0, j)),
    decreases ds.len() - j,
{
    if j == ds.len() {
        assert(ds.subrange(0, j) =~= ds);
    } else {
        lemma_digits_val_prefix(ds, j + 1);
        assert(ds.subrange(0, j + 1).drop_last() =~= ds.subrange(0, j));
        assert(digits_val(ds.subrange(0, j + 1)) == digits_val(ds.subrange(0, j)) * 10 + (ds[j]
            - 48));
    }
}

/// Decimal digits of `n`, as a freshly built byte vector.
pub fn fmt_u64(n: u64) -> (r: Vec<u8>)
    ensures
        r@ == fmt_nat(n as nat),
{
    let mut out: Vec<u8> = Vec::new();
    let mut m: u64 = n;
    assert(fmt_nat(n as nat) =~= fmt_nat(n as nat) + out@);
    while m >= 10
        invariant
            fmt_nat(n as nat) =~= fmt_nat(m as nat) + out@,
        decreases m,
    {
        let d: u8 = (m % 10) as u8 + 48;
        out.insert(0, d);
        m = m / 10;
        assert(fmt_nat(n as nat) =~= fmt_nat(m as nat) + out@);
    }
    let d: u8 = (m % 10) as u8 + 48;
    out.insert(0, d);
    assert(out@ =~= fmt_nat(n as nat));
    out
}

/// Fractional digits for `f` thousandths (`0 <= f < 1000`): one to three
/// digits with trailing zeros trimmed, at least one digit kept.
pub open spec fn frac_digits(f: int) -> Seq<u8> {
    let d1 = f / 100;
    let d2 = (f / 10) % 10;
    let d3 = f % 10;
    if d3 != 0 {
        seq![dig(d1), dig(d2), dig(d3)]
    } else if d2 != 0 {
        seq![dig(d1), dig(d2)]
    } else {
        seq![dig(d1)]
    }
}

/// Decimal notation for `v` thousandths: whole part, a dot, and the
/// trimmed fractional digits (`37000` renders as `37.0`).
pub open spec fn spec_fmt_fixed(v: nat) -> Seq<u8> {
    fmt_nat(v / 1000) + seq![46u8] + frac_digits((v % 1000) as int)
}

/// Renders `v` thousandths in decimal notation.
pub fn fmt_fixed_bytes(v: u64) -> (r: Vec<u8>)
    ensures
        r@ == spec_fmt_fixed(v as nat),
{
    let q: u64 = v / 1000;
    let f: u64 = v % 1000;
    let d1: u8 = (f / 100) as u8 + 48;
    let d2: u8 = ((f / 10) % 10) as u8 + 48;
    let d3: u8 = (f % 10) as u8 + 48;
    let mut out = fmt_u64(q);
    out.push(46);
    out.push(d1);
    if d3 != 48 {
        out.push(d2);
        out.push(d3);
        assert(out@ =~= spec_fmt_fixed(v as nat));
    } else if d2 != 48 {
        out.push(d2);
        assert(out@ =~= spec_fmt_fixed(v as nat));
    } else {
        assert(out@ =~= spec_fmt_fixed(v as nat));
    }
    out
}

/// End of the run of digit bytes that starts at `i`.
pub open spec fn digits_end(s: Seq<u8>, i: int) -> int
    decreases s.len() - i,
{
    if 0 <= i < s.len() && is_digit(s[i]) {
        digits_end(s, i + 1)
    } else {
        i
    }
}

/// `digits_end(s, i)` is exactly `j` when the bytes in `[i, j)` are all
/// digits and `j` is either the end of `s` or a non-digit position.
pub proof fn lemma_digits_end_is(s: Seq<u8>, i: int, j: int)
    requires
        0 <= i <= j <= s.len(),
        forall|k: int| i <= k < j ==> is_digit(#[trigger] s[k]),
        j == s.len() || !is_digit(s[j]),
    ensures
        digits_end(s, i) == j,
    decreases j - i,
{
    if i < j {
        lemma_digits_end_is(s, i + 1, j);
    }
}

/// Scale for a fraction written with `k` digits, in thousandths.
pub open spec fn frac_scale(k: int) -> nat {
    if k == 1 {
        100
    } else if k == 2 {
        10
    } else {
        1
    }
}

/// Reads a fixed-point number at position `i`: one or more whole digits,
/// then optionally a dot followed by one to three fraction digits. Yields
/// the value in thousandths and the position after the number, or nothing
/// when no digit starts at `i`, more than three fraction digits follow the
/// dot, or the value does not fit in a `u64` count of thousandths.
pub open spec fn spec_parse_fixed(s: Seq<u8>, i: int) -> Option<(nat, int)> {
    let e = digits_end(s, i);
    if e == i {
        None
    } else {
        let q = digits_val(s.subrange(i, e));
        if e + 1 < s.len() && s[e] == 46 && is_digit(s[e + 1]) {
            let fe = digits_end(s, e + 1);
            if fe - (e + 1) > 3 {
                None
            } else {
                let f = digits_val(s.subrange(e + 1, fe)) * frac_scale(fe - (e + 1));
                if q * 1000 + f <= u64::MAX {
                    Some(((q * 1000 + f) as nat, fe))
                } else {
                    None
                }
            }
        } else {
            if q * 1000 <= u64::MAX {
                Some(((q * 1000) as nat, e))
            } else {
                None
            }
        }
    }
}

/// Advances over the digit run starting at `i`.
fn scan_digits(s: &Vec<u8>, i: usize) -> (e: usize)
    requires
        i <= s@.len(),
    ensures
        e == digits_end(s@, i as int),
        i <= e <= s@.len(),
        forall|k: int| i <= k < e ==> is_digit(#[trigger] s@[k]),
    decreases s@.len() - i,
{
    let n: usize = s.len();
    let mut k: usize = i;
    while k < n && 48 <= s[k] && s[k] <= 57
        invariant
            i <= k <= n,
            n == s@.len(),
            digits_end(s@, i as int) == digits_end(s@, k as int),
            forall|j: int| i <= j < k ==> is_digit(#[trigger] s@[j]),
        decreases n - k,
    {
        k += 1;
    }
    k
}

/// Accumulates the value of the digit run `[i, e)`; yields nothing when
/// that value exceeds `u64::MAX`.
fn digits_to_u64(s: &Vec<u8>, i: usize, e: usize) -> (r: Option<u64>)
    requires
        i <= e <= s@.len(),
        forall|k: int| i <= k < e ==> is_digit(#[trigger] s@[k]),
    ensures
        match r {
            Some(q) => q == digits_val(s@.subrange(i as int, e as int)),
            None => digits_val(s@.subrange(i as int, e as int)) > u64::MAX,
        },
{
    let mut q: u64 = 0;
    let mut j: usize = i;
    assert(s@.subrange(i as int, i as int) =~= Seq::<u8>::empty());
    while j < e
        invariant
            i <= j <= e <= s@.len(),
            forall|k: int| i <= k < e ==> is_digit(#[trigger] s@[k]),
            q == digits_val(s@.subrange(i as int, j as int)),
        decreases e - j,
    {
        let d: u8 = s[j] - 48;
        proof {
            assert(s@.subrange(i as int, j + 1).drop_last() =~= s@.subrange(i as int, j as int));
            assert(s@.subrange(i as int, j + 1).last() == s@[j as int]);
        }
        let q10 = match q.checked_mul(10) {
            Some(x) => x,
            None => {
                proof {
                    overflow_rest(s@, i as int, j as int, e as int, q * 10 + d);
                }
                return None;
            },
        };
        let qd = match q10.checked_add(d as u64) {
            Some(x) => x,
            None => {
                proof {
                    overflow_rest(s@, i as int, j as int, e as int, q * 10 + d);
                }
                return None;
            },
        };
        q = qd;
        j += 1;
    }
    assert(s@.subrange(i as int, j as int) =~= s@.subrange(i as int, e as int));
    Some(q)
}

/// If the digits up to `j + 1` are already worth `v`, the whole run up to
/// `e` is worth at least `v`.
proof fn overflow_rest(s: Seq<u8>, i: int, j: int, e: int, v: int)
    requires
        0 <= i <= j < e <= s.len(),
        forall|k: int| i <= k < e ==> is_digit(#[trigger] s[k]),
        digits_val(s.subrange(i, j + 1)) == v,
    ensures
        digits_val(s.subrange(i, e)) >= v,
{
    let full = s.subrange(i, e);
    lemma_digits_val_prefix(full, j + 1 - i);
    assert(full.subrange(0, j + 1 - i) =~= s.subrange(i, j + 1));
}

/// Reads a fixed-point number at position `i`, as `spec_parse_fixed` says.
pub fn parse_fixed(s: &Vec<u8>, i: usize) -> (r: Option<(Fixed, usize)>)
    requires
        i <= s@.len(),
    ensures
        match r {
            Some((x, j)) => spec_parse_fixed(s@, i as int) == Some((x.value(), j as int)) && i < j
                <= s@.len(),
            None => spec_parse_fixed(s@, i as int) is None,
        },
{
    let n: usize = s.len();
    let e = scan_digits(s, i);
    if e == i {
        return None;
    }
    let q = match digits_to_u64(s, i, e) {
        Some(q) => q,
        None => {
            proof {
                let qv = digits_val(s@.subrange(i as int, e as int));
                assert(qv * 1000 >= qv * 1) by (nonlinear_arith)
                    requires qv >= 0;
            }
            return None;
        },
    };
    if e < n && s[e] == 46 && e + 1 < n && 48 <= s[e + 1] && s[e + 1] <= 57 {
        let fe = scan_digits(s, e + 1);
        let cnt = fe - (e + 1);
        if cnt > 3 {
            return None;
        }
        let f0 = match digits_to_u64(s, e + 1, fe) {
            Some(f) => f,
            None => {
                proof {
                    lemma_digits_val_small(s@, e + 1, fe as int);
                }
                return None;
            },
        };
        proof {
            lemma_digits_val_small(s@, e + 1, fe as int);
        }
        let scale: u64 = if cnt == 1 {
            100
        } else if cnt == 2 {
            10
        } else {
            1
        };
        let f = f0 * scale;
        let v = match q.checked_mul(1000) {
            Some(x) => x,
            None => {
                return None;
            },
        };
        let v = match v.checked_add(f) {
            Some(x) => x,
            None => {
                return None;
            },
        };
        Some((Fixed { thousandths: v }, fe))
    } else {
        let v = match q.checked_mul(1000) {
            Some(x) => x,
            None => {
                return None;
            },
        };
        Some((Fixed { thousandths: v }, e))
    }
}

/// The trimmed fraction digits are one to three digit bytes whose value,
/// scaled back, is exactly `f`.
pub proof fn lemma_frac_digits(f: int)
    requires
        0 <= f < 1000,
    ensures
        1 <= frac_digits(f).len() <= 3,
        forall|j: int| 0 <= j < frac_digits(f).len() ==> is_digit(#[trigger] frac_digits(f)[j]),
        digits_val(frac_digits(f)) * frac_scale(frac_digits(f).len() as int) == f,
{
    let d1 = f / 100;
    let d2 = (f / 10) % 10;
    let d3 = f % 10;
    lemma_fundamental_div_mod(f, 10);
    lemma_fundamental_div_mod(f / 10, 10);
    lemma_div_denominator(f, 10, 10);
    assert(f == 100 * d1 + 10 * d2 + d3);
    assert(0 <= d1 <= 9 && 0 <= d2 <= 9 && 0 <= d3 <= 9);
    let fd = frac_digits(f);
    assert(seq![dig(d1)].drop_last() =~= Seq::<u8>::empty());
    assert(seq![dig(d1)].last() == dig(d1));
    assert(dig(d1) - 48 == d1 && dig(d2) - 48 == d2 && dig(d3) - 48 == d3);
    assert(digits_val(Seq::<u8>::empty()) == 0);
    assert(digits_val(seq![dig(d1)]) == d1);
    if d3 != 0 {
        assert(fd =~= seq![dig(d1), dig(d2), dig(d3)]);
        assert(fd.drop_last() =~= seq![dig(d1), dig(d2)]);
        assert(fd.drop_last().drop_last() =~= seq![dig(d1)]);
        assert(digits_val(fd.drop_last()) == d1 * 10 + d2);
        assert(digits_val(fd) == (d1 * 10 + d2) * 10 + d3);
        assert(fd.len() == 3 && frac_scale(3) == 1);
        assert(digits_val(fd) * frac_scale(fd.len() as int) == f) by (nonlinear_arith)
            requires
                digits_val(fd) == (d1 * 10 + d2) * 10 + d3,
                frac_scale(fd.len() as int) == 1,
                f == 100 * d1 + 10 * d2 + d3,
        ;
    } else if d2 != 0 {
        assert(fd =~= seq![dig(d1), dig(d2)]);
        assert(fd.drop_last() =~= seq![dig(d1)]);
        assert(digits_val(fd) == d1 * 10 + d2);
        assert(fd.len() == 2 && frac_scale(2) == 10);
        assert(digits_val(fd) * frac_scale(fd.len() as int) == f) by (nonlinear_arith)
            requires
                digits_val(fd) == d1 * 10 + d2,
                frac_scale(fd.len() as int) == 10,
                f == 100 * d1 + 10 * d2,
        ;
    } else {
        assert(fd =~= seq![dig(d1)]);
        assert(digits_val(fd) == d1);
        assert(fd.len() == 1 && frac_scale(1) == 100);
        assert(digits_val(fd) * frac_scale(fd.len() as int) == f) by (nonlinear_arith)
            requires
                digits_val(fd) == d1,
                frac_scale(fd.len() as int) == 100,
                f == 100 * d1,
        ;
    }
}

/// Reading back the decimal notation of `v` thousandths yields exactly
/// `v`, and consumes exactly the written bytes, provided no further digit
/// immediately follows the written text.
pub proof fn lemma_parse_fmt_fixed(v: u64, s: Seq<u8>, i: int)
    requires
        matches_at(s, i, spec_fmt_fixed(v as nat)),
        i + spec_fmt_fixed(v as nat).len() < s.len() ==> !is_digit(
            s[i + spec_fmt_fixed(v as nat).len()],
        ),
    ensures
        spec_parse_fixed(s, i) == Some((v as nat, i + spec_fmt_fixed(v as nat).len())),
{
    let q = (v as nat) / 1000;
    let f = ((v as nat) % 1000) as int;
    let a = fmt_nat(q);
    let fd = frac_digits(f);
    let w = spec_fmt_fixed(v as nat);
    let l1 = a.len() as int;
    let lf = fd.len() as int;
    let ltot = w.len() as int;
    lemma_fmt_nat_digits(q);
    lemma_frac_digits(f);
    lemma_digits_val_fmt(q);
    assert(w =~= a + seq![46u8] + fd);
    assert(ltot == l1 + 1 + lf);
    assert forall|t: int| 0 <= t < ltot implies s[i + t] == w[t] by {
        assert(s.subrange(i, i + ltot)[t] == s[i + t]);
    }
    assert forall|k: int| i <= k < i + l1 implies is_digit(#[trigger] s[k]) by {
        assert(w[k - i] == a[k - i]);
    }
    assert(w[l1] == 46);
    assert(s[i + l1] == 46 && !is_digit(s[i + l1]));
    lemma_digits_end_is(s, i, i + l1);
    let e = digits_end(s, i);
    assert(e == i + l1 && e != i);
    assert(s.subrange(i, e) =~= a);
    assert(digits_val(s.subrange(i, e)) == q);
    assert(w[l1 + 1] == fd[0]);
    assert(e + 1 < s.len() && s[e] == 46 && is_digit(s[e + 1]));
    assert forall|k: int| e + 1 <= k < i + ltot implies is_digit(#[trigger] s[k]) by {
        assert(w[k - i] == fd[k - (e + 1)]);
    }
    lemma_digits_end_is(s, e + 1, i + ltot);
    let fe = digits_end(s, e + 1);
    assert(fe == i + ltot);
    assert(fe - (e + 1) == lf <= 3);
    assert forall|t: int| 0 <= t < lf implies s[e + 1 + t] == fd[t] by {
        assert(s[i + (l1 + 1 + t)] == w[l1 + 1 + t]);
        assert(w[l1 + 1 + t] == fd[t]);
    }
    assert(s.subrange(e + 1, fe) =~= fd);
    assert(digits_val(s.subrange(e + 1, fe)) * frac_scale(lf) == f);
    lemma_fundamental_div_mod(v as int, 1000);
    assert(q * 1000 + f == v);
}

/// A run of at most three digits is worth at most 999.
proof fn lemma_digits_val_small(s: Seq<u8>, i: int, e: int)
    requires
        0 <= i <= e <= s.len(),
        e - i <= 3,
        forall|k: int| i <= k < e ==> is_digit(#[trigger] s[k]),
    ensures
        digits_val(s.subrange(i, e)) <= 999,
{
    let ds = s.subrange(i, e);
    if e - i == 3 {
        assert(ds.drop_last() =~= s.subrange(i, e - 1));
        assert(s.subrange(i, e - 1).drop_last() =~= s.subrange(i, e - 2));
        assert(s.subrange(i, e - 2).drop_last() =~= s.subrange(i, i));
        assert(s.subrange(i, i) =~= Seq::<u8>::empty());
        assert(ds.last() == s[e - 1] && s.subrange(i, e - 1).last() == s[e - 2] && s.subrange(
            i,
            e - 2,
        ).last() == s[i]);
        assert(s[i] - 48 <= 9 && s[e - 2] - 48 <= 9 && s[e - 1] - 48 <= 9);
        assert(digits_val(s.subrange(i, i)) == 0);
        assert(digits_val(s.subrange(i, e - 2)) <= 9);
        assert(digits_val(s.subrange(i, e - 1)) <= 99);
        assert(digits_val(ds) <= 999);
    } else if e - i == 2 {
        assert(ds.drop_last() =~= s.subrange(i, e - 1));
        assert(s.subrange(i, e - 1).drop_last() =~= s.subrange(i, i));
        assert(s.subrange(i, i) =~= Seq::<u8>::empty());
        assert(ds.last() == s[e - 1] && s.subrange(i, e - 1).last() == s[i]);
        assert(digits_val(s.subrange(i, i)) == 0);
        assert(digits_val(s.subrange(i, e - 1)) <= 9);
        assert(digits_val(ds) <= 99);
    } else if e - i == 1 {
        assert(ds.drop_last() =~= s.subrange(i, i));
        assert(s.subrange(i, i) =~= Seq::<u8>::empty());
        assert(ds.last() == s[i]);
        assert(digits_val(ds) <= 9);
    } else {
        assert(ds =~= Seq::<u8>::empty());
    }
}

} // verus!
