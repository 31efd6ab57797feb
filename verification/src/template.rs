//! The template binding engine: a single, non-recursive pass over the
//! raw layout text that replaces every `{{field}}` placeholder with the
//! current value of that field in the application state mapping.
//! Substituted text is never itself re-scanned for placeholders.

use vstd::prelude::*;
use crate::num::spec_fmt_fixed;
use crate::state::{StateMap, Value, ValModel, find_val};

verus! {

/// Why a template could not be bound.
#[derive(Debug, Clone, Copy, PartialEq, Eq, Structural)]
pub enum BindingError {
    /// A placeholder names a field absent from the application state.
    UnknownField,
    /// An opening `{{` without a matching `}}`.
    Malformed,
}

/// The textual rendering of a state value: `true`/`false` for a flag,
/// the bytes themselves for text, decimal notation for a number.
pub open spec fn val_text(v: ValModel) -> Seq<u8> {
    match v {
        ValModel::Bool(b) => if b {
            seq![116u8, 114u8, 117u8, 101u8]
        } else {
            seq![102u8, 97u8, 108u8, 115u8, 101u8]
        },
        ValModel::Text(t) => t,
        ValModel::Num(x) => spec_fmt_fixed(x),
    }
}

/// First position at or after `i` where `}}` starts, or the length of
/// `t` when there is none.
pub open spec fn brace_end(t: Seq<u8>, i: int) -> int
    decreases t.len() - i,
{
    if 0 <= i && i + 1 < t.len() {
        if t[i] == 125 && t[i + 1] == 125 {
            i
        } else {
            brace_end(t, i + 1)
        }
    } else {
        t.len() as int
    }
}

/// Binds the template suffix that starts at `i`: copies plain bytes,
/// substitutes each `{{field}}` by the field's textual value, and fails
/// on an unknown field or an unclosed placeholder.
pub open spec fn spec_bind_from(t: Seq<u8>, m: Seq<(Seq<u8>, ValModel)>, i: int) -> Result<
    Seq<u8>,
    BindingError,
>
    decreases t.len() - i,
{
    if !(0 <= i < t.len()) {
        Ok(Seq::empty())
    } else if i + 1 < t.len() && t[i] == 123 && t[i + 1] == 123 {
        let k = brace_end(t, i + 2);
        if k + 1 < t.len() && k >= i + 2 {
            let name = t.subrange(i + 2, k);
            match find_val(m, name) {
                None => Err(BindingError::UnknownField),
                Some(v) => match spec_bind_from(t, m, k + 2) {
                    Err(e) => Err(e),
                    Ok(rest) => Ok(val_text(v) + rest),
                },
            }
        } else {
            Err(BindingError::Malformed)
        }
    } else {
        match spec_bind_from(t, m, i + 1) {
            Err(e) => Err(e),
            Ok(r) => Ok(seq![t[i]] + r),
        }
    }
}

/// Binds a whole template against a state mapping.
pub open spec fn spec_bind(t: Seq<u8>, m: Seq<(Seq<u8>, ValModel)>) -> Result<
    Seq<u8>,
    BindingError,
> {
    spec_bind_from(t, m, 0)
}

/// Appends the textual rendering of `v` to `out`.
fn push_val_text(out: &mut Vec<u8>, v: &Value)
    ensures
        final(out)@ == old(out)@ + val_text(v.view()),
{
    match v {
        Value::Bool(b) => {
            if *b {
                out.push(116);
                out.push(114);
                out.push(117);
                out.push(101);
            } else {
                out.push(102);
                out.push(97);
                out.push(108);
                out.push(115);
                out.push(101);
            }
            assert(out@ =~= old(out)@ + val_text(v.view()));
        },
        Value::Text(t) => {
            let n: usize = t.len();
            let mut k: usize = 0;
            while k < n
                invariant
                    k <= n,
                    n == t@.len(),
                    out@ == old(out)@ + t@.subrange(0, k as int),
                decreases n - k,
            {
                out.push(t[k]);
                k += 1;
                assert(out@ =~= old(out)@ + t@.subrange(0, k as int));
            }
            assert(out@ =~= old(out)@ + val_text(v.view()));
        },
        Value::Num(x) => {
            let mut b = x.to_bytes();
            out.append(&mut b);
        },
    }
}

/// A partial binding outcome: the bytes already written, followed by
/// whatever the rest of the pass yields.
pub open spec fn bind_result(prefix: Seq<u8>, r: Result<Seq<u8>, BindingError>) -> Result<
    Seq<u8>,
    BindingError,
> {
    match r {
        Ok(rest) => Ok(prefix + rest),
        Err(e) => Err(e),
    }
}

/// Binds the template `t` against the state mapping `m`, as `spec_bind`
/// says: the result is the template with every placeholder replaced, or
/// the first binding failure in text order.
pub fn bind(t: &Vec<u8>, m: &StateMap) -> (r: Result<Vec<u8>, BindingError>)
    ensures
        match r {
            Ok(out) => spec_bind(t@, m.view()) == Ok::<_, BindingError>(out@),
            Err(e) => spec_bind(t@, m.view()) == Err::<Seq<u8>, _>(e),
        },
{
    let ghost tv = t@;
    let ghost mv = m.view();
    let n: usize = t.len();
    let mut out: Vec<u8> = Vec::new();
    let mut i: usize = 0;
    assert(Seq::<u8>::empty() + tv =~= tv);
    while i < n
        invariant
            i <= n,
            n == tv.len(),
            tv == t@,
            mv == m.view(),
            spec_bind(tv, mv) == bind_result(out@, spec_bind_from(tv, mv, i as int)),
        decreases n - i,
    {
        let ghost iv = i as int;
        let ghost out0 = out@;
        if i + 1 < n && t[i] == 123 && t[i + 1] == 123 {
            let mut k: usize = i + 2;
            while k < n - 1 && !(t[k] == 125 && t[k + 1] == 125)
                invariant
                    i + 2 <= k <= n,
                    n == tv.len(),
                    tv == t@,
                    brace_end(tv, i + 2) == brace_end(tv, k as int),
                decreases n - k,
            {
                k += 1;
            }
            if k >= n - 1 {
                proof {
                    assert(brace_end(tv, k as int) == tv.len());
                    assert(spec_bind_from(tv, mv, iv) == Err::<Seq<u8>, _>(
                        BindingError::Malformed,
                    ));
                }
                return Err(BindingError::Malformed);
            }
            assert(tv[k as int] == 125 && tv[k + 1] == 125);
            assert(brace_end(tv, i + 2) == k);
            let name = crate::bytes::sub_bytes(t, i + 2, k);
            match m.get(&name) {
                None => {
                    assert(spec_bind_from(tv, mv, iv) == Err::<Seq<u8>, _>(
                        BindingError::UnknownField,
                    ));
                    return Err(BindingError::UnknownField);
                },
                Some(v) => {
                    let ghost piece = val_text(v.view());
                    push_val_text(&mut out, v);
                    i = k + 2;
                    proof {
                        lemma_bind_step(tv, mv, iv, out0, piece, i as int);
                    }
                },
            }
        } else {
            let ghost piece = seq![tv[iv]];
            out.push(t[i]);
            i += 1;
            proof {
                assert(out@ =~= out0 + piece);
                lemma_bind_step(tv, mv, iv, out0, piece, i as int);
            }
        }
    }
    assert(spec_bind_from(tv, mv, n as int) == Ok::<_, BindingError>(Seq::<u8>::empty()));
    assert(out@ + Seq::<u8>::empty() =~= out@);
    Ok(out)
}

/// One pass step keeps the partial-outcome equation: if the suffix at
/// `iv` binds to `piece` followed by the suffix at `j`, the prefix
/// absorbs `piece`.
proof fn lemma_bind_step(
    tv: Seq<u8>,
    mv: Seq<(Seq<u8>, ValModel)>,
    iv: int,
    out0: Seq<u8>,
    piece: Seq<u8>,
    j: int,
)
    requires
        spec_bind_from(tv, mv, iv) == bind_result(piece, spec_bind_from(tv, mv, j)),
    ensures
        bind_result(out0, spec_bind_from(tv, mv, iv)) == bind_result(
            out0 + piece,
            spec_bind_from(tv, mv, j),
        ),
{
    match spec_bind_from(tv, mv, j) {
        Ok(rest) => {
            assert(out0 + (piece + rest) =~= (out0 + piece) + rest);
        },
        Err(e) => {},
    }
}

} // verus!
