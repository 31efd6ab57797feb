//! Parser for the layout text format. The grammar is exactly what
//! `spec_ser_elem` writes: `Column([...])`, `Row([...])`, `Text("...")`,
//! `Button(content,"callback")` and
//! `Slider("value",lo..=hi,"callback")`, with numbers in decimal
//! notation, no escapes inside quotes, and no stray whitespace.

use vstd::prelude::*;
use crate::bytes::{matches_at, match_at, lemma_matches_split, lemma_matches_byte};
use crate::num::{
    spec_parse_fixed, parse_fixed, spec_fmt_fixed, is_digit, lemma_parse_fmt_fixed,
};
use crate::tree::{
    Element, ElemModel, Root, view_elems, lemma_view_elems, kw_column, kw_row, kw_text, kw_button,
    kw_slider, kw_root, wf_model, wf_models, no_quote, quoted, spec_ser_elem, spec_ser_list,
    spec_ser_root,
};

verus! {

/// Why a layout text was rejected.
#[derive(Debug, Clone, Copy, PartialEq, Eq, Structural)]
pub enum SchemaError {
    /// No known element form starts at the failing position.
    UnknownVariant,
    /// The text ended, or a required punctuation byte was missing.
    Unterminated,
    /// A numeric value was malformed or out of range of the numeric model.
    BadNumber,
    /// A slider range whose lower bound exceeds its upper bound.
    MalformedRange,
    /// Well-formed layout followed by trailing bytes.
    Trailing,
}

/// First position at or after `i` holding a quote byte, or the length of
/// `s` when there is none.
pub open spec fn quote_end(s: Seq<u8>, i: int) -> int
    decreases s.len() - i,
{
    if 0 <= i < s.len() {
        if s[i] == 34 {
            i
        } else {
            quote_end(s, i + 1)
        }
    } else {
        s.len() as int
    }
}

/// Reads a double-quoted byte string starting at `i`; yields its contents
/// and the position after the closing quote.
pub open spec fn spec_parse_quoted(s: Seq<u8>, i: int) -> Result<(Seq<u8>, int), SchemaError> {
    if !(0 <= i < s.len() && s[i] == 34) {
        Err(SchemaError::Unterminated)
    } else {
        let e = quote_end(s, i + 1);
        if e >= s.len() {
            Err(SchemaError::Unterminated)
        } else {
            Ok((s.subrange(i + 1, e), e + 1))
        }
    }
}

/// Reads one element starting at `i`; yields its model and the position
/// after its closing parenthesis.
pub open spec fn spec_parse_elem(s: Seq<u8>, i: int) -> Result<(ElemModel, int), SchemaError>
    decreases s.len() - i, 0int,
{
    if matches_at(s, i, kw_column()) {
        match spec_parse_list(s, i + 8) {
            Err(e) => Err(e),
            Ok((cs, k)) => if k + 1 < s.len() && s[k] == 93 && s[k + 1] == 41 {
                Ok((ElemModel::Column(cs), k + 2))
            } else {
                Err(SchemaError::Unterminated)
            },
        }
    } else if matches_at(s, i, kw_row()) {
        match spec_parse_list(s, i + 5) {
            Err(e) => Err(e),
            Ok((cs, k)) => if k + 1 < s.len() && s[k] == 93 && s[k + 1] == 41 {
                Ok((ElemModel::Row(cs), k + 2))
            } else {
                Err(SchemaError::Unterminated)
            },
        }
    } else if matches_at(s, i, kw_text()) {
        match spec_parse_quoted(s, i + 5) {
            Err(e) => Err(e),
            Ok((t, j)) => if j < s.len() && s[j] == 41 {
                Ok((ElemModel::Text(t), j + 1))
            } else {
                Err(SchemaError::Unterminated)
            },
        }
    } else if matches_at(s, i, kw_button()) {
        match spec_parse_elem(s, i + 7) {
            Err(e) => Err(e),
            Ok((c, j)) => if j < s.len() && s[j] == 44 {
                match spec_parse_quoted(s, j + 1) {
                    Err(e) => Err(e),
                    Ok((cb, k)) => if k < s.len() && s[k] == 41 {
                        Ok(
                            (
                                ElemModel::Button { content: Box::new(c), callback_name: cb },
                                k + 1,
                            ),
                        )
                    } else {
                        Err(SchemaError::Unterminated)
                    },
                }
            } else {
                Err(SchemaError::Unterminated)
            },
        }
    } else if matches_at(s, i, kw_slider()) {
        match spec_parse_quoted(s, i + 7) {
            Err(e) => Err(e),
            Ok((vn, j)) => if j < s.len() && s[j] == 44 {
                match spec_parse_fixed(s, j + 1) {
                    None => Err(SchemaError::BadNumber),
                    Some((lo, k)) => if matches_at(s, k, seq![46u8, 46u8, 61u8]) {
                        match spec_parse_fixed(s, k + 3) {
                            None => Err(SchemaError::BadNumber),
                            Some((hi, l)) => if lo > hi {
                                Err(SchemaError::MalformedRange)
                            } else if l < s.len() && s[l] == 44 {
                                match spec_parse_quoted(s, l + 1) {
                                    Err(e) => Err(e),
                                    Ok((cb, p)) => if p < s.len() && s[p] == 41 {
                                        Ok(
                                            (
                                                ElemModel::Slider {
                                                    value_name: vn,
                                                    lo: lo,
                                                    hi: hi,
                                                    callback_name: cb,
                                                },
                                                p + 1,
                                            ),
                                        )
                                    } else {
                                        Err(SchemaError::Unterminated)
                                    },
                                }
                            } else {
                                Err(SchemaError::Unterminated)
                            },
                        }
                    } else {
                        Err(SchemaError::Unterminated)
                    },
                }
            } else {
                Err(SchemaError::Unterminated)
            },
        }
    } else {
        Err(SchemaError::UnknownVariant)
    }
}

/// Reads a comma-separated list of elements starting at `i`, stopping in
/// front of a closing bracket; yields the models and the stop position.
pub open spec fn spec_parse_list(s: Seq<u8>, i: int) -> Result<(Seq<ElemModel>, int), SchemaError>
    decreases s.len() - i, 1int,
{
    if !(0 <= i < s.len()) {
        Err(SchemaError::Unterminated)
    } else if s[i] == 93 {
        Ok((Seq::empty(), i))
    } else {
        match spec_parse_elem(s, i) {
            Err(e) => Err(e),
            Ok((m, j)) => if !(i < j <= s.len()) {
                Err(SchemaError::Unterminated)
            } else if j < s.len() && s[j] == 44 {
                match spec_parse_list(s, j + 1) {
                    Err(e) => Err(e),
                    Ok((ms, k)) => Ok((seq![m] + ms, k)),
                }
            } else {
                Ok((seq![m], j))
            },
        }
    }
}

/// Reads a whole layout: `Root(` around one element, consuming all of `s`.
pub open spec fn spec_parse_root(s: Seq<u8>) -> Result<ElemModel, SchemaError> {
    if !matches_at(s, 0, kw_root()) {
        Err(SchemaError::UnknownVariant)
    } else {
        match spec_parse_elem(s, 5) {
            Err(e) => Err(e),
            Ok((m, j)) => if j < s.len() && s[j] == 41 {
                if j + 1 == s.len() {
                    Ok(m)
                } else {
                    Err(SchemaError::Trailing)
                }
            } else {
                Err(SchemaError::Unterminated)
            },
        }
    }
}

/// `quote_end` lands exactly on `j` when no quote byte stands before it.
proof fn lemma_quote_end_is(s: Seq<u8>, i: int, j: int)
    requires
        0 <= i <= j < s.len(),
        forall|k: int| i <= k < j ==> s[k] != 34,
        s[j] == 34,
    ensures
        quote_end(s, i) == j,
    decreases j - i,
{
    if i < j {
        lemma_quote_end_is(s, i + 1, j);
    }
}

/// Reading back a quoted string yields its contents and stops after the
/// closing quote.
proof fn lemma_parse_quoted_of(t: Seq<u8>, s: Seq<u8>, i: int)
    requires
        no_quote(t),
        matches_at(s, i, quoted(t)),
    ensures
        spec_parse_quoted(s, i) == Ok::<_, SchemaError>((t, i + t.len() + 2)),
{
    let tl = t.len() as int;
    assert(quoted(t) == (seq![34u8] + t) + seq![34u8]);
    lemma_matches_split(s, i, seq![34u8] + t, seq![34u8]);
    lemma_matches_split(s, i, seq![34u8], t);
    lemma_matches_byte(s, i, 34u8);
    lemma_matches_byte(s, i + 1 + tl, 34u8);
    assert(s.subrange(i + 1, i + 1 + tl) == t);
    assert forall|k: int| i + 1 <= k < i + 1 + tl implies s[k] != 34 by {
        assert(s.subrange(i + 1, i + 1 + tl)[k - (i + 1)] == s[k]);
        assert(t[k - (i + 1)] != 34);
    }
    lemma_quote_end_is(s, i + 1, i + 1 + tl);
}

/// A position holding one of the element tags cannot match a keyword that
/// begins with a different byte.
proof fn lemma_not_kw(s: Seq<u8>, i: int, pat: Seq<u8>, b: u8)
    requires
        0 <= i < s.len(),
        s[i] == b,
        pat.len() > 0,
        pat[0] != b,
    ensures
        !matches_at(s, i, pat),
{
    if matches_at(s, i, pat) {
        assert(s.subrange(i, i + pat.len())[0] == s[i]);
    }
}

/// The first byte of an element's text names its variant tag.
proof fn lemma_ser_elem_first(m: ElemModel)
    ensures
        spec_ser_elem(m).len() >= 1,
        spec_ser_elem(m)[0] == match m {
            ElemModel::Column(_) => 67u8,
            ElemModel::Row(_) => 82u8,
            ElemModel::Text(_) => 84u8,
            ElemModel::Button { .. } => 66u8,
            ElemModel::Slider { .. } => 83u8,
        },
{
    match m {
        ElemModel::Column(cs) => {
            assert(spec_ser_elem(m)[0] == kw_column()[0]);
        },
        ElemModel::Row(cs) => {
            assert(spec_ser_elem(m)[0] == kw_row()[0]);
        },
        ElemModel::Text(t) => {
            assert(spec_ser_elem(m)[0] == kw_text()[0]);
        },
        ElemModel::Button { .. } => {
            assert(spec_ser_elem(m)[0] == kw_button()[0]);
        },
        ElemModel::Slider { .. } => {
            assert(spec_ser_elem(m)[0] == kw_slider()[0]);
        },
    }
}

/// Reading back the text of a well-formed element yields that element and
/// consumes exactly its text.
#[verifier::rlimit(100)]
pub proof fn lemma_parse_ser_elem(m: ElemModel, s: Seq<u8>, i: int)
    requires
        wf_model(m),
        matches_at(s, i, spec_ser_elem(m)),
    ensures
        spec_parse_elem(s, i) == Ok::<_, SchemaError>((m, i + spec_ser_elem(m).len())),
    decreases m,
{
    let w = spec_ser_elem(m);
    let lw = w.len() as int;
    lemma_ser_elem_first(m);
    assert(s[i] == w[0]) by {
        assert(s.subrange(i, i + lw)[0] == s[i]);
    }
    match m {
        ElemModel::Column(cs) => {
            let lst = spec_ser_list(cs);
            let ll = lst.len() as int;
            lemma_matches_split(s, i, kw_column() + lst, seq![93u8, 41u8]);
            lemma_matches_split(s, i, kw_column(), lst);
            let k = i + 8 + ll;
            assert(seq![93u8, 41u8] =~= seq![93u8] + seq![41u8]);
            lemma_matches_split(s, k, seq![93u8], seq![41u8]);
            lemma_matches_byte(s, k, 93u8);
            lemma_matches_byte(s, k + 1, 41u8);
            lemma_parse_ser_list(cs, s, i + 8);
            assert(spec_parse_elem(s, i) == Ok::<_, SchemaError>((m, k + 2)));
        },
        ElemModel::Row(cs) => {
            lemma_not_kw(s, i, kw_column(), 82u8);
            let lst = spec_ser_list(cs);
            let ll = lst.len() as int;
            lemma_matches_split(s, i, kw_row() + lst, seq![93u8, 41u8]);
            lemma_matches_split(s, i, kw_row(), lst);
            let k = i + 5 + ll;
            assert(seq![93u8, 41u8] =~= seq![93u8] + seq![41u8]);
            lemma_matches_split(s, k, seq![93u8], seq![41u8]);
            lemma_matches_byte(s, k, 93u8);
            lemma_matches_byte(s, k + 1, 41u8);
            lemma_parse_ser_list(cs, s, i + 5);
            assert(spec_parse_elem(s, i) == Ok::<_, SchemaError>((m, k + 2)));
        },
        ElemModel::Text(t) => {
            lemma_not_kw(s, i, kw_column(), 84u8);
            lemma_not_kw(s, i, kw_row(), 84u8);
            lemma_matches_split(s, i, kw_text() + quoted(t), seq![41u8]);
            lemma_matches_split(s, i, kw_text(), quoted(t));
            lemma_parse_quoted_of(t, s, i + 5);
            let j = i + 5 + t.len() + 2;
            lemma_matches_byte(s, j, 41u8);
            assert(spec_parse_elem(s, i) == Ok::<_, SchemaError>((m, j + 1)));
        },
        ElemModel::Button { content, callback_name } => {
            lemma_not_kw(s, i, kw_column(), 66u8);
            lemma_not_kw(s, i, kw_row(), 66u8);
            lemma_not_kw(s, i, kw_text(), 66u8);
            let c = *content;
            let cb = callback_name;
            let wc = spec_ser_elem(c);
            let lc = wc.len() as int;
            lemma_matches_split(s, i, kw_button() + wc + seq![44u8] + quoted(cb), seq![41u8]);
            lemma_matches_split(s, i, kw_button() + wc + seq![44u8], quoted(cb));
            lemma_matches_split(s, i, kw_button() + wc, seq![44u8]);
            lemma_matches_split(s, i, kw_button(), wc);
            lemma_parse_ser_elem(c, s, i + 7);
            let j = i + 7 + lc;
            lemma_matches_byte(s, j, 44u8);
            lemma_parse_quoted_of(cb, s, j + 1);
            let k = j + 1 + cb.len() + 2;
            lemma_matches_byte(s, k, 41u8);
            assert(spec_parse_elem(s, i) == Ok::<_, SchemaError>((m, k + 1)));
        },
        ElemModel::Slider { value_name, lo, hi, callback_name } => {
            lemma_not_kw(s, i, kw_column(), 83u8);
            lemma_not_kw(s, i, kw_row(), 83u8);
            lemma_not_kw(s, i, kw_text(), 83u8);
            lemma_not_kw(s, i, kw_button(), 83u8);
            let vn = value_name;
            let cb = callback_name;
            let flo = spec_fmt_fixed(lo);
            let fhi = spec_fmt_fixed(hi);
            let dots = seq![46u8, 46u8, 61u8];
            lemma_matches_split(
                s,
                i,
                kw_slider() + quoted(vn) + seq![44u8] + flo + dots + fhi + seq![44u8] + quoted(cb),
                seq![41u8],
            );
            lemma_matches_split(
                s,
                i,
                kw_slider() + quoted(vn) + seq![44u8] + flo + dots + fhi + seq![44u8],
                quoted(cb),
            );
            lemma_matches_split(
                s,
                i,
                kw_slider() + quoted(vn) + seq![44u8] + flo + dots + fhi,
                seq![44u8],
            );
            lemma_matches_split(s, i, kw_slider() + quoted(vn) + seq![44u8] + flo + dots, fhi);
            lemma_matches_split(s, i, kw_slider() + quoted(vn) + seq![44u8] + flo, dots);
            lemma_matches_split(s, i, kw_slider() + quoted(vn) + seq![44u8], flo);
            lemma_matches_split(s, i, kw_slider() + quoted(vn), seq![44u8]);
            lemma_matches_split(s, i, kw_slider(), quoted(vn));
            let a1 = i + 7;
            let a2 = a1 + vn.len() + 2;
            let a3 = a2 + 1;
            let a4 = a3 + flo.len();
            let a5 = a4 + 3;
            let a6 = a5 + fhi.len();
            let a7 = a6 + 1;
            let a8 = a7 + cb.len() + 2;
            lemma_parse_quoted_of(vn, s, a1);
            lemma_matches_byte(s, a2, 44u8);
            assert(dots =~= seq![46u8] + (seq![46u8] + seq![61u8]));
            lemma_matches_split(s, a4, seq![46u8], seq![46u8] + seq![61u8]);
            lemma_matches_byte(s, a4, 46u8);
            assert(!is_digit(46u8));
            lemma_parse_fmt_fixed(lo as u64, s, a3);
            assert((lo as u64) as nat == lo);
            lemma_matches_byte(s, a6, 44u8);
            assert(!is_digit(44u8));
            lemma_parse_fmt_fixed(hi as u64, s, a5);
            assert((hi as u64) as nat == hi);
            lemma_parse_quoted_of(cb, s, a7);
            lemma_matches_byte(s, a8, 41u8);
            assert(spec_parse_elem(s, i) == Ok::<_, SchemaError>((m, a8 + 1)));
        },
    }
}

/// Reading back the text of a well-formed element list, followed by a
/// closing bracket, yields those elements and stops on the bracket.
pub proof fn lemma_parse_ser_list(cs: Seq<ElemModel>, s: Seq<u8>, i: int)
    requires
        wf_models(cs),
        matches_at(s, i, spec_ser_list(cs)),
        i + spec_ser_list(cs).len() < s.len(),
        s[i + spec_ser_list(cs).len()] == 93,
    ensures
        spec_parse_list(s, i) == Ok::<_, SchemaError>((cs, i + spec_ser_list(cs).len())),
    decreases cs,
{
    let lst = spec_ser_list(cs);
    let ll = lst.len() as int;
    if cs.len() == 0 {
        assert(s[i] == 93);
        assert(cs =~= Seq::<ElemModel>::empty());
        assert(spec_parse_list(s, i) == Ok::<_, SchemaError>((cs, i + ll)));
    } else if cs.len() == 1 {
        lemma_ser_elem_first(cs[0]);
        assert(s[i] == spec_ser_elem(cs[0])[0]) by {
            assert(s.subrange(i, i + ll)[0] == s[i]);
        }
        assert(s[i] != 93);
        lemma_parse_ser_elem(cs[0], s, i);
        let j = i + ll;
        assert(s[j] == 93 && s[j] != 44);
        assert(seq![cs[0]] =~= cs);
        assert(spec_parse_list(s, i) == Ok::<_, SchemaError>((cs, i + ll)));
    } else {
        let rest = cs.drop_first();
        let w0 = spec_ser_elem(cs[0]);
        let l0 = w0.len() as int;
        lemma_matches_split(s, i, w0 + seq![44u8], spec_ser_list(rest));
        lemma_matches_split(s, i, w0, seq![44u8]);
        lemma_ser_elem_first(cs[0]);
        assert(s[i] == w0[0]) by {
            assert(s.subrange(i, i + ll)[0] == s[i]);
        }
        assert(s[i] != 93);
        lemma_parse_ser_elem(cs[0], s, i);
        let j = i + l0;
        lemma_matches_byte(s, j, 44u8);
        lemma_parse_ser_list(rest, s, j + 1);
        assert(seq![cs[0]] + rest =~= cs);
        assert(spec_parse_list(s, i) == Ok::<_, SchemaError>((cs, i + ll)));
    }
}

/// Reading back the text of a well-formed layout yields that layout.
/// This is the round-trip law: for every well-formed tree, parsing its
/// serialization succeeds and yields a structurally equal tree.
#[verifier::rlimit(100)]
pub proof fn lemma_round_trip(m: ElemModel)
    requires
        wf_model(m),
    ensures
        spec_parse_root(spec_ser_root(m)) == Ok::<_, SchemaError>(m),
{
    let s = spec_ser_root(m);
    let we = spec_ser_elem(m);
    let le = we.len() as int;
    assert(s.subrange(0, s.len() as int) =~= s);
    assert(matches_at(s, 0, s));
    lemma_matches_split(s, 0, kw_root() + we, seq![41u8]);
    lemma_matches_split(s, 0, kw_root(), we);
    lemma_parse_ser_elem(m, s, 5);
    lemma_matches_byte(s, 5 + le, 41u8);
    assert(5 + le + 1 == s.len());
}

/// Reads a double-quoted byte string, as `spec_parse_quoted` says.
pub fn parse_quoted(s: &Vec<u8>, i: usize) -> (r: Result<(Vec<u8>, usize), SchemaError>)
    ensures
        match r {
            Ok((t, j)) => spec_parse_quoted(s@, i as int) == Ok::<_, SchemaError>(
                (t@, j as int),
            ) && i < j <= s@.len(),
            Err(e) => spec_parse_quoted(s@, i as int) == Err::<(Seq<u8>, int), _>(e),
        },
{
    let n: usize = s.len();
    if i >= n || s[i] != 34 {
        return Err(SchemaError::Unterminated);
    }
    let mut t: Vec<u8> = Vec::new();
    let mut k: usize = i + 1;
    assert(t@ =~= s@.subrange(i + 1, k as int));
    while k < n && s[k] != 34
        invariant
            i + 1 <= k <= n,
            n == s@.len(),
            i < n,
            quote_end(s@, i + 1) == quote_end(s@, k as int),
            t@ == s@.subrange(i + 1, k as int),
        decreases n - k,
    {
        t.push(s[k]);
        k += 1;
        assert(t@ =~= s@.subrange(i + 1, k as int));
    }
    if k == n {
        return Err(SchemaError::Unterminated);
    }
    Ok((t, k + 1))
}

/// Reads one element, as `spec_parse_elem` says.
pub fn parse_elem(s: &Vec<u8>, i: usize) -> (r: Result<(Element, usize), SchemaError>)
    ensures
        match r {
            Ok((e, j)) => spec_parse_elem(s@, i as int) == Ok::<_, SchemaError>(
                (e.view(), j as int),
            ) && i < j <= s@.len(),
            Err(er) => spec_parse_elem(s@, i as int) == Err::<(ElemModel, int), _>(er),
        },
    decreases s@.len() - i, 0int,
{
    let n: usize = s.len();
    let kcol = vec![67u8, 111u8, 108u8, 117u8, 109u8, 110u8, 40u8, 91u8];
    assert(kcol@ =~= kw_column());
    let krow = vec![82u8, 111u8, 119u8, 40u8, 91u8];
    assert(krow@ =~= kw_row());
    let ktext = vec![84u8, 101u8, 120u8, 116u8, 40u8];
    assert(ktext@ =~= kw_text());
    let kbutton = vec![66u8, 117u8, 116u8, 116u8, 111u8, 110u8, 40u8];
    assert(kbutton@ =~= kw_button());
    let kslider = vec![83u8, 108u8, 105u8, 100u8, 101u8, 114u8, 40u8];
    assert(kslider@ =~= kw_slider());
    if match_at(s, i, &kcol) {
        let (cs, k) = match parse_list(s, i + 8) {
            Ok(x) => x,
            Err(e) => {
                return Err(e);
            },
        };
        if k < n && s[k] == 93 && k + 1 < n && s[k + 1] == 41 {
            Ok((Element::Column(cs), k + 2))
        } else {
            Err(SchemaError::Unterminated)
        }
    } else if match_at(s, i, &krow) {
        let (cs, k) = match parse_list(s, i + 5) {
            Ok(x) => x,
            Err(e) => {
                return Err(e);
            },
        };
        if k < n && s[k] == 93 && k + 1 < n && s[k + 1] == 41 {
            Ok((Element::Row(cs), k + 2))
        } else {
            Err(SchemaError::Unterminated)
        }
    } else if match_at(s, i, &ktext) {
        let (t, j) = match parse_quoted(s, i + 5) {
            Ok(x) => x,
            Err(e) => {
                return Err(e);
            },
        };
        if j < n && s[j] == 41 {
            Ok((Element::Text(t), j + 1))
        } else {
            Err(SchemaError::Unterminated)
        }
    } else if match_at(s, i, &kbutton) {
        let (c, j) = match parse_elem(s, i + 7) {
            Ok(x) => x,
            Err(e) => {
                return Err(e);
            },
        };
        if j < n && s[j] == 44 {
            let (cb, k) = match parse_quoted(s, j + 1) {
                Ok(x) => x,
                Err(e) => {
                    return Err(e);
                },
            };
            if k < n && s[k] == 41 {
                Ok((Element::Button { content: Box::new(c), callback_name: cb }, k + 1))
            } else {
                Err(SchemaError::Unterminated)
            }
        } else {
            Err(SchemaError::Unterminated)
        }
    } else if match_at(s, i, &kslider) {
        let (vn, j) = match parse_quoted(s, i + 7) {
            Ok(x) => x,
            Err(e) => {
                return Err(e);
            },
        };
        if j < n && s[j] == 44 {
            let (lo, k) = match parse_fixed(s, j + 1) {
                Some(x) => x,
                None => {
                    return Err(SchemaError::BadNumber);
                },
            };
            let kdots = vec![46u8, 46u8, 61u8];
            assert(kdots@ =~= seq![46u8, 46u8, 61u8]);
            if match_at(s, k, &kdots) {
                let (hi, l) = match parse_fixed(s, k + 3) {
                    Some(x) => x,
                    None => {
                        return Err(SchemaError::BadNumber);
                    },
                };
                if lo.thousandths > hi.thousandths {
                    Err(SchemaError::MalformedRange)
                } else if l < n && s[l] == 44 {
                    let (cb, p) = match parse_quoted(s, l + 1) {
                        Ok(x) => x,
                        Err(e) => {
                            return Err(e);
                        },
                    };
                    if p < n && s[p] == 41 {
                        Ok(
                            (
                                Element::Slider {
                                    value_name: vn,
                                    range_lo: lo,
                                    range_hi: hi,
                                    callback_name: cb,
                                },
                                p + 1,
                            ),
                        )
                    } else {
                        Err(SchemaError::Unterminated)
                    }
                } else {
                    Err(SchemaError::Unterminated)
                }
            } else {
                Err(SchemaError::Unterminated)
            }
        } else {
            Err(SchemaError::Unterminated)
        }
    } else {
        Err(SchemaError::UnknownVariant)
    }
}

/// Reads a comma-separated list of elements, as `spec_parse_list` says.
pub fn parse_list(s: &Vec<u8>, i: usize) -> (r: Result<(Vec<Element>, usize), SchemaError>)
    ensures
        match r {
            Ok((v, k)) => spec_parse_list(s@, i as int) == Ok::<_, SchemaError>(
                (view_elems(v@), k as int),
            ) && i <= k <= s@.len(),
            Err(er) => spec_parse_list(s@, i as int) == Err::<(Seq<ElemModel>, int), _>(er),
        },
    decreases s@.len() - i, 1int,
{
    let n: usize = s.len();
    if i >= n {
        return Err(SchemaError::Unterminated);
    }
    if s[i] == 93 {
        let v: Vec<Element> = Vec::new();
        assert(view_elems(v@) =~= Seq::<ElemModel>::empty());
        return Ok((v, i));
    }
    let (e0, j) = match parse_elem(s, i) {
        Ok(x) => x,
        Err(e) => {
            return Err(e);
        },
    };
    if j < n && s[j] == 44 {
        let (mut ms, k) = match parse_list(s, j + 1) {
            Ok(x) => x,
            Err(e) => {
                return Err(e);
            },
        };
        let ghost msv = ms@;
        let mut v: Vec<Element> = Vec::new();
        v.push(e0);
        v.append(&mut ms);
        proof {
            let e0v = v@[0].view();
            lemma_view_elems(v@);
            lemma_view_elems(msv);
            assert(msv =~= v@.drop_first());
            assert forall|t: int| 0 <= t < msv.len() implies view_elems(msv)[t] == view_elems(
                v@,
            )[t + 1] by {
                assert(msv[t] == v@[t + 1]);
                assert(view_elems(msv)[t] == msv[t].view());
                assert(view_elems(v@)[t + 1] == v@[t + 1].view());
            }
            assert(view_elems(v@) =~= seq![e0v] + view_elems(msv));
        }
        Ok((v, k))
    } else {
        let mut v: Vec<Element> = Vec::new();
        v.push(e0);
        proof {
            lemma_view_elems(v@);
            assert(view_elems(v@) =~= seq![v@[0].view()]);
        }
        Ok((v, j))
    }
}

/// Reads a whole layout, as `spec_parse_root` says.
pub fn parse_root(s: &Vec<u8>) -> (r: Result<Root, SchemaError>)
    ensures
        match r {
            Ok(root) => spec_parse_root(s@) == Ok::<_, SchemaError>(root.root.view()),
            Err(e) => spec_parse_root(s@) == Err::<ElemModel, _>(e),
        },
{
    let n: usize = s.len();
    let kroot = vec![82u8, 111u8, 111u8, 116u8, 40u8];
    assert(kroot@ =~= kw_root());
    if !match_at(s, 0, &kroot) {
        return Err(SchemaError::UnknownVariant);
    }
    let (m, j) = match parse_elem(s, 5) {
        Ok(x) => x,
        Err(e) => {
            return Err(e);
        },
    };
    if j < n && s[j] == 41 {
        if j + 1 == n {
            Ok(Root { root: m })
        } else {
            Err(SchemaError::Trailing)
        }
    } else {
        Err(SchemaError::Unterminated)
    }
}

} // verus!
