//! The element tree model: the recursive description of a UI layout,
//! its mathematical view, and its textual serialization.

use vstd::prelude::*;
use crate::num::Fixed;

verus! {

/// A node of the layout tree.
#[derive(Debug, PartialEq)]
pub enum Element {
    /// Vertical container of child elements, in order.
    Column(Vec<Element>),
    /// Horizontal container of child elements, in order.
    Row(Vec<Element>),
    /// A leaf holding literal text.
    Text(Vec<u8>),
    /// A pressable button wrapping a content element.
    Button { content: Box<Element>, callback_name: Vec<u8> },
    /// A draggable slider bound to a named state field.
    Slider { value_name: Vec<u8>, range_lo: Fixed, range_hi: Fixed, callback_name: Vec<u8> },
}

/// The top-level parse target: a single root element.
#[derive(Debug, PartialEq)]
pub struct Root {
    pub root: Element,
}

/// Mathematical view of an element tree.
pub enum ElemModel {
    Column(Seq<ElemModel>),
    Row(Seq<ElemModel>),
    Text(Seq<u8>),
    Button { content: Box<ElemModel>, callback_name: Seq<u8> },
    Slider { value_name: Seq<u8>, lo: nat, hi: nat, callback_name: Seq<u8> },
}

impl Element {
    /// The mathematical view of this element.
    pub open spec fn view(self) -> ElemModel
        decreases self,
    {
        match self {
            Element::Column(cs) => ElemModel::Column(view_elems(cs@)),
            Element::Row(cs) => ElemModel::Row(view_elems(cs@)),
            Element::Text(s) => ElemModel::Text(s@),
            Element::Button { content, callback_name } => ElemModel::Button {
                content: Box::new((*content).view()),
                callback_name: callback_name@,
            },
            Element::Slider { value_name, range_lo, range_hi, callback_name } => {
                ElemModel::Slider {
                    value_name: value_name@,
                    lo: range_lo.value(),
                    hi: range_hi.value(),
                    callback_name: callback_name@,
                }
            },
        }
    }
}

/// The views of a sequence of elements, in order.
pub open spec fn view_elems(cs: Seq<Element>) -> Seq<ElemModel>
    decreases cs,
{
    if cs.len() == 0 {
        Seq::empty()
    } else {
        view_elems(cs.drop_last()).push(cs.last().view())
    }
}

/// Well-formedness of a tree: quoted strings carry no quote byte, and
/// every slider range is ordered with bounds that fit the numeric model.
pub open spec fn wf_model(m: ElemModel) -> bool
    decreases m,
{
    match m {
        ElemModel::Column(cs) => wf_models(cs),
        ElemModel::Row(cs) => wf_models(cs),
        ElemModel::Text(s) => no_quote(s),
        ElemModel::Button { content, callback_name } => wf_model(*content) && no_quote(
            callback_name,
        ),
        ElemModel::Slider { value_name, lo, hi, callback_name } => no_quote(value_name)
            && no_quote(callback_name) && lo <= hi <= u64::MAX,
    }
}

/// Well-formedness of every element of a sequence.
pub open spec fn wf_models(cs: Seq<ElemModel>) -> bool
    decreases cs,
{
    if cs.len() == 0 {
        true
    } else {
        wf_model(cs[0]) && wf_models(cs.drop_first())
    }
}

/// A byte string that may stand between quotes: it holds no quote byte.
pub open spec fn no_quote(s: Seq<u8>) -> bool {
    forall|j: int| 0 <= j < s.len() ==> s[j] != 34
}

/// `view_elems` maps the sequence pointwise.
pub proof fn lemma_view_elems(cs: Seq<Element>)
    ensures
        view_elems(cs).len() == cs.len(),
        forall|i: int| 0 <= i < cs.len() ==> view_elems(cs)[i] == #[trigger] cs[i].view(),
    decreases cs.len(),
{
    if cs.len() > 0 {
        lemma_view_elems(cs.drop_last());
        assert forall|i: int| 0 <= i < cs.len() implies view_elems(cs)[i] == #[trigger] cs[i].view() by {
            if i < cs.len() - 1 {
                assert(view_elems(cs)[i] == view_elems(cs.drop_last())[i]);
                assert(cs.drop_last()[i] == cs[i]);
            } else {
                assert(cs.last() == cs[i]);
            }
        }
    }
}

/// The opening bytes of a column node: `Column([`.
pub open spec fn kw_column() -> Seq<u8> {
    seq![67u8, 111u8, 108u8, 117u8, 109u8, 110u8, 40u8, 91u8]
}

/// The opening bytes of a row node: `Row([`.
pub open spec fn kw_row() -> Seq<u8> {
    seq![82u8, 111u8, 119u8, 40u8, 91u8]
}

/// The opening bytes of a text node: `Text(`.
pub open spec fn kw_text() -> Seq<u8> {
    seq![84u8, 101u8, 120u8, 116u8, 40u8]
}

/// The opening bytes of a button node: `Button(`.
pub open spec fn kw_button() -> Seq<u8> {
    seq![66u8, 117u8, 116u8, 116u8, 111u8, 110u8, 40u8]
}

/// The opening bytes of a slider node: `Slider(`.
pub open spec fn kw_slider() -> Seq<u8> {
    seq![83u8, 108u8, 105u8, 100u8, 101u8, 114u8, 40u8]
}

/// The opening bytes of the top level: `Root(`.
pub open spec fn kw_root() -> Seq<u8> {
    seq![82u8, 111u8, 111u8, 116u8, 40u8]
}

/// A byte string between double quotes.
pub open spec fn quoted(s: Seq<u8>) -> Seq<u8> {
    seq![34u8] + s + seq![34u8]
}

/// Textual form of one element.
pub open spec fn spec_ser_elem(m: ElemModel) -> Seq<u8>
    decreases m,
{
    match m {
        ElemModel::Column(cs) => kw_column() + spec_ser_list(cs) + seq![93u8, 41u8],
        ElemModel::Row(cs) => kw_row() + spec_ser_list(cs) + seq![93u8, 41u8],
        ElemModel::Text(s) => kw_text() + quoted(s) + seq![41u8],
        ElemModel::Button { content, callback_name } => kw_button() + spec_ser_elem(*content)
            + seq![44u8] + quoted(callback_name) + seq![41u8],
        ElemModel::Slider { value_name, lo, hi, callback_name } => kw_slider() + quoted(value_name)
            + seq![44u8] + crate::num::spec_fmt_fixed(lo) + seq![46u8, 46u8, 61u8]
            + crate::num::spec_fmt_fixed(hi) + seq![44u8] + quoted(callback_name) + seq![41u8],
    }
}

/// Textual form of a comma-separated list of elements.
pub open spec fn spec_ser_list(cs: Seq<ElemModel>) -> Seq<u8>
    decreases cs,
{
    if cs.len() == 0 {
        Seq::empty()
    } else if cs.len() == 1 {
        spec_ser_elem(cs[0])
    } else {
        spec_ser_elem(cs[0]) + seq![44u8] + spec_ser_list(cs.drop_first())
    }
}

/// Textual form of a whole layout: `Root(` around the root element.
pub open spec fn spec_ser_root(m: ElemModel) -> Seq<u8> {
    kw_root() + spec_ser_elem(m) + seq![41u8]
}

/// Appending one element to a list appends its text after a comma.
pub proof fn lemma_ser_list_snoc(cs: Seq<ElemModel>, x: ElemModel)
    ensures
        spec_ser_list(cs.push(x)) == if cs.len() == 0 {
            spec_ser_elem(x)
        } else {
            spec_ser_list(cs) + seq![44u8] + spec_ser_elem(x)
        },
    decreases cs.len(),
{
    let p = cs.push(x);
    if cs.len() == 0 {
        assert(p.len() == 1 && p[0] == x);
    } else {
        lemma_ser_list_snoc(cs.drop_first(), x);
        assert(p.drop_first() =~= cs.drop_first().push(x));
        assert(p[0] == cs[0]);
        if cs.len() == 1 {
            assert(spec_ser_list(p) == spec_ser_elem(cs[0]) + seq![44u8] + spec_ser_elem(x));
            assert(spec_ser_list(cs) == spec_ser_elem(cs[0]));
        } else {
            assert(spec_ser_list(p) =~= spec_ser_list(cs) + seq![44u8] + spec_ser_elem(x));
        }
    }
}

/// Appends the quoted form of `s` to `out`.
fn push_quoted(out: &mut Vec<u8>, s: &Vec<u8>)
    ensures
        final(out)@ == old(out)@ + quoted(s@),
{
    out.push(34);
    let mut k: usize = 0;
    let n: usize = s.len();
    while k < n
        invariant
            k <= n,
            n == s@.len(),
            out@ == old(out)@ + seq![34u8] + s@.subrange(0, k as int),
        decreases n - k,
    {
        out.push(s[k]);
        k += 1;
        assert(out@ =~= old(out)@ + seq![34u8] + s@.subrange(0, k as int));
    }
    out.push(34);
    assert(s@.subrange(0, n as int) =~= s@);
    assert(out@ =~= old(out)@ + quoted(s@));
}

/// Appends the textual form of `e` to `out`.
pub fn ser_elem(e: &Element, out: &mut Vec<u8>)
    ensures
        final(out)@ == old(out)@ + spec_ser_elem(e.view()),
    decreases *e,
{
    match e {
        Element::Column(cs) => {
            out.push(67);
            out.push(111);
            out.push(108);
            out.push(117);
            out.push(109);
            out.push(110);
            out.push(40);
            out.push(91);
            assert(out@ =~= old(out)@ + kw_column());
            ser_children(cs, out);
            out.push(93);
            out.push(41);
            proof {
                lemma_view_elems(cs@);
            }
            assert(out@ =~= old(out)@ + spec_ser_elem(e.view()));
        },
        Element::Row(cs) => {
            out.push(82);
            out.push(111);
            out.push(119);
            out.push(40);
            out.push(91);
            assert(out@ =~= old(out)@ + kw_row());
            ser_children(cs, out);
            out.push(93);
            out.push(41);
            assert(out@ =~= old(out)@ + spec_ser_elem(e.view()));
        },
        Element::Text(s) => {
            out.push(84);
            out.push(101);
            out.push(120);
            out.push(116);
            out.push(40);
            assert(out@ =~= old(out)@ + kw_text());
            push_quoted(out, s);
            out.push(41);
            assert(out@ =~= old(out)@ + spec_ser_elem(e.view()));
        },
        Element::Button { content, callback_name } => {
            out.push(66);
            out.push(117);
            out.push(116);
            out.push(116);
            out.push(111);
            out.push(110);
            out.push(40);
            assert(out@ =~= old(out)@ + kw_button());
            ser_elem(content, out);
            out.push(44);
            push_quoted(out, callback_name);
            out.push(41);
            assert(out@ =~= old(out)@ + spec_ser_elem(e.view()));
        },
        Element::Slider { value_name, range_lo, range_hi, callback_name } => {
            out.push(83);
            out.push(108);
            out.push(105);
            out.push(100);
            out.push(101);
            out.push(114);
            out.push(40);
            assert(out@ =~= old(out)@ + kw_slider());
            push_quoted(out, value_name);
            out.push(44);
            let mut lo_bytes = range_lo.to_bytes();
            out.append(&mut lo_bytes);
            out.push(46);
            out.push(46);
            out.push(61);
            let mut hi_bytes = range_hi.to_bytes();
            out.append(&mut hi_bytes);
            out.push(44);
            push_quoted(out, callback_name);
            out.push(41);
            assert(out@ =~= old(out)@ + spec_ser_elem(e.view()));
        },
    }
}

/// Appends the comma-separated textual forms of `cs` to `out`.
fn ser_children(cs: &Vec<Element>, out: &mut Vec<u8>)
    ensures
        final(out)@ == old(out)@ + spec_ser_list(view_elems(cs@)),
    decreases *cs,
{
    let n: usize = cs.len();
    let mut i: usize = 0;
    proof {
        lemma_view_elems(cs@);
        assert(view_elems(cs@.subrange(0, 0)) =~= Seq::<ElemModel>::empty());
    }
    while i < n
        invariant
            i <= n,
            n == cs@.len(),
            out@ == old(out)@ + spec_ser_list(view_elems(cs@.subrange(0, i as int))),
            forall|j: int| 0 <= j < cs@.len() ==> view_elems(cs@)[j] == #[trigger] cs@[j].view(),
            view_elems(cs@).len() == cs@.len(),
        decreases n - i,
    {
        if i > 0 {
            out.push(44);
        }
        ser_elem(&cs[i], out);
        proof {
            let pre = cs@.subrange(0, i as int);
            let post = cs@.subrange(0, i + 1);
            lemma_view_elems(pre);
            lemma_view_elems(post);
            assert(post =~= pre.push(cs@[i as int]));
            assert(post.drop_last() =~= pre);
            assert(post.last() == cs@[i as int]);
            assert(view_elems(post) =~= view_elems(pre).push(cs@[i as int].view()));
            lemma_ser_list_snoc(view_elems(pre), cs@[i as int].view());
            assert(out@ =~= old(out)@ + spec_ser_list(view_elems(post)));
        }
        i += 1;
    }
    assert(cs@.subrange(0, n as int) =~= cs@);
}

/// The textual form of a whole layout, as a fresh byte vector.
pub fn serialize_root(r: &Root) -> (out: Vec<u8>)
    ensures
        out@ == spec_ser_root(r.root.view()),
{
    let mut out: Vec<u8> = Vec::new();
    out.push(82);
    out.push(111);
    out.push(111);
    out.push(116);
    out.push(40);
    assert(out@ =~= kw_root());
    ser_elem(&r.root, &mut out);
    out.push(41);
    assert(out@ =~= spec_ser_root(r.root.view()));
    out
}

} // verus!
