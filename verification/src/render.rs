//! The element materializer: a depth-first walk of an element tree that
//! assigns every node its structural path, resolves or creates its
//! interaction record in the ephemeral state store, resolves slider
//! value bindings against the application state, and emits a parallel
//! tree of renderable elements.

use vstd::prelude::*;
use crate::num::Fixed;
use crate::state::{StateMap, Value, ValModel, find_val, copy_bytes};
use crate::store::{
    StateStore, Path, PathSeg, WidgetState, WidgetKind, StoreError, kind_of, default_state,
};
use crate::tree::{Element, ElemModel, view_elems, lemma_view_elems};

verus! {

/// A renderable element handed to the host. Interactive nodes carry
/// their callback name and the current interaction record; the host
/// resolves the callback through the message schema when the
/// interaction fires.
#[derive(Debug, PartialEq)]
pub enum RenderNode {
    Column(Vec<RenderNode>),
    Row(Vec<RenderNode>),
    Text(Vec<u8>),
    Button { content: Box<RenderNode>, callback_name: Vec<u8>, pressed: bool },
    Slider {
        value: Fixed,
        range_lo: Fixed,
        range_hi: Fixed,
        callback_name: Vec<u8>,
        dragging: bool,
    },
}

/// Mathematical view of a renderable tree.
pub enum RenderModel {
    Column(Seq<RenderModel>),
    Row(Seq<RenderModel>),
    Text(Seq<u8>),
    Button { content: Box<RenderModel>, callback_name: Seq<u8>, pressed: bool },
    Slider { value: nat, lo: nat, hi: nat, callback_name: Seq<u8>, dragging: bool },
}

impl RenderNode {
    /// The mathematical view of this renderable element.
    pub open spec fn view(self) -> RenderModel
        decreases self,
    {
        match self {
            RenderNode::Column(cs) => RenderModel::Column(view_rnodes(cs@)),
            RenderNode::Row(cs) => RenderModel::Row(view_rnodes(cs@)),
            RenderNode::Text(s) => RenderModel::Text(s@),
            RenderNode::Button { content, callback_name, pressed } => RenderModel::Button {
                content: Box::new((*content).view()),
                callback_name: callback_name@,
                pressed: pressed,
            },
            RenderNode::Slider { value, range_lo, range_hi, callback_name, dragging } => {
                RenderModel::Slider {
                    value: value.value(),
                    lo: range_lo.value(),
                    hi: range_hi.value(),
                    callback_name: callback_name@,
                    dragging: dragging,
                }
            },
        }
    }
}

/// The views of a sequence of renderable elements, in order.
pub open spec fn view_rnodes(cs: Seq<RenderNode>) -> Seq<RenderModel>
    decreases cs,
{
    if cs.len() == 0 {
        Seq::empty()
    } else {
        view_rnodes(cs.drop_last()).push(cs.last().view())
    }
}

/// Why a render attempt was aborted.
#[derive(Debug, Clone, Copy, PartialEq, Eq, Structural)]
pub enum MatError {
    /// A slider names a field absent from the application state.
    FieldNotFound,
    /// A slider names a field that is not numeric.
    FieldNotNumeric,
    /// The record at a path belongs to another widget kind.
    KindMismatch,
}

/// What `get_or_create` yields on a store map: the existing record when
/// the kinds agree, a fresh default record otherwise, or a mismatch.
pub open spec fn spec_goc(
    store: Map<Seq<PathSeg>, WidgetState>,
    p: Seq<PathSeg>,
    k: WidgetKind,
) -> Result<(WidgetState, Map<Seq<PathSeg>, WidgetState>), MatError> {
    if store.contains_key(p) {
        if kind_of(store[p]) == k {
            Ok((store[p], store))
        } else {
            Err(MatError::KindMismatch)
        }
    } else {
        Ok((default_state(k), store.insert(p, default_state(k))))
    }
}

/// The path step for child `idx` of a column or row.
pub open spec fn child_seg(row: bool, idx: int) -> PathSeg {
    if row {
        PathSeg::RowChild(idx as usize)
    } else {
        PathSeg::ColumnChild(idx as usize)
    }
}

/// Materializes one element at structural path `p`: the renderable
/// element plus the store as the walk leaves it.
pub open spec fn spec_mat(
    m: ElemModel,
    st: Seq<(Seq<u8>, ValModel)>,
    store: Map<Seq<PathSeg>, WidgetState>,
    p: Seq<PathSeg>,
) -> Result<(RenderModel, Map<Seq<PathSeg>, WidgetState>), MatError>
    decreases m,
{
    match m {
        ElemModel::Column(cs) => match spec_mat_children(cs, st, store, p, false, 0) {
            Err(e) => Err(e),
            Ok((rs, store1)) => Ok((RenderModel::Column(rs), store1)),
        },
        ElemModel::Row(cs) => match spec_mat_children(cs, st, store, p, true, 0) {
            Err(e) => Err(e),
            Ok((rs, store1)) => Ok((RenderModel::Row(rs), store1)),
        },
        ElemModel::Text(s) => Ok((RenderModel::Text(s), store)),
        ElemModel::Button { content, callback_name } => {
            let pb = p.push(PathSeg::Button);
            match spec_goc(store, pb, WidgetKind::Button) {
                Err(e) => Err(e),
                Ok((w, store1)) => match spec_mat(*content, st, store1, pb) {
                    Err(e) => Err(e),
                    Ok((rc, store2)) => Ok(
                        (
                            RenderModel::Button {
                                content: Box::new(rc),
                                callback_name: callback_name,
                                pressed: w matches WidgetState::Button(bs) && bs.pressed,
                            },
                            store2,
                        ),
                    ),
                },
            }
        },
        ElemModel::Slider { value_name, lo, hi, callback_name } => {
            let ps = p.push(PathSeg::Slider);
            match spec_goc(store, ps, WidgetKind::Slider) {
                Err(e) => Err(e),
                Ok((w, store1)) => match find_val(st, value_name) {
                    None => Err(MatError::FieldNotFound),
                    Some(v) => match v {
                        ValModel::Num(x) => Ok(
                            (
                                RenderModel::Slider {
                                    value: x,
                                    lo: lo,
                                    hi: hi,
                                    callback_name: callback_name,
                                    dragging: w matches WidgetState::Slider(ss) && ss.dragging,
                                },
                                store1,
                            ),
                        ),
                        _ => Err(MatError::FieldNotNumeric),
                    },
                },
            }
        },
    }
}

/// Materializes the children `cs`, whose first element sits at child
/// index `idx` of the column or row at path `p`.
pub open spec fn spec_mat_children(
    cs: Seq<ElemModel>,
    st: Seq<(Seq<u8>, ValModel)>,
    store: Map<Seq<PathSeg>, WidgetState>,
    p: Seq<PathSeg>,
    row: bool,
    idx: int,
) -> Result<(Seq<RenderModel>, Map<Seq<PathSeg>, WidgetState>), MatError>
    decreases cs,
{
    if cs.len() == 0 {
        Ok((Seq::empty(), store))
    } else {
        match spec_mat(cs[0], st, store, p.push(child_seg(row, idx))) {
            Err(e) => Err(e),
            Ok((r0, store1)) => match spec_mat_children(
                cs.drop_first(),
                st,
                store1,
                p,
                row,
                idx + 1,
            ) {
                Err(e) => Err(e),
                Ok((rs, store2)) => Ok((seq![r0] + rs, store2)),
            },
        }
    }
}

/// A partial walk outcome: renderables already emitted, followed by
/// whatever the rest of the walk yields.
pub open spec fn mat_children_result(
    prefix: Seq<RenderModel>,
    r: Result<(Seq<RenderModel>, Map<Seq<PathSeg>, WidgetState>), MatError>,
) -> Result<(Seq<RenderModel>, Map<Seq<PathSeg>, WidgetState>), MatError> {
    match r {
        Ok((rs, store1)) => Ok((prefix + rs, store1)),
        Err(e) => Err(e),
    }
}

/// Materializes one element, as `spec_mat` says. The store may keep
/// records created before a failure; `materialize` rolls that back.
fn materialize_at(e: &Element, st: &StateMap, store: &mut StateStore, path: &Path) -> (r: Result<
    RenderNode,
    MatError,
>)
    requires
        old(store).wf(),
    ensures
        final(store).wf(),
        match r {
            Ok(rn) => spec_mat(e.view(), st.view(), old(store)@, path@) == Ok::<_, MatError>(
                (rn.view(), final(store)@),
            ),
            Err(er) => spec_mat(e.view(), st.view(), old(store)@, path@) == Err::<
                (RenderModel, Map<Seq<PathSeg>, WidgetState>),
                _,
            >(er),
        },
    decreases *e,
{
    match e {
        Element::Column(cs) => {
            match materialize_children(cs, st, store, path, false) {
                Ok(v) => Ok(RenderNode::Column(v)),
                Err(er) => Err(er),
            }
        },
        Element::Row(cs) => {
            match materialize_children(cs, st, store, path, true) {
                Ok(v) => Ok(RenderNode::Row(v)),
                Err(er) => Err(er),
            }
        },
        Element::Text(s) => Ok(RenderNode::Text(copy_bytes(s))),
        Element::Button { content, callback_name } => {
            let pb = path.child(PathSeg::Button);
            let w = match store.get_or_create(&pb, WidgetKind::Button) {
                Ok(w) => w,
                Err(StoreError::KindMismatch) => {
                    return Err(MatError::KindMismatch);
                },
            };
            let pressed = match w {
                WidgetState::Button(bs) => bs.pressed,
                WidgetState::Slider(_) => {
                    proof {
                        assert(false);
                    }
                    false
                },
            };
            match materialize_at(content, st, store, &pb) {
                Ok(rc) => Ok(
                    RenderNode::Button {
                        content: Box::new(rc),
                        callback_name: copy_bytes(callback_name),
                        pressed,
                    },
                ),
                Err(er) => Err(er),
            }
        },
        Element::Slider { value_name, range_lo, range_hi, callback_name } => {
            let ps = path.child(PathSeg::Slider);
            let w = match store.get_or_create(&ps, WidgetKind::Slider) {
                Ok(w) => w,
                Err(StoreError::KindMismatch) => {
                    return Err(MatError::KindMismatch);
                },
            };
            let dragging = match w {
                WidgetState::Slider(ss) => ss.dragging,
                WidgetState::Button(_) => {
                    proof {
                        assert(false);
                    }
                    false
                },
            };
            let value = match st.get(value_name) {
                None => {
                    return Err(MatError::FieldNotFound);
                },
                Some(v) => match v {
                    Value::Num(x) => *x,
                    Value::Bool(_) => {
                        return Err(MatError::FieldNotNumeric);
                    },
                    Value::Text(_) => {
                        return Err(MatError::FieldNotNumeric);
                    },
                },
            };
            Ok(
                RenderNode::Slider {
                    value,
                    range_lo: *range_lo,
                    range_hi: *range_hi,
                    callback_name: copy_bytes(callback_name),
                    dragging,
                },
            )
        },
    }
}

/// Materializes the children of a column or row, as
/// `spec_mat_children` says.
#[verifier::loop_isolation(false)]
fn materialize_children(
    cs: &Vec<Element>,
    st: &StateMap,
    store: &mut StateStore,
    path: &Path,
    row: bool,
) -> (r: Result<Vec<RenderNode>, MatError>)
    requires
        old(store).wf(),
    ensures
        final(store).wf(),
        match r {
            Ok(v) => spec_mat_children(view_elems(cs@), st.view(), old(store)@, path@, row, 0)
                == Ok::<_, MatError>((view_rnodes(v@), final(store)@)),
            Err(er) => spec_mat_children(view_elems(cs@), st.view(), old(store)@, path@, row, 0)
                == Err::<(Seq<RenderModel>, Map<Seq<PathSeg>, WidgetState>), _>(er),
        },
    decreases *cs,
{
    let ghost views = view_elems(cs@);
    let ghost stv = st.view();
    let ghost store0 = old(store)@;
    let ghost pv = path@;
    let n: usize = cs.len();
    let mut out: Vec<RenderNode> = Vec::new();
    let mut i: usize = 0;
    proof {
        lemma_view_elems(cs@);
        assert(views.skip(0) =~= views);
        assert(view_rnodes(out@) =~= Seq::<RenderModel>::empty());
    }
    while i < n
        invariant
            i <= n,
            n == cs@.len(),
            store.wf(),
            views == view_elems(cs@),
            views.len() == n,
            forall|j: int| 0 <= j < n ==> views[j] == #[trigger] cs@[j].view(),
            stv == st.view(),
            pv == path@,
            spec_mat_children(views, stv, store0, pv, row, 0) == mat_children_result(
                view_rnodes(out@),
                spec_mat_children(views.skip(i as int), stv, store@, pv, row, i as int),
            ),
        decreases n - i,
    {
        let ghost out0 = out@;
        let ghost storemid = store@;
        let seg = if row {
            PathSeg::RowChild(i)
        } else {
            PathSeg::ColumnChild(i)
        };
        let pc = path.child(seg);
        proof {
            assert(pc@ == pv.push(child_seg(row, i as int)));
            assert(views.skip(i as int)[0] == views[i as int]);
            assert(views.skip(i as int).drop_first() =~= views.skip(i + 1));
        }
        match materialize_at(&cs[i], st, store, &pc) {
            Ok(rn) => {
                let ghost rnv = rn.view();
                out.push(rn);
                proof {
                    assert(out@.drop_last() =~= out0);
                    assert(view_rnodes(out@) =~= view_rnodes(out0).push(rnv));
                    match spec_mat_children(views.skip(i + 1), stv, store@, pv, row, i + 1) {
                        Ok((rs, sf)) => {
                            assert(view_rnodes(out0) + (seq![rnv] + rs) =~= view_rnodes(out@) + rs);
                        },
                        Err(_) => {},
                    }
                }
                i += 1;
            },
            Err(er) => {
                proof {
                    assert(views.skip(i as int).len() > 0);
                    assert(spec_mat(views[i as int], stv, storemid, pv.push(child_seg(row, i as int)))
                        == Err::<(RenderModel, Map<Seq<PathSeg>, WidgetState>), _>(er));
                    assert(spec_mat_children(views.skip(i as int), stv, storemid, pv, row, i as int)
                        == Err::<(Seq<RenderModel>, Map<Seq<PathSeg>, WidgetState>), _>(er));
                    assert(spec_mat_children(views, stv, store0, pv, row, 0) == mat_children_result(
                        view_rnodes(out0),
                        spec_mat_children(views.skip(i as int), stv, storemid, pv, row, i as int),
                    ));
                    assert(spec_mat_children(views, stv, store0, pv, row, 0) == Err::<
                        (Seq<RenderModel>, Map<Seq<PathSeg>, WidgetState>),
                        _,
                    >(er));
                    assert(views == view_elems(cs@) && stv == st.view() && pv == path@);
                }
                return Err(er);
            },
        }
    }
    proof {
        assert(views.skip(n as int) =~= Seq::<ElemModel>::empty());
        assert(view_rnodes(out@) + Seq::<RenderModel>::empty() =~= view_rnodes(out@));
    }
    Ok(out)
}

/// `a` is contained in `b`: every record of `a` stands in `b` unchanged.
pub open spec fn submap(
    a: Map<Seq<PathSeg>, WidgetState>,
    b: Map<Seq<PathSeg>, WidgetState>,
) -> bool {
    forall|k: Seq<PathSeg>| #[trigger] a.contains_key(k) ==> b.contains_key(k) && b[k] == a[k]
}

/// Containment of store maps is transitive.
pub proof fn lemma_submap_trans(
    a: Map<Seq<PathSeg>, WidgetState>,
    b: Map<Seq<PathSeg>, WidgetState>,
    c: Map<Seq<PathSeg>, WidgetState>,
)
    requires
        submap(a, b),
        submap(b, c),
    ensures
        submap(a, c),
{
    assert forall|k: Seq<PathSeg>| #[trigger] a.contains_key(k) implies c.contains_key(k) && c[k]
        == a[k] by {
        assert(b.contains_key(k) && b[k] == a[k]);
        assert(c.contains_key(k) && c[k] == b[k]);
    }
}

/// The walk only adds records: every record present before a
/// successful materialization is present afterwards, unchanged.
pub proof fn lemma_mat_monotone(
    m: ElemModel,
    st: Seq<(Seq<u8>, ValModel)>,
    store: Map<Seq<PathSeg>, WidgetState>,
    p: Seq<PathSeg>,
)
    ensures
        spec_mat(m, st, store, p) matches Ok((r, store1)) ==> submap(store, store1),
    decreases m,
{
    match m {
        ElemModel::Column(cs) => {
            lemma_mat_children_monotone(cs, st, store, p, false, 0);
        },
        ElemModel::Row(cs) => {
            lemma_mat_children_monotone(cs, st, store, p, true, 0);
        },
        ElemModel::Text(_) => {},
        ElemModel::Button { content, callback_name } => {
            let pb = p.push(PathSeg::Button);
            match spec_goc(store, pb, WidgetKind::Button) {
                Ok((w, store1)) => {
                    assert(submap(store, store1));
                    lemma_mat_monotone(*content, st, store1, pb);
                    match spec_mat(*content, st, store1, pb) {
                        Ok((_, store2)) => {
                            lemma_submap_trans(store, store1, store2);
                        },
                        Err(_) => {},
                    }
                },
                Err(_) => {},
            }
        },
        ElemModel::Slider { .. } => {
            let ps = p.push(PathSeg::Slider);
            match spec_goc(store, ps, WidgetKind::Slider) {
                Ok((w, store1)) => {
                    assert(submap(store, store1));
                },
                Err(_) => {},
            }
        },
    }
}

/// `lemma_mat_monotone`, for a run of children.
pub proof fn lemma_mat_children_monotone(
    cs: Seq<ElemModel>,
    st: Seq<(Seq<u8>, ValModel)>,
    store: Map<Seq<PathSeg>, WidgetState>,
    p: Seq<PathSeg>,
    row: bool,
    idx: int,
)
    ensures
        spec_mat_children(cs, st, store, p, row, idx) matches Ok((rs, store1)) ==> submap(
            store,
            store1,
        ),
    decreases cs,
{
    if cs.len() > 0 {
        let pc = p.push(child_seg(row, idx));
        lemma_mat_monotone(cs[0], st, store, pc);
        match spec_mat(cs[0], st, store, pc) {
            Ok((_, store1)) => {
                lemma_mat_children_monotone(cs.drop_first(), st, store1, p, row, idx + 1);
                match spec_mat_children(cs.drop_first(), st, store1, p, row, idx + 1) {
                    Ok((_, store2)) => {
                        lemma_submap_trans(store, store1, store2);
                    },
                    Err(_) => {},
                }
            },
            Err(_) => {},
        }
    }
}

/// Once a walk has succeeded, any store that contains its resulting
/// records gives the very same renderable tree and is left untouched.
/// In particular a second walk over the store the first one produced
/// changes nothing: rendering is idempotent.
pub proof fn lemma_mat_stable(
    m: ElemModel,
    st: Seq<(Seq<u8>, ValModel)>,
    store: Map<Seq<PathSeg>, WidgetState>,
    p: Seq<PathSeg>,
    tau: Map<Seq<PathSeg>, WidgetState>,
)
    requires
        spec_mat(m, st, store, p) matches Ok((r, store1)) && submap(store1, tau),
    ensures
        spec_mat(m, st, tau, p) matches Ok((r2, tau2)) && spec_mat(m, st, store, p) matches Ok(
            (r, store1),
        ) && r2 == r && tau2 == tau,
    decreases m,
{
    match m {
        ElemModel::Column(cs) => {
            lemma_mat_children_stable(cs, st, store, p, false, 0, tau);
        },
        ElemModel::Row(cs) => {
            lemma_mat_children_stable(cs, st, store, p, true, 0, tau);
        },
        ElemModel::Text(_) => {},
        ElemModel::Button { content, callback_name } => {
            let pb = p.push(PathSeg::Button);
            match spec_goc(store, pb, WidgetKind::Button) {
                Ok((w, storea)) => {
                    lemma_mat_monotone(*content, st, storea, pb);
                    match spec_mat(*content, st, storea, pb) {
                        Ok((rc, store1)) => {
                            assert(storea.contains_key(pb) && storea[pb] == w);
                            assert(store1.contains_key(pb) && store1[pb] == w);
                            assert(tau.contains_key(pb) && tau[pb] == w);
                            assert(spec_goc(tau, pb, WidgetKind::Button) == Ok::<_, MatError>(
                                (w, tau),
                            ));
                            lemma_mat_stable(*content, st, storea, pb, tau);
                        },
                        Err(_) => {},
                    }
                },
                Err(_) => {},
            }
        },
        ElemModel::Slider { .. } => {
            let ps = p.push(PathSeg::Slider);
            match spec_goc(store, ps, WidgetKind::Slider) {
                Ok((w, storea)) => {
                    assert(storea.contains_key(ps) && storea[ps] == w);
                    assert(tau.contains_key(ps) && tau[ps] == w);
                    assert(spec_goc(tau, ps, WidgetKind::Slider) == Ok::<_, MatError>((w, tau)));
                },
                Err(_) => {},
            }
        },
    }
}

/// `lemma_mat_stable`, for a run of children.
pub proof fn lemma_mat_children_stable(
    cs: Seq<ElemModel>,
    st: Seq<(Seq<u8>, ValModel)>,
    store: Map<Seq<PathSeg>, WidgetState>,
    p: Seq<PathSeg>,
    row: bool,
    idx: int,
    tau: Map<Seq<PathSeg>, WidgetState>,
)
    requires
        spec_mat_children(cs, st, store, p, row, idx) matches Ok((rs, store1)) && submap(
            store1,
            tau,
        ),
    ensures
        spec_mat_children(cs, st, tau, p, row, idx) matches Ok((rs2, tau2)) && spec_mat_children(
            cs,
            st,
            store,
            p,
            row,
            idx,
        ) matches Ok((rs, store1)) && rs2 == rs && tau2 == tau,
    decreases cs,
{
    if cs.len() > 0 {
        let pc = p.push(child_seg(row, idx));
        match spec_mat(cs[0], st, store, pc) {
            Ok((r0, storea)) => {
                match spec_mat_children(cs.drop_first(), st, storea, p, row, idx + 1) {
                    Ok((rsr, store1)) => {
                        lemma_mat_children_monotone(cs.drop_first(), st, storea, p, row, idx + 1);
                        lemma_submap_trans(storea, store1, tau);
                        lemma_mat_stable(cs[0], st, store, pc, tau);
                        lemma_mat_children_stable(cs.drop_first(), st, storea, p, row, idx + 1, tau);
                    },
                    Err(_) => {},
                }
            },
            Err(_) => {},
        }
    }
}

/// A button whose record already stands in the store is rendered with
/// exactly that record, and the walk leaves the record in place: a
/// rebuild that keeps a button's structural position keeps its state.
pub proof fn lemma_button_record_reused(
    content: ElemModel,
    cb: Seq<u8>,
    st: Seq<(Seq<u8>, ValModel)>,
    store: Map<Seq<PathSeg>, WidgetState>,
    p: Seq<PathSeg>,
    bs: crate::store::ButtonState,
)
    requires
        store.contains_key(p.push(PathSeg::Button)),
        store[p.push(PathSeg::Button)] == WidgetState::Button(bs),
    ensures
        spec_mat(ElemModel::Button { content: Box::new(content), callback_name: cb }, st, store, p) matches Ok(
            (rm, store2),
        ) ==> {
            &&& rm matches RenderModel::Button { pressed, .. } && pressed == bs.pressed
            &&& store2.contains_key(p.push(PathSeg::Button))
            &&& store2[p.push(PathSeg::Button)] == WidgetState::Button(bs)
        },
{
    let pb = p.push(PathSeg::Button);
    let m = ElemModel::Button { content: Box::new(content), callback_name: cb };
    match spec_mat(m, st, store, p) {
        Ok((rm, store2)) => {
            assert(spec_goc(store, pb, WidgetKind::Button) == Ok::<_, MatError>(
                (WidgetState::Button(bs), store),
            ));
            lemma_mat_monotone(content, st, store, pb);
        },
        Err(_) => {},
    }
}

/// Materializes a whole element tree at path `p`, atomically: on
/// success the store holds every record the walk touched or created; on
/// failure the store is exactly as it was before the call.
pub fn materialize(e: &Element, st: &StateMap, store: &mut StateStore, path: &Path) -> (r: Result<
    RenderNode,
    MatError,
>)
    requires
        old(store).wf(),
    ensures
        final(store).wf(),
        match r {
            Ok(rn) => spec_mat(e.view(), st.view(), old(store)@, path@) == Ok::<_, MatError>(
                (rn.view(), final(store)@),
            ),
            Err(er) => spec_mat(e.view(), st.view(), old(store)@, path@) == Err::<
                (RenderModel, Map<Seq<PathSeg>, WidgetState>),
                _,
            >(er) && final(store)@ == old(store)@,
        },
{
    let mut scratch = store.duplicate();
    match materialize_at(e, st, &mut scratch, path) {
        Ok(rn) => {
            *store = scratch;
            Ok(rn)
        },
        Err(er) => Err(er),
    }
}

} // verus!
