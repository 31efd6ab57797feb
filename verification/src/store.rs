//! The ephemeral state store: a structural-path-keyed map of per-widget
//! interaction records. Entries are created lazily on first
//! materialization of a path, are never removed, and survive reloads;
//! a record is handed out by value and written back whole, so no two
//! borrows of the store are ever in flight at once.

use vstd::prelude::*;

verus! {

/// One step of a structural path through the element tree.
#[derive(Debug, Clone, Copy, PartialEq, Eq, Structural)]
pub enum PathSeg {
    /// Child `i` of a column.
    ColumnChild(usize),
    /// Child `i` of a row.
    RowChild(usize),
    /// The button at the current position.
    Button,
    /// The slider at the current position.
    Slider,
}

/// A structural path: the identity key for ephemeral state. Positions
/// that keep their shape across rebuilds keep their path, and with it
/// their interaction record.
#[derive(Debug)]
pub struct Path {
    pub segs: Vec<PathSeg>,
}

impl Path {
    /// The mathematical view: the sequence of steps from the root.
    pub open spec fn view(self) -> Seq<PathSeg> {
        self.segs@
    }

    /// The path of the root element.
    pub fn root() -> (r: Path)
        ensures
            r@ =~= Seq::<PathSeg>::empty(),
    {
        Path { segs: Vec::new() }
    }

    /// An exact copy of this path.
    pub fn duplicate(&self) -> (r: Path)
        ensures
            r@ == self@,
    {
        let n: usize = self.segs.len();
        let mut segs: Vec<PathSeg> = Vec::new();
        let mut k: usize = 0;
        while k < n
            invariant
                k <= n,
                n == self.segs@.len(),
                segs@ == self.segs@.subrange(0, k as int),
            decreases n - k,
        {
            segs.push(self.segs[k]);
            k += 1;
            assert(segs@ =~= self.segs@.subrange(0, k as int));
        }
        assert(segs@ =~= self.segs@);
        Path { segs }
    }

    /// This path extended by one step.
    pub fn child(&self, seg: PathSeg) -> (r: Path)
        ensures
            r@ == self@.push(seg),
    {
        let mut p = self.duplicate();
        p.segs.push(seg);
        p
    }
}

/// Equality of two paths, step for step.
pub fn path_eq(a: &Path, b: &Path) -> (r: bool)
    ensures
        r == (a@ == b@),
{
    let n: usize = a.segs.len();
    if n != b.segs.len() {
        assert(a@ != b@);
        return false;
    }
    let mut k: usize = 0;
    while k < n
        invariant
            k <= n,
            n == a.segs@.len(),
            n == b.segs@.len(),
            forall|j: int| 0 <= j < k ==> a.segs@[j] == b.segs@[j],
        decreases n - k,
    {
        if a.segs[k] != b.segs[k] {
            return false;
        }
        k += 1;
    }
    assert(a@ =~= b@);
    true
}

/// The interaction record of a button: whether it is held pressed.
#[derive(Debug, Clone, Copy, PartialEq, Eq, Structural)]
pub struct ButtonState {
    pub pressed: bool,
}

/// The interaction record of a slider: whether it is being dragged.
#[derive(Debug, Clone, Copy, PartialEq, Eq, Structural)]
pub struct SliderState {
    pub dragging: bool,
}

/// A per-widget interaction record, tagged by widget kind.
#[derive(Debug, Clone, Copy, PartialEq, Eq, Structural)]
pub enum WidgetState {
    Button(ButtonState),
    Slider(SliderState),
}

/// The kind of widget a record belongs to.
#[derive(Debug, Clone, Copy, PartialEq, Eq, Structural)]
pub enum WidgetKind {
    Button,
    Slider,
}

/// The kind a record is tagged with.
pub open spec fn kind_of(w: WidgetState) -> WidgetKind {
    match w {
        WidgetState::Button(_) => WidgetKind::Button,
        WidgetState::Slider(_) => WidgetKind::Slider,
    }
}

/// The fresh record for a widget kind.
pub open spec fn default_state(k: WidgetKind) -> WidgetState {
    match k {
        WidgetKind::Button => WidgetState::Button(ButtonState { pressed: false }),
        WidgetKind::Slider => WidgetState::Slider(SliderState { dragging: false }),
    }
}

/// A record request that could not be served.
#[derive(Debug, Clone, Copy, PartialEq, Eq, Structural)]
pub enum StoreError {
    /// The record at this path belongs to another widget kind: the
    /// path scheme no longer fits the tree shape.
    KindMismatch,
}

/// The map a sequence of entries stands for, later entries winning.
pub open spec fn map_of(s: Seq<(Seq<PathSeg>, WidgetState)>) -> Map<Seq<PathSeg>, WidgetState>
    decreases s.len(),
{
    if s.len() == 0 {
        Map::empty()
    } else {
        map_of(s.drop_last()).insert(s.last().0, s.last().1)
    }
}

/// The ephemeral state store itself.
#[derive(Debug)]
pub struct StateStore {
    entries: Vec<(Path, WidgetState)>,
}

impl StateStore {
    /// The view of the entries: path view paired with record.
    pub closed spec fn entries_view(self) -> Seq<(Seq<PathSeg>, WidgetState)> {
        Seq::new(self.entries@.len(), |i: int| (self.entries@[i].0@, self.entries@[i].1))
    }

    /// The mathematical view: a map from structural path to record.
    pub closed spec fn view(self) -> Map<Seq<PathSeg>, WidgetState> {
        map_of(self.entries_view())
    }

    /// No two entries share a path.
    pub closed spec fn wf(self) -> bool {
        forall|i: int, j: int|
            0 <= i < j < self.entries@.len() ==> (#[trigger] self.entries@[i].0@) != (
            #[trigger] self.entries@[j].0@)
    }

    /// An empty store.
    pub fn new() -> (r: StateStore)
        ensures
            r.wf(),
            r@ =~= Map::<Seq<PathSeg>, WidgetState>::empty(),
    {
        let r = StateStore { entries: Vec::new() };
        proof {
            assert(r.entries_view() =~= Seq::<(Seq<PathSeg>, WidgetState)>::empty());
        }
        r
    }

    /// In a well-formed store, the entry views carry pairwise distinct
    /// paths too.
    proof fn lemma_unique_view(self)
        requires
            self.wf(),
        ensures
            forall|a: int, b: int|
                0 <= a < b < self.entries_view().len() ==> (#[trigger] self.entries_view()[a]).0
                    != (#[trigger] self.entries_view()[b]).0,
    {
        assert forall|a: int, b: int|
            0 <= a < b < self.entries_view().len() implies (#[trigger] self.entries_view()[a]).0
            != (#[trigger] self.entries_view()[b]).0 by {
            assert(self.entries_view()[a] == (self.entries@[a].0@, self.entries@[a].1));
            assert(self.entries_view()[b] == (self.entries@[b].0@, self.entries@[b].1));
            assert(self.entries@[a].0@ != self.entries@[b].0@);
        }
    }

    /// Position of the entry for `p`, if one exists.
    fn find_index(&self, p: &Path) -> (r: Option<usize>)
        requires
            self.wf(),
        ensures
            match r {
                Some(i) => i < self.entries@.len() && self.entries@[i as int].0@ == p@
                    && self@.contains_key(p@) && self@[p@] == self.entries@[i as int].1,
                None => !self@.contains_key(p@),
            },
    {
        let n: usize = self.entries.len();
        let mut k: usize = 0;
        while k < n
            invariant
                self.wf(),
                k <= n,
                n == self.entries@.len(),
                forall|j: int| 0 <= j < k ==> self.entries@[j].0@ != p@,
            decreases n - k,
        {
            if path_eq(&self.entries[k].0, p) {
                proof {
                    self.lemma_unique_view();
                    assert(self.entries_view()[k as int] == (
                        self.entries@[k as int].0@,
                        self.entries@[k as int].1,
                    ));
                    lemma_map_of_index(self.entries_view(), k as int);
                }
                return Some(k);
            }
            k += 1;
        }
        proof {
            assert forall|j: int| 0 <= j < self.entries_view().len() implies (
            #[trigger] self.entries_view()[j]).0 != p@ by {
                assert(self.entries_view()[j] == (self.entries@[j].0@, self.entries@[j].1));
            }
            lemma_map_of_absent(self.entries_view(), p@);
        }
        None
    }

    /// The record at `p`, if one exists.
    pub fn get(&self, p: &Path) -> (r: Option<WidgetState>)
        requires
            self.wf(),
        ensures
            match r {
                Some(w) => self@.contains_key(p@) && self@[p@] == w,
                None => !self@.contains_key(p@),
            },
    {
        match self.find_index(p) {
            Some(i) => Some(self.entries[i].1),
            None => None,
        }
    }

    /// Fetches the record at `p`, creating the fresh record for `kind`
    /// when none exists yet. A record of another kind at `p` is a
    /// schema-evolution defect and is reported, never coerced.
    pub fn get_or_create(&mut self, p: &Path, kind: WidgetKind) -> (r: Result<
        WidgetState,
        StoreError,
    >)
        requires
            old(self).wf(),
        ensures
            final(self).wf(),
            match r {
                Ok(w) => kind_of(w) == kind && if old(self)@.contains_key(p@) {
                    w == old(self)@[p@] && final(self)@ == old(self)@
                } else {
                    w == default_state(kind) && final(self)@ == old(self)@.insert(p@, w)
                },
                Err(e) => e == StoreError::KindMismatch && old(self)@.contains_key(p@) && kind_of(
                    old(self)@[p@],
                ) != kind && final(self)@ == old(self)@ && *final(self) == *old(self),
            },
    {
        match self.find_index(p) {
            Some(i) => {
                let w = self.entries[i].1;
                let matches_kind = match (w, kind) {
                    (WidgetState::Button(_), WidgetKind::Button) => true,
                    (WidgetState::Slider(_), WidgetKind::Slider) => true,
                    _ => false,
                };
                if matches_kind {
                    Ok(w)
                } else {
                    Err(StoreError::KindMismatch)
                }
            },
            None => {
                let w = match kind {
                    WidgetKind::Button => WidgetState::Button(ButtonState { pressed: false }),
                    WidgetKind::Slider => WidgetState::Slider(SliderState { dragging: false }),
                };
                let ghost pre = self.entries_view();
                proof {
                    old(self).lemma_unique_view();
                }
                self.entries.push((p.duplicate(), w));
                proof {
                    assert(self.entries_view().drop_last() =~= pre);
                    assert(self.entries_view().last() == (p@, w));
                    assert forall|i: int, j: int|
                        0 <= i < j < self.entries@.len() implies (
                    #[trigger] self.entries@[i].0@) != (#[trigger] self.entries@[j].0@) by {
                        assert(self.entries_view()[i] == (self.entries@[i].0@, self.entries@[i].1));
                        assert(self.entries_view()[j] == (self.entries@[j].0@, self.entries@[j].1));
                        if j == self.entries@.len() - 1 {
                            assert(pre[i] == self.entries_view()[i]);
                            lemma_map_of_index(pre, i);
                            assert(old(self)@.contains_key(pre[i].0));
                        } else {
                            assert(pre[i] == self.entries_view()[i]);
                            assert(pre[j] == self.entries_view()[j]);
                        }
                    }
                }
                Ok(w)
            },
        }
    }

    /// Replaces the record at `p`, which must exist with the same kind.
    pub fn set(&mut self, p: &Path, w: WidgetState) -> (r: Result<(), StoreError>)
        requires
            old(self).wf(),
        ensures
            final(self).wf(),
            match r {
                Ok(()) => old(self)@.contains_key(p@) && kind_of(old(self)@[p@]) == kind_of(w)
                    && final(self)@ == old(self)@.insert(p@, w),
                Err(e) => e == StoreError::KindMismatch && (!old(self)@.contains_key(p@)
                    || kind_of(old(self)@[p@]) != kind_of(w)) && *final(self) == *old(self),
            },
    {
        match self.find_index(p) {
            Some(i) => {
                let existing = self.entries[i].1;
                let same_kind = match (existing, w) {
                    (WidgetState::Button(_), WidgetState::Button(_)) => true,
                    (WidgetState::Slider(_), WidgetState::Slider(_)) => true,
                    _ => false,
                };
                if !same_kind {
                    return Err(StoreError::KindMismatch);
                }
                let ghost pre = self.entries_view();
                proof {
                    old(self).lemma_unique_view();
                }
                let keep = self.entries[i].0.duplicate();
                self.entries.set(i, (keep, w));
                proof {
                    let post = self.entries_view();
                    assert forall|t: int| 0 <= t < post.len() implies post[t] == pre.update(
                        i as int,
                        (p@, w),
                    )[t] by {
                        assert(post[t] == (self.entries@[t].0@, self.entries@[t].1));
                        if t != i as int {
                            assert(pre[t] == (old(self).entries@[t].0@, old(self).entries@[t].1));
                        }
                    }
                    assert(post =~= pre.update(i as int, (p@, w)));
                    assert(pre[i as int].0 == p@);
                    lemma_map_of_update(pre, i as int, w);
                    assert(self@ == map_of(pre).insert(p@, w));
                    assert forall|a: int, b: int|
                        0 <= a < b < self.entries@.len() implies (
                    #[trigger] self.entries@[a].0@) != (#[trigger] self.entries@[b].0@) by {
                        assert(post[a] == (self.entries@[a].0@, self.entries@[a].1));
                        assert(post[b] == (self.entries@[b].0@, self.entries@[b].1));
                        assert(pre[a].0 == post[a].0 && pre[b].0 == post[b].0);
                    }
                }
                Ok(())
            },
            None => Err(StoreError::KindMismatch),
        }
    }

    /// An exact copy of the whole store.
    pub fn duplicate(&self) -> (r: StateStore)
        requires
            self.wf(),
        ensures
            r.wf(),
            r@ == self@,
            r.entries_view() == self.entries_view(),
    {
        let n: usize = self.entries.len();
        let mut entries: Vec<(Path, WidgetState)> = Vec::new();
        let mut k: usize = 0;
        while k < n
            invariant
                k <= n,
                n == self.entries@.len(),
                entries@.len() == k,
                forall|i: int|
                    0 <= i < k ==> (#[trigger] entries@[i]).0@ == self.entries@[i].0@
                        && entries@[i].1 == self.entries@[i].1,
            decreases n - k,
        {
            let p = self.entries[k].0.duplicate();
            let w = self.entries[k].1;
            entries.push((p, w));
            k += 1;
        }
        let r = StateStore { entries };
        proof {
            assert(r.entries_view() =~= self.entries_view());
        }
        r
    }
}

/// Each entry of a duplicate-free entry list is visible in its map.
proof fn lemma_map_of_index(s: Seq<(Seq<PathSeg>, WidgetState)>, i: int)
    requires
        0 <= i < s.len(),
        forall|a: int, b: int| 0 <= a < b < s.len() ==> (#[trigger] s[a]).0 != (#[trigger] s[b]).0,
    ensures
        map_of(s).contains_key(s[i].0),
        map_of(s)[s[i].0] == s[i].1,
    decreases s.len(),
{
    if i == s.len() - 1 {
    } else {
        assert(s.drop_last()[i] == s[i]);
        lemma_map_of_index(s.drop_last(), i);
        assert(s[s.len() - 1].0 != s[i].0);
    }
}

/// A path under no entry is not in the map.
proof fn lemma_map_of_absent(s: Seq<(Seq<PathSeg>, WidgetState)>, p: Seq<PathSeg>)
    requires
        forall|j: int| 0 <= j < s.len() ==> (#[trigger] s[j]).0 != p,
    ensures
        !map_of(s).contains_key(p),
    decreases s.len(),
{
    if s.len() > 0 {
        assert forall|j: int| 0 <= j < s.drop_last().len() implies (#[trigger] s.drop_last()[j]).0
            != p by {
            assert(s.drop_last()[j] == s[j]);
        }
        lemma_map_of_absent(s.drop_last(), p);
    }
}

/// Updating the record of entry `i` updates exactly its key in the map.
proof fn lemma_map_of_update(s: Seq<(Seq<PathSeg>, WidgetState)>, i: int, w: WidgetState)
    requires
        0 <= i < s.len(),
        forall|a: int, b: int| 0 <= a < b < s.len() ==> (#[trigger] s[a]).0 != (#[trigger] s[b]).0,
    ensures
        map_of(s.update(i, (s[i].0, w))) == map_of(s).insert(s[i].0, w),
    decreases s.len(),
{
    let t = s.update(i, (s[i].0, w));
    if i == s.len() - 1 {
        assert(t.drop_last() =~= s.drop_last());
        assert(t.last() == (s[i].0, w));
        assert(map_of(t) == map_of(s.drop_last()).insert(s[i].0, w));
        assert(map_of(s).insert(s[i].0, w) =~= map_of(s.drop_last()).insert(s[i].0, w)) by {
            assert(map_of(s) == map_of(s.drop_last()).insert(s.last().0, s.last().1));
        }
    } else {
        assert(t.drop_last() =~= s.drop_last().update(i, (s[i].0, w)));
        assert(s.drop_last()[i] == s[i]);
        lemma_map_of_update(s.drop_last(), i, w);
        assert(t.last() == s.last());
        assert(map_of(t) == map_of(s.drop_last()).insert(s[i].0, w).insert(s.last().0, s.last().1));
        assert(s.last().0 != s[i].0);
        assert(map_of(s.drop_last()).insert(s[i].0, w).insert(s.last().0, s.last().1) =~= map_of(
            s.drop_last(),
        ).insert(s.last().0, s.last().1).insert(s[i].0, w));
        assert(map_of(t) =~= map_of(s).insert(s[i].0, w));
    }
}

} // verus!
