//! The session: a templated layout (`ImlFile`) and the live reload
//! monitor (`Hotswappo`) that owns it. The monitor decides, from the
//! backing file's modification stamp, when to rebuild the layout from
//! new text, and guarantees that the application state survives a
//! reload unchanged in value, that the ephemeral state store is carried
//! over whole, and that a failed reload leaves the session exactly as
//! it was.

use vstd::prelude::*;
use vstd::pervasive::unreached;
use crate::parse::{SchemaError, spec_parse_root, parse_root};
use crate::render::{
    RenderNode, RenderModel, MatError, spec_mat, materialize,
};
use crate::state::{StateMap, ValModel};
use crate::store::{StateStore, Path, PathSeg, WidgetState};
use crate::template::{BindingError, spec_bind, bind};
use crate::tree::{Root, ElemModel};

verus! {

/// Why a render attempt failed.
#[derive(Debug, Clone, Copy, PartialEq, Eq, Structural)]
pub enum ViewError {
    Binding(BindingError),
    Schema(SchemaError),
    Materialize(MatError),
}

/// Why a reload attempt failed. `Io` is never produced here: the host
/// performs the file stat and read, and reports its own failures with
/// this variant, keeping the last good tree.
#[derive(Debug, Clone, Copy, PartialEq, Eq, Structural)]
pub enum ReloadError {
    Io,
    Binding(BindingError),
    Schema(SchemaError),
}

/// What one render pass yields for given template text, state mapping
/// and store: the parsed tree, the renderable tree, and the store as
/// the walk leaves it.
pub open spec fn spec_view_pass(
    ts: Seq<u8>,
    st: Seq<(Seq<u8>, ValModel)>,
    store: Map<Seq<PathSeg>, WidgetState>,
) -> Result<(ElemModel, RenderModel, Map<Seq<PathSeg>, WidgetState>), ViewError> {
    match spec_bind(ts, st) {
        Err(e) => Err(ViewError::Binding(e)),
        Ok(src) => match spec_parse_root(src) {
            Err(e) => Err(ViewError::Schema(e)),
            Ok(m) => match spec_mat(m, st, store, Seq::empty()) {
                Err(e) => Err(ViewError::Materialize(e)),
                Ok((rm, store2)) => Ok((m, rm, store2)),
            },
        },
    }
}

/// Rendering is idempotent: a second render pass over the store that a
/// successful pass produced, with the template text and state
/// unchanged, yields the same tree, the same renderable tree, and
/// leaves the store exactly as it was.
pub proof fn lemma_view_pass_idempotent(
    ts: Seq<u8>,
    st: Seq<(Seq<u8>, ValModel)>,
    store: Map<Seq<PathSeg>, WidgetState>,
)
    requires
        spec_view_pass(ts, st, store) matches Ok((m, rm, store2)),
    ensures
        spec_view_pass(ts, st, store) matches Ok((m, rm, store2)) && spec_view_pass(
            ts,
            st,
            store2,
        ) == Ok::<_, ViewError>((m, rm, store2)),
{
    match spec_view_pass(ts, st, store) {
        Ok((m, rm, store2)) => {
            crate::render::lemma_mat_monotone(m, st, store, Seq::empty());
            crate::render::lemma_mat_stable(m, st, store, Seq::empty(), store2);
        },
        Err(_) => {},
    }
}

/// A templated layout: the raw template text, the tree parsed on the
/// last successful render, the application state, and the ephemeral
/// state store of its widgets.
#[derive(Debug)]
pub struct ImlFile {
    pub templated_source: Vec<u8>,
    pub layout: Option<Root>,
    pub user_state: StateMap,
    pub widget_states: StateStore,
}

impl ImlFile {
    /// Validity: the store carries no duplicate paths.
    pub open spec fn wf(self) -> bool {
        self.widget_states.wf()
    }

    /// Takes already-read template text and an initial application
    /// state; no tree is parsed yet and the store starts empty.
    pub fn load_iml(templated_source: Vec<u8>, initial_user_state: StateMap) -> (r: ImlFile)
        ensures
            r.wf(),
            r.templated_source == templated_source,
            r.layout is None,
            r.user_state == initial_user_state,
            r.widget_states@ =~= Map::<Seq<PathSeg>, WidgetState>::empty(),
    {
        ImlFile {
            templated_source,
            layout: None,
            user_state: initial_user_state,
            widget_states: StateStore::new(),
        }
    }

    /// A mutable handle to the application state; the engine itself
    /// never mutates it.
    pub fn state(&mut self) -> (r: &mut StateMap)
        ensures
            *r == old(self).user_state,
            final(self).user_state == *final(r),
            final(self).templated_source == old(self).templated_source,
            final(self).layout == old(self).layout,
            final(self).widget_states == old(self).widget_states,
    {
        &mut self.user_state
    }

    /// One render pass: binds the template against the current state,
    /// parses the bound text, installs the parsed tree, and
    /// materializes it against the ephemeral state store. On any
    /// failure the layout, store and state are exactly as before.
    pub fn view(&mut self) -> (r: Result<RenderNode, ViewError>)
        requires
            old(self).wf(),
        ensures
            final(self).wf(),
            final(self).templated_source == old(self).templated_source,
            final(self).user_state == old(self).user_state,
            match r {
                Ok(rn) => spec_view_pass(
                    old(self).templated_source@,
                    old(self).user_state.view(),
                    old(self).widget_states@,
                ) matches Ok((m, rm, store2)) && rn.view() == rm && final(self).widget_states@
                    == store2 && (final(self).layout matches Some(rt) && rt.root.view() == m),
                Err(e) => spec_view_pass(
                    old(self).templated_source@,
                    old(self).user_state.view(),
                    old(self).widget_states@,
                ) == Err::<(ElemModel, RenderModel, Map<Seq<PathSeg>, WidgetState>), _>(e)
                    && final(self).widget_states@ == old(self).widget_states@
                    && final(self).layout == old(self).layout,
            },
    {
        let bound = match bind(&self.templated_source, &self.user_state) {
            Ok(b) => b,
            Err(e) => {
                return Err(ViewError::Binding(e));
            },
        };
        let root = match parse_root(&bound) {
            Ok(rt) => rt,
            Err(e) => {
                return Err(ViewError::Schema(e));
            },
        };
        let rootpath = Path::root();
        let rn = match materialize(&root.root, &self.user_state, &mut self.widget_states, &rootpath)
            {
            Ok(rn) => rn,
            Err(e) => {
                return Err(ViewError::Materialize(e));
            },
        };
        self.layout = Some(root);
        Ok(rn)
    }
}

/// The live reload monitor: the backing file's path, the last observed
/// modification stamp, the reload counter, and the current layout.
#[derive(Debug)]
pub struct Hotswappo {
    pub path: Vec<u8>,
    pub last_update: Option<u64>,
    pub reload_count: u64,
    pub layout: Option<ImlFile>,
    /// The application state a first load starts from, while nothing
    /// is loaded yet.
    pub initial_state: StateMap,
}

impl Hotswappo {
    /// Validity: a held layout is itself valid.
    pub open spec fn wf(self) -> bool {
        self.layout matches Some(f) ==> f.wf()
    }

    /// A fresh monitor for the file at `path`: nothing loaded yet, and
    /// a first load will start from `initial_state`.
    pub fn new(path: Vec<u8>, initial_state: StateMap) -> (r: Hotswappo)
        ensures
            r.wf(),
            r.path == path,
            r.last_update is None,
            r.reload_count == 0,
            r.layout is None,
            r.initial_state == initial_state,
    {
        Hotswappo { path, last_update: None, reload_count: 0, layout: None, initial_state }
    }

    /// The wake interval, in milliseconds, that the host should honour
    /// so file changes are picked up without user input.
    pub fn subscription(&self) -> (r: u64)
        ensures
            r == 500,
    {
        500
    }

    /// Whether a file stamped `modified` calls for a reload: nothing is
    /// loaded yet, or the stamp is strictly newer than the last one.
    pub open spec fn spec_needs_reload(self, modified: u64) -> bool {
        self.last_update is None || (self.last_update matches Some(t) && t < modified)
    }

    /// Exactly `spec_needs_reload`.
    pub fn needs_reload(&self, modified: u64) -> (r: bool)
        ensures
            r == self.spec_needs_reload(modified),
    {
        match self.last_update {
            None => true,
            Some(t) => t < modified,
        }
    }

    /// The state mapping a reload would carry over: the current one,
    /// or the initial one when nothing is loaded.
    pub open spec fn spec_carried_state(self) -> Seq<(Seq<u8>, ValModel)> {
        match self.layout {
            Some(f) => f.user_state.view(),
            None => self.initial_state.view(),
        }
    }

    /// The store a reload would carry over: the current one, or an
    /// empty one when nothing is loaded.
    pub open spec fn spec_carried_store(self) -> Map<Seq<PathSeg>, WidgetState> {
        match self.layout {
            Some(f) => f.widget_states@,
            None => Map::empty(),
        }
    }

    /// The reload decision and transition, given the file's current
    /// modification stamp and its full contents. When no reload is due
    /// this is a no-op. When one is due, the new text is bound against
    /// a duplicate of the current application state and parsed; on
    /// success the new layout is installed with that state duplicate
    /// and with the ephemeral store carried over whole, the stamp is
    /// recorded and the reload counter grows by one. On failure the
    /// whole session is exactly as before: reload is all-or-nothing.
    pub fn get(&mut self, modified: u64, contents: Vec<u8>) -> (r: Result<(), ReloadError>)
        requires
            old(self).wf(),
            old(self).reload_count < u64::MAX,
        ensures
            final(self).wf(),
            final(self).path == old(self).path,
            final(self).initial_state == old(self).initial_state,
            !old(self).spec_needs_reload(modified) ==> r == Ok::<(), ReloadError>(())
                && *final(self) == *old(self),
            old(self).spec_needs_reload(modified) ==> match r {
                Ok(()) => {
                    &&& spec_bind(contents@, old(self).spec_carried_state()) matches Ok(src)
                    &&& spec_parse_root(src) matches Ok(m)
                    &&& final(self).last_update == Some(modified)
                    &&& final(self).reload_count == old(self).reload_count + 1
                    &&& final(self).layout matches Some(f2) && f2.templated_source@ == contents@
                        && f2.user_state.view() == old(self).spec_carried_state()
                        && f2.widget_states@ == old(self).spec_carried_store() && (
                    f2.layout matches Some(rt) && rt.root.view() == m)
                },
                Err(e) => {
                    &&& *final(self) == *old(self)
                    &&& match e {
                        ReloadError::Binding(be) => spec_bind(
                            contents@,
                            old(self).spec_carried_state(),
                        ) == Err::<Seq<u8>, _>(be),
                        ReloadError::Schema(se) => {
                            &&& spec_bind(contents@, old(self).spec_carried_state()) matches Ok(
                                src,
                            )
                            &&& spec_parse_root(src) == Err::<ElemModel, _>(se)
                        },
                        ReloadError::Io => false,
                    }
                },
            },
    {
        if !self.needs_reload(modified) {
            return Ok(());
        }
        let carried_state = match &self.layout {
            Some(f) => f.user_state.duplicate(),
            None => self.initial_state.duplicate(),
        };
        let carried_store = match &self.layout {
            Some(f) => f.widget_states.duplicate(),
            None => StateStore::new(),
        };
        proof {
            assert(carried_state.view() =~= old(self).spec_carried_state());
            assert(carried_store@ =~= old(self).spec_carried_store());
        }
        let bound = match bind(&contents, &carried_state) {
            Ok(b) => b,
            Err(e) => {
                return Err(ReloadError::Binding(e));
            },
        };
        let root = match parse_root(&bound) {
            Ok(rt) => rt,
            Err(e) => {
                return Err(ReloadError::Schema(e));
            },
        };
        self.layout = Some(
            ImlFile {
                templated_source: contents,
                layout: Some(root),
                user_state: carried_state,
                widget_states: carried_store,
            },
        );
        self.last_update = Some(modified);
        self.reload_count = self.reload_count + 1;
        Ok(())
    }

    /// A mutable handle to the application state of the loaded layout.
    pub fn state(&mut self) -> (r: &mut StateMap)
        requires
            old(self).wf(),
            old(self).layout is Some,
        ensures
            *r == old(self).layout->Some_0.user_state,
            final(self).wf(),
            final(self).path == old(self).path,
            final(self).initial_state == old(self).initial_state,
            final(self).last_update == old(self).last_update,
            final(self).reload_count == old(self).reload_count,
            final(self).layout matches Some(f2) && f2.user_state == *final(r)
                && f2.templated_source == old(self).layout->Some_0.templated_source
                && f2.layout == old(self).layout->Some_0.layout
                && f2.widget_states == old(self).layout->Some_0.widget_states,
    {
        match &mut self.layout {
            Some(f) => f.state(),
            None => unreached(),
        }
    }
}

} // verus!
