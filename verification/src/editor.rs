//! The state of the application and how commands change it.
use vstd::prelude::*;

use crate::arith::evaluates_all;
use crate::document::{
    Document, DocumentView, ExtrudeFeature, Feature, FeatureView, RevolveAxis, RevolveFeature,
    SketchFeature, SketchPlane, lemma_remove_keeps_prefix,
};
use crate::dimension::DimensionTarget;
use crate::expr::Expr;
use crate::geometry::SolidPlan;
use crate::ids::FeatureId;
use crate::mesh::TriMesh;
use crate::rebuild::{
    FeatureStatus, RebuildEntry, RebuildOps, RebuildState, agree_before, is_entry, is_number,
    is_rebuilt, is_up_to_date, kept_count, lemma_partial_rebuild, number, rebuild, rebuild_usable,
    stands_before,
};
use crate::scene::PickId;
use crate::session::{
    SketchAction, SketchSession, SketchTool, ToolKind, acts,
};
use crate::sketch::{Sketch, SketchView};
use crate::slots::MAX_SLOTS;
use crate::solver::{Factors, SolveResult, SolverOps, ops_usable};

verus! {

/// Largest number of documents that can be gone back to.
pub const MAX_UNDO: usize = 32;

/// A feature whose parameters are being entered.
#[derive(Debug, Clone, Copy, PartialEq)]
pub enum PendingFeature<T> {
    /// An extrusion.
    Extrude {
        /// The feature that holds the sketch.
        sketch: FeatureId,
        /// Which of its profiles.
        profile: usize,
        /// The distance.
        distance: T,
    },
    /// A revolution.
    Revolve {
        /// The feature that holds the sketch.
        sketch: FeatureId,
        /// Which of its profiles.
        profile: usize,
        /// The angle in degrees.
        angle_deg: T,
        /// The axis.
        axis: RevolveAxis,
    },
}

/// What the application is doing.
pub enum AppMode<T> {
    /// Shows the model.
    Idle,
    /// Edits a sketch.
    SketchEdit(SketchSession<T>),
    /// Asks for the parameters of a feature.
    FeatureDialog(PendingFeature<T>),
}

/// The state of the application.
pub struct Editor<T, V> {
    /// What it is doing.
    pub mode: AppMode<T>,
    /// The document.
    pub document: Document<T>,
    /// What became of its features.
    pub rebuild_state: RebuildState<V>,
    /// The feature of each body.
    pub body_features: Vec<FeatureId>,
    /// The selected feature.
    pub selected_feature: Option<FeatureId>,
    /// The selected face.
    pub selected_face: Option<PickId>,
    /// Documents to go back to, the latest last.
    pub undo_stack: Vec<Document<T>>,
    /// A message for the user.
    pub info: Option<String>,
}

/// The documents are in order.
pub open spec fn documents_ok<T>(stack: Seq<Document<T>>) -> bool {
    forall|i: int|
        0 <= i < stack.len() ==> (#[trigger] stack[i]).wf() && stack[i]@.linked()
}

/// What the documents hold.
pub open spec fn document_views<T>(stack: Seq<Document<T>>) -> Seq<DocumentView<T>> {
    stack.map_values(|d: Document<T>| d@)
}

/// The documents to go back to after one more: the oldest goes if there are
/// too many.
pub open spec fn pushed<T>(stack: Seq<DocumentView<T>>, doc: DocumentView<T>) -> Seq<
    DocumentView<T>,
> {
    if stack.len() < MAX_UNDO {
        stack.push(doc)
    } else {
        stack.push(doc).drop_first()
    }
}

/// The features of the bodies among the entries.
pub open spec fn body_ids<V>(entries: Seq<RebuildEntry<V>>) -> Seq<FeatureId> {
    entries.filter(|e: RebuildEntry<V>| e.body is Some).map_values(
        |e: RebuildEntry<V>| e.feature,
    )
}

impl<T> AppMode<T> {
    /// The sketch that is edited is in order.
    pub open spec fn wf(&self) -> bool {
        *self matches AppMode::SketchEdit(session) ==> session.wf()
    }
}

impl<T, V> Editor<T, V> {
    /// All documents are in order, there are not too many to go back to, and
    /// the list of bodies is that of the entries.
    pub open spec fn wf(&self) -> bool {
        &&& self.document.wf()
        &&& self.document@.linked()
        &&& self.mode.wf()
        &&& documents_ok(self.undo_stack@)
        &&& self.undo_stack@.len() <= MAX_UNDO
        &&& self.body_features@ == body_ids(self.rebuild_state.entries@)
    }

    /// The application as it starts.
    pub fn new() -> (editor: Self)
        ensures
            editor.wf(),
            editor.mode is Idle,
            editor.document@ == DocumentView::<T>::empty(),
            editor.rebuild_state.entries@.len() == 0,
            editor.body_features@.len() == 0,
            editor.selected_feature is None,
            editor.selected_face is None,
            editor.undo_stack@.len() == 0,
            editor.info is None,
    {
        proof {
            reveal(Seq::filter);
        }
        let editor = Editor {
            mode: AppMode::Idle,
            document: Document::new(),
            rebuild_state: RebuildState::new(),
            body_features: Vec::new(),
            selected_feature: None,
            selected_face: None,
            undo_stack: Vec::new(),
            info: None,
        };
        assert(editor.body_features@ =~= body_ids(editor.rebuild_state.entries@));
        editor
    }

    /// Keeps a document to go back to.
    fn push_undo(&mut self, snapshot: Document<T>)
        requires
            old(self).wf(),
            snapshot.wf(),
            snapshot@.linked(),
        ensures
            final(self).wf(),
            document_views(final(self).undo_stack@) == pushed(
                document_views(old(self).undo_stack@),
                snapshot@,
            ),
            final(self).mode == old(self).mode,
            final(self).document == old(self).document,
            final(self).rebuild_state == old(self).rebuild_state,
            final(self).body_features == old(self).body_features,
            final(self).selected_feature == old(self).selected_feature,
            final(self).selected_face == old(self).selected_face,
            final(self).info == old(self).info,
    {
        let ghost before = self.undo_stack@;
        self.undo_stack.push(snapshot);
        assert(document_views(self.undo_stack@) =~= document_views(before).push(snapshot@));
        if self.undo_stack.len() > MAX_UNDO {
            let ghost full = self.undo_stack@;
            self.undo_stack.remove(0);
            assert(self.undo_stack@ =~= full.drop_first());
            assert(document_views(self.undo_stack@) =~= document_views(full).drop_first());
            assert forall|i: int| 0 <= i < self.undo_stack@.len() implies (
            #[trigger] self.undo_stack@[i]).wf() && self.undo_stack@[i]@.linked() by {
                assert(self.undo_stack@[i] == full[i + 1]);
                if i + 1 < before.len() {
                    assert(full[i + 1] == before[i + 1]);
                }
            }
        } else {
            assert forall|i: int| 0 <= i < self.undo_stack@.len() implies (
            #[trigger] self.undo_stack@[i]).wf() && self.undo_stack@[i]@.linked() by {
                if i < before.len() {
                    assert(self.undo_stack@[i] == before[i]);
                }
            }
        }
    }

    /// Selects a feature.
    pub fn select_feature(&mut self, id: FeatureId)
        requires
            old(self).wf(),
        ensures
            final(self).wf(),
            *final(self) == (Editor { selected_feature: Some(id), ..*old(self) }),
    {
        self.selected_feature = Some(id);
    }

    /// Selects a face, or none.
    pub fn select_face(&mut self, face: Option<PickId>)
        requires
            old(self).wf(),
        ensures
            final(self).wf(),
            *final(self) == (Editor { selected_face: face, ..*old(self) }),
    {
        self.selected_face = face;
    }

    /// Tells the user something.
    pub fn tell(&mut self, info: String)
        requires
            old(self).wf(),
        ensures
            final(self).wf(),
            *final(self) == (Editor { info: Some(info), ..*old(self) }),
    {
        self.info = Some(info);
    }

    /// Whether the history can be edited: not while a sketch is.
    pub fn history_shown(&self) -> (shown: bool)
        ensures
            shown == (self.mode !is SketchEdit),
    {
        match self.mode {
            AppMode::SketchEdit(_) => false,
            _ => true,
        }
    }
}

/// Everything but the document and what follows from it is the same.
pub open spec fn same_ui<T, V>(a: Editor<T, V>, b: Editor<T, V>) -> bool {
    &&& a.mode == b.mode
    &&& a.selected_feature == b.selected_feature
    &&& a.info == b.info
}

/// The state after a rebuild from a place on: the entries are rebuilt, the
/// bodies listed, and no face is selected.
pub open spec fn is_refreshed<
    T,
    V,
    E: Fn(&Expr<T>, &Vec<T>) -> T,
    L: Fn(&T, &T) -> bool,
    M: Fn(&T, &T) -> bool,
    K: Fn(&SolidPlan<T>) -> Result<TriMesh<V>, String>,
>(
    ops: RebuildOps<E, L, M, K>,
    from: int,
    entries: Seq<RebuildEntry<V>>,
    after: Editor<T, V>,
) -> bool {
    &&& is_rebuilt(ops, after.document@, from, entries, after.rebuild_state.entries@)
    &&& after.body_features@ == body_ids(after.rebuild_state.entries@)
    &&& after.selected_face is None
}

/// The state after going back: the latest kept document is the present one
/// and all of it is rebuilt. If none was kept, nothing has happened.
pub open spec fn is_undone<
    T,
    V,
    E: Fn(&Expr<T>, &Vec<T>) -> T,
    L: Fn(&T, &T) -> bool,
    M: Fn(&T, &T) -> bool,
    K: Fn(&SolidPlan<T>) -> Result<TriMesh<V>, String>,
>(ops: RebuildOps<E, L, M, K>, before: Editor<T, V>, after: Editor<T, V>) -> bool {
    if before.undo_stack@.len() > 0 {
        &&& after.document == before.undo_stack@.last()
        &&& after.undo_stack@ == before.undo_stack@.drop_last()
        &&& after.selected_feature == (match before.selected_feature {
            Some(id) if after.document@.store.contains_key(id.raw) => Some(id),
            _ => None,
        })
        &&& is_refreshed(ops, 0, before.rebuild_state.entries@, after)
        &&& after.mode == before.mode
        &&& after.info == before.info
    } else {
        after == before
    }
}

impl<T: Copy, V> Editor<T, V> {
    /// Rebuilds the history from a place on.
    pub fn do_rebuild<
        E: Fn(&Expr<T>, &Vec<T>) -> T,
        L: Fn(&T, &T) -> bool,
        M: Fn(&T, &T) -> bool,
        K: Fn(&SolidPlan<T>) -> Result<TriMesh<V>, String>,
    >(&mut self, from: usize, ops: &RebuildOps<E, L, M, K>)
        requires
            old(self).document.wf(),
            old(self).document@.linked(),
            old(self).mode.wf(),
            documents_ok(old(self).undo_stack@),
            old(self).undo_stack@.len() <= MAX_UNDO,
            rebuild_usable::<T, V, E, L, M, K>(*ops),
        ensures
            final(self).wf(),
            is_refreshed(*ops, from as int, old(self).rebuild_state.entries@, *final(self)),
            same_ui(*final(self), *old(self)),
            final(self).document == old(self).document,
            final(self).undo_stack == old(self).undo_stack,
    {
        proof {
            self.document.lemma_buildable();
        }
        rebuild(&self.document, from, &mut self.rebuild_state, ops);
        let mut ids: Vec<FeatureId> = Vec::new();
        let ghost entries = self.rebuild_state.entries@;
        let ghost wanted = |e: RebuildEntry<V>| e.body is Some;
        let ghost name = |e: RebuildEntry<V>| e.feature;
        let mut i: usize = 0;
        proof {
            reveal(Seq::filter);
            assert(ids@ =~= entries.take(0).filter(wanted).map_values(name));
        }
        while i < self.rebuild_state.entries.len()
            invariant
                entries == self.rebuild_state.entries@,
                wanted == (|e: RebuildEntry<V>| e.body is Some),
                name == (|e: RebuildEntry<V>| e.feature),
                i <= entries.len(),
                ids@ == entries.take(i as int).filter(wanted).map_values(name),
            decreases entries.len() - i,
        {
            let ghost shorter = entries.take(i as int);
            proof {
                reveal(Seq::filter);
                assert(entries.take(i + 1).drop_last() =~= shorter);
            }
            if self.rebuild_state.entries[i].body.is_some() {
                ids.push(self.rebuild_state.entries[i].feature);
                assert(shorter.filter(wanted).push(entries[i as int]).map_values(name)
                    =~= shorter.filter(wanted).map_values(name).push(name(entries[i as int])));
            }
            i = i + 1;
        }
        assert(entries.take(i as int) =~= entries);
        self.body_features = ids;
        self.selected_face = None;
    }

    /// Goes back to the latest kept document, if there is one. A feature that
    /// does not exist there does not stay selected.
    pub fn undo<
        E: Fn(&Expr<T>, &Vec<T>) -> T,
        L: Fn(&T, &T) -> bool,
        M: Fn(&T, &T) -> bool,
        K: Fn(&SolidPlan<T>) -> Result<TriMesh<V>, String>,
    >(&mut self, ops: &RebuildOps<E, L, M, K>)
        requires
            old(self).wf(),
            rebuild_usable::<T, V, E, L, M, K>(*ops),
        ensures
            final(self).wf(),
            is_undone(*ops, *old(self), *final(self)),
    {
        let ghost stack = self.undo_stack@;
        if self.undo_stack.len() == 0 {
            return;
        }
        match self.undo_stack.pop() {
            Some(document) => {
                assert(stack[stack.len() - 1] == document);
                self.document = document;
                if let Some(id) = self.selected_feature {
                    if self.document.feature(id).is_none() {
                        self.selected_feature = None;
                    }
                }
                assert(documents_ok(self.undo_stack@)) by {
                    assert forall|i: int| 0 <= i < self.undo_stack@.len() implies (
                    #[trigger] self.undo_stack@[i]).wf() && self.undo_stack@[i]@.linked() by {
                        assert(self.undo_stack@[i] == stack[i]);
                    }
                }
                self.do_rebuild(0, ops);
            },
            None => {},
        }
    }

    /// A document was read: it takes the place of the present one, and there
    /// is nothing to go back to.
    pub fn opened<
        E: Fn(&Expr<T>, &Vec<T>) -> T,
        L: Fn(&T, &T) -> bool,
        M: Fn(&T, &T) -> bool,
        K: Fn(&SolidPlan<T>) -> Result<TriMesh<V>, String>,
    >(&mut self, document: Document<T>, ops: &RebuildOps<E, L, M, K>)
        requires
            old(self).wf(),
            document.wf(),
            document@.linked(),
            rebuild_usable::<T, V, E, L, M, K>(*ops),
        ensures
            final(self).wf(),
            final(self).document == document,
            final(self).undo_stack@.len() == 0,
            final(self).selected_feature is None,
            is_refreshed(*ops, 0, old(self).rebuild_state.entries@, *final(self)),
            is_up_to_date(*ops, document@, final(self).rebuild_state.entries@),
            final(self).mode == old(self).mode,
            final(self).info == old(self).info,
    {
        self.document = document;
        self.undo_stack = Vec::new();
        self.selected_feature = None;
        self.do_rebuild(0, ops);
    }
}

/// The document, what became of its features, the selected feature and the
/// documents to go back to are the same.
pub open spec fn same_model<T, V>(a: Editor<T, V>, b: Editor<T, V>) -> bool {
    &&& a.document == b.document
    &&& a.rebuild_state == b.rebuild_state
    &&& a.body_features == b.body_features
    &&& a.selected_feature == b.selected_feature
    &&& a.undo_stack == b.undo_stack
}

/// A session in which nothing has happened yet.
pub open spec fn is_fresh<T>(
    session: SketchSession<T>,
    plane: SketchPlane,
    editing: Option<FeatureId>,
    sketch: SketchView<T>,
) -> bool {
    &&& session.plane == plane
    &&& session.editing == editing
    &&& session.sketch@ == sketch
    &&& session.tool is Select
    &&& session.selection@.len() == 0
    &&& session.last_solve is None
    &&& session.dragging is None
    &&& session.dragging_dim is None
}

/// Place of a feature in the history; zero if it is not there.
pub open spec fn place_of(features: Seq<FeatureId>, id: FeatureId) -> int {
    match features.index_of_first(id) {
        Some(place) => place,
        None => 0,
    }
}

/// The document with another sketch in a feature, if that holds one.
pub open spec fn with_sketch<T>(
    doc: DocumentView<T>,
    id: FeatureId,
    sketch: SketchView<T>,
) -> DocumentView<T> {
    if doc.store.contains_key(id.raw) {
        match doc.store[id.raw] {
            FeatureView::Sketch(plane, _) => DocumentView {
                store: doc.store.insert(id.raw, FeatureView::Sketch(plane, sketch)),
                ..doc
            },
            _ => doc,
        }
    } else {
        doc
    }
}

impl<T: Copy, V> Editor<T, V> {
    /// Place of a feature in the history; zero if it is not there.
    fn place(&self, id: FeatureId) -> (place: usize)
        ensures
            place == place_of(self.document@.features, id),
    {
        match self.document.index_of(id) {
            Some(i) => {
                proof {
                    self.document@.features.index_of_first_ensures(id);
                    assert(self.document@.features.contains(id));
                }
                i
            },
            None => {
                proof {
                    self.document@.features.index_of_first_ensures(id);
                }
                0
            },
        }
    }

    /// Begins a new sketch.
    pub fn enter_sketch(&mut self, plane: SketchPlane)
        requires
            old(self).wf(),
        ensures
            final(self).wf(),
            final(self).mode matches AppMode::SketchEdit(session) && is_fresh(
                session,
                plane,
                None,
                SketchView::empty(),
            ),
            final(self).info is None,
            final(self).selected_face is None,
            same_model(*final(self), *old(self)),
    {
        self.info = None;
        self.selected_face = None;
        self.mode = AppMode::SketchEdit(SketchSession::start(plane));
    }

    /// Begins the editing of the sketch of a feature, if it holds one.
    pub fn open_sketch_editor(&mut self, id: FeatureId)
        requires
            old(self).wf(),
        ensures
            final(self).wf(),
            if old(self).document@.store.contains_key(id.raw)
                && old(self).document@.store[id.raw] is Sketch {
                &&& final(self).mode matches AppMode::SketchEdit(session)
                &&& is_fresh(
                    session,
                    old(self).document@.store[id.raw]->Sketch_0,
                    Some(id),
                    old(self).document@.store[id.raw]->Sketch_1,
                )
                &&& old(self).document.feature_at(id) matches Feature::Sketch(s)
                &&& s.sketch.keeps_ids(session.sketch)
                &&& final(self).info is None
                &&& final(self).selected_face is None
                &&& same_model(*final(self), *old(self))
            } else {
                *final(self) == *old(self)
            },
    {
        let mut found: Option<(SketchPlane, Sketch<T>)> = None;
        if let Some(Feature::Sketch(s)) = self.document.feature(id) {
            found = Some((s.plane, s.sketch.duplicate()));
        }
        if let Some((plane, sketch)) = found {
            self.mode = AppMode::SketchEdit(SketchSession::start_edit(plane, sketch, id));
            self.selected_face = None;
            self.info = None;
        }
    }

    /// Takes another tool, if a sketch is edited.
    pub fn set_tool(&mut self, kind: ToolKind)
        requires
            old(self).wf(),
        ensures
            final(self).wf(),
            match old(self).mode {
                AppMode::SketchEdit(before) => {
                    &&& final(self).mode matches AppMode::SketchEdit(session)
                    &&& session.tool == SketchTool::<T>::fresh(kind)
                    &&& session.selection@.len() == 0
                    &&& session.sketch == before.sketch
                    &&& session.last_solve == before.last_solve
                    &&& session.same_setting(&before)
                },
                _ => final(self).mode == old(self).mode,
            },
            final(self).info == old(self).info,
            final(self).selected_face == old(self).selected_face,
            same_model(*final(self), *old(self)),
    {
        if let AppMode::SketchEdit(session) = &mut self.mode {
            session.set_tool(kind);
        }
    }

    /// Does what an action says, if a sketch is edited.
    pub fn add_action<
        E: Fn(&Expr<T>, &Vec<T>) -> T,
        L: Fn(&T, &T) -> bool,
        F: Fn(&Vec<Vec<T>>) -> Option<Factors<T>>,
    >(&mut self, action: SketchAction<T>, ops: &SolverOps<E, L, F>)
        requires
            old(self).wf(),
            ops_usable::<T, E, L, F>(*ops),
            old(self).mode matches AppMode::SketchEdit(session) ==> can_act(session, action),
        ensures
            final(self).wf(),
            match old(self).mode {
                AppMode::SketchEdit(before) => {
                    &&& final(self).mode matches AppMode::SketchEdit(session)
                    &&& is_acted(*ops, before, action, session)
                    &&& before.sketch.keeps_ids(session.sketch)
                },
                _ => final(self).mode == old(self).mode,
            },
            final(self).info == old(self).info,
            final(self).selected_face == old(self).selected_face,
            same_model(*final(self), *old(self)),
    {
        if let AppMode::SketchEdit(session) = &mut self.mode {
            session.apply_action(action, ops);
        }
    }

    /// Ends the editing of a sketch. A sketch of a feature takes its place
    /// there; a new one becomes a feature if anything is drawn in it.
    pub fn finish_sketch<
        E: Fn(&Expr<T>, &Vec<T>) -> T,
        L: Fn(&T, &T) -> bool,
        M: Fn(&T, &T) -> bool,
        K: Fn(&SolidPlan<T>) -> Result<TriMesh<V>, String>,
    >(&mut self, ops: &RebuildOps<E, L, M, K>)
        requires
            old(self).wf(),
            old(self).document@.store.len() < MAX_SLOTS,
            rebuild_usable::<T, V, E, L, M, K>(*ops),
        ensures
            final(self).wf(),
            final(self).info == old(self).info,
            match old(self).mode {
                AppMode::SketchEdit(session) => final(self).mode is Idle && is_finished(
                    *ops,
                    session,
                    *old(self),
                    *final(self),
                ),
                _ => *final(self) == *old(self),
            },
            old(self).document.keeps_ids(final(self).document),
            old(self).mode matches AppMode::SketchEdit(session) ==> old(self).document.shares(
                final(self).document,
                session.editing,
            ) && holds_edited(session, *old(self), *final(self)),
    {
        proof {
            self.document.lemma_same_ids(self.document);
        }
        match &self.mode {
            AppMode::SketchEdit(_) => {},
            _ => {
                return;
            },
        }
        let mut mode: AppMode<T> = AppMode::Idle;
        std::mem::swap(&mut mode, &mut self.mode);
        let session = match mode {
            AppMode::SketchEdit(session) => session,
            _ => {
                return;
            },
        };
        let (editing, plane, sketch) = session.finish();
        let ghost view = sketch@;
        let ghost before = self.document@;
        proof {
            self.document.lemma_wf();
        }
        let snapshot = self.document.duplicate();
        match editing {
            Some(id) => {
                if let Some(Feature::Sketch(s)) = self.document.feature_mut(id) {
                    s.sketch = sketch;
                }
                proof {
                    assert(self.document@ =~= with_sketch(before, id, view));
                    assert(self.document@.store.dom() =~= before.store.dom());
                    old(self).document.lemma_same_ids(self.document);
                }
                self.push_undo(snapshot);
                let from = self.place(id);
                self.do_rebuild(from, ops);
            },
            None => {
                if sketch.entity_count() > 0 {
                    let id = self.document.add_sketch(plane, sketch);
                    self.push_undo(snapshot);
                    let from: usize = self.document.len() - 1;
                    self.do_rebuild(from, ops);
                    self.selected_feature = Some(id);
                }
            },
        }
    }
}

/// What an action needs: room for what it adds, and the points that it names.
pub open spec fn can_act<T>(session: SketchSession<T>, action: SketchAction<T>) -> bool {
    &&& session.sketch@.constraints.len() < MAX_SLOTS
    &&& session.sketch@.dimensions.len() < MAX_SLOTS
    &&& action matches SketchAction::Dimension(DimensionTarget::Linear(p, q), _) ==> {
        &&& session.sketch@.points.contains_key(p.raw)
        &&& session.sketch@.points.contains_key(q.raw)
    }
}

/// The session after an action.
pub open spec fn is_acted<
    T,
    E: Fn(&Expr<T>, &Vec<T>) -> T,
    L: Fn(&T, &T) -> bool,
    F: Fn(&Vec<Vec<T>>) -> Option<Factors<T>>,
>(
    ops: SolverOps<E, L, F>,
    before: SketchSession<T>,
    action: SketchAction<T>,
    after: SketchSession<T>,
) -> bool {
    &&& after.tool == before.tool
    &&& after.same_setting(&before)
    &&& exists|result: Option<SolveResult<T>>| #[trigger]
        acts(ops, before.sketch@, action, after.sketch@, result) && (match result {
            Some(r) => after.last_solve == Some(r) && after.selection@.len() == 0,
            None => after.last_solve == before.last_solve && after.selection == before.selection,
        })
}

/// The document has changed from `before`: that one can be gone back to, and
/// the history is rebuilt from a place on.
pub open spec fn is_committed<
    T,
    V,
    E: Fn(&Expr<T>, &Vec<T>) -> T,
    L: Fn(&T, &T) -> bool,
    M: Fn(&T, &T) -> bool,
    K: Fn(&SolidPlan<T>) -> Result<TriMesh<V>, String>,
>(ops: RebuildOps<E, L, M, K>, from: int, before: Editor<T, V>, after: Editor<T, V>) -> bool {
    &&& document_views(after.undo_stack@) == pushed(
        document_views(before.undo_stack@),
        before.document@,
    )
    &&& is_refreshed(ops, from, before.rebuild_state.entries@, after)
}

/// A feature has been removed: the history is rebuilt from the first place that
/// is affected.
pub open spec fn is_committed_from_first<
    T,
    V,
    E: Fn(&Expr<T>, &Vec<T>) -> T,
    L: Fn(&T, &T) -> bool,
    M: Fn(&T, &T) -> bool,
    K: Fn(&SolidPlan<T>) -> Result<TriMesh<V>, String>,
>(
    ops: RebuildOps<E, L, M, K>,
    id: FeatureId,
    before: Editor<T, V>,
    after: Editor<T, V>,
) -> bool {
    exists|from: int| #[trigger]
        before.document@.is_first_affected(id, from) && is_committed(ops, from, before, after)
}

/// The state after a session has ended.
pub open spec fn is_finished<
    T,
    V,
    E: Fn(&Expr<T>, &Vec<T>) -> T,
    L: Fn(&T, &T) -> bool,
    M: Fn(&T, &T) -> bool,
    K: Fn(&SolidPlan<T>) -> Result<TriMesh<V>, String>,
>(
    ops: RebuildOps<E, L, M, K>,
    session: SketchSession<T>,
    before: Editor<T, V>,
    after: Editor<T, V>,
) -> bool {
    match session.editing {
        Some(id) => {
            &&& after.document@ == with_sketch(before.document@, id, session.sketch@)
            &&& is_committed(ops, place_of(before.document@.features, id), before, after)
            &&& after.selected_feature == before.selected_feature
        },
        None => if session.sketch@.entities.len() > 0 {
            &&& after.selected_feature matches Some(id)
            &&& !before.document@.features.contains(id)
            &&& after.document@ == before.document@.with_feature(
                id,
                FeatureView::Sketch(session.plane, session.sketch@),
            )
            &&& is_committed(ops, before.document@.features.len() as int, before, after)
        } else {
            &&& same_model(after, before)
            &&& after.selected_face == before.selected_face
        },
    }
}

/// The document has the very sketch of the session, with its ids, where the
/// session puts it.
pub open spec fn holds_edited<T, V>(
    session: SketchSession<T>,
    before: Editor<T, V>,
    after: Editor<T, V>,
) -> bool {
    match session.editing {
        Some(id) => before.document@.store.contains_key(id.raw) && before.document@.store[id.raw] is Sketch
            ==> (after.document.feature_at(id) matches Feature::Sketch(s) && s.sketch
            == session.sketch),
        None => session.sketch@.entities.len() > 0 ==> (after.selected_feature matches Some(id)
            && after.document.feature_at(id) == Feature::Sketch(
            SketchFeature { plane: session.plane, sketch: session.sketch },
        )),
    }
}

/// The last sketch of the history.
pub open spec fn last_sketch<T>(doc: DocumentView<T>) -> Option<FeatureId> {
    let sketches = doc.features.filter(|f: FeatureId| doc.store[f.raw] is Sketch);
    if sketches.len() > 0 {
        Some(sketches.last())
    } else {
        None
    }
}

/// The sketch and the profile of a pending feature.
pub open spec fn pending_source<T>(pending: PendingFeature<T>) -> (FeatureId, usize) {
    match pending {
        PendingFeature::Extrude { sketch, profile, .. } => (sketch, profile),
        PendingFeature::Revolve { sketch, profile, .. } => (sketch, profile),
    }
}

/// The place in a list of what is shown with a number: the shown numbers
/// begin with one.
pub open spec fn hidden_index(shown: i32) -> int {
    if shown > 0 {
        shown - 1
    } else {
        0
    }
}

/// The place in a list of what is shown with a number.
pub fn index_of_shown(shown: i32) -> (index: usize)
    ensures
        index == hidden_index(shown),
{
    if shown > 0 {
        (shown - 1) as usize
    } else {
        0
    }
}

/// A change of a parameter.
#[derive(Debug, Clone, Copy, PartialEq)]
pub enum Edit<T> {
    /// Another distance of an extrusion.
    Distance(T),
    /// Another profile, by the number that it is shown with.
    Profile(i32),
    /// Another angle of a revolution.
    Angle(T),
    /// Another axis of a revolution.
    Axis(RevolveAxis),
}

/// The feature after a change. A change of what it does not have leaves it as
/// it is.
pub open spec fn with_edit<T>(feature: FeatureView<T>, edit: Edit<T>) -> FeatureView<T> {
    match feature {
        FeatureView::Sketch(..) => feature,
        FeatureView::Extrude(e) => match edit {
            Edit::Distance(distance) => FeatureView::Extrude(ExtrudeFeature { distance, ..e }),
            Edit::Profile(shown) => FeatureView::Extrude(
                ExtrudeFeature { profile: hidden_index(shown) as usize, ..e },
            ),
            _ => feature,
        },
        FeatureView::Revolve(r) => match edit {
            Edit::Angle(angle) => FeatureView::Revolve(RevolveFeature { angle, ..r }),
            Edit::Axis(axis) => FeatureView::Revolve(RevolveFeature { axis, ..r }),
            Edit::Profile(shown) => FeatureView::Revolve(
                RevolveFeature { profile: hidden_index(shown) as usize, ..r },
            ),
            _ => feature,
        },
    }
}

/// The feature after one change after the other.
pub open spec fn with_edits<T>(feature: FeatureView<T>, edits: Seq<Edit<T>>) -> FeatureView<T>
    decreases edits.len(),
{
    if edits.len() == 0 {
        feature
    } else {
        with_edit(with_edits(feature, edits.drop_last()), edits.last())
    }
}

/// The pending feature after a change; the angle is in degrees.
pub open spec fn with_pending_edit<T>(pending: PendingFeature<T>, edit: Edit<T>) -> PendingFeature<
    T,
> {
    match pending {
        PendingFeature::Extrude { sketch, profile, distance } => match edit {
            Edit::Distance(d) => PendingFeature::Extrude { sketch, profile, distance: d },
            Edit::Profile(shown) => PendingFeature::Extrude {
                sketch,
                profile: hidden_index(shown) as usize,
                distance,
            },
            _ => pending,
        },
        PendingFeature::Revolve { sketch, profile, angle_deg, axis } => match edit {
            Edit::Angle(a) => PendingFeature::Revolve { sketch, profile, angle_deg: a, axis },
            Edit::Axis(x) => PendingFeature::Revolve { sketch, profile, angle_deg, axis: x },
            Edit::Profile(shown) => PendingFeature::Revolve {
                sketch,
                profile: hidden_index(shown) as usize,
                angle_deg,
                axis,
            },
            _ => pending,
        },
    }
}

/// The pending feature with another sketch.
pub open spec fn with_source<T>(pending: PendingFeature<T>, id: FeatureId) -> PendingFeature<T> {
    match pending {
        PendingFeature::Extrude { sketch, profile, distance } => PendingFeature::Extrude {
            sketch: id,
            profile,
            distance,
        },
        PendingFeature::Revolve { sketch, profile, angle_deg, axis } => PendingFeature::Revolve {
            sketch: id,
            profile,
            angle_deg,
            axis,
        },
    }
}

impl<T: Copy> PendingFeature<T> {
    /// The title of the dialog.
    pub fn title(&self) -> (text: &'static str)
        ensures
            text@ == (match self {
                PendingFeature::Extrude { .. } => "Extrude"@,
                PendingFeature::Revolve { .. } => "Revolve"@,
            }),
    {
        match self {
            PendingFeature::Extrude { .. } => "Extrude",
            PendingFeature::Revolve { .. } => "Revolve",
        }
    }

    /// The sketch and the profile.
    pub fn source(&self) -> (source: (FeatureId, usize))
        ensures
            source == pending_source(*self),
    {
        match self {
            PendingFeature::Extrude { sketch, profile, .. } => (*sketch, *profile),
            PendingFeature::Revolve { sketch, profile, .. } => (*sketch, *profile),
        }
    }

    /// Takes another sketch.
    pub fn set_sketch(&mut self, id: FeatureId)
        ensures
            *final(self) == with_source(*old(self), id),
    {
        match *self {
            PendingFeature::Extrude { sketch, profile, distance } => {
                *self = PendingFeature::Extrude { sketch: id, profile, distance };
            },
            PendingFeature::Revolve { sketch, profile, angle_deg, axis } => {
                *self = PendingFeature::Revolve { sketch: id, profile, angle_deg, axis };
            },
        }
    }

    /// Changes a parameter.
    pub fn apply(&mut self, edit: Edit<T>)
        ensures
            *final(self) == with_pending_edit(*old(self), edit),
    {
        match *self {
            PendingFeature::Extrude { sketch, profile, distance } => match edit {
                Edit::Distance(d) => {
                    *self = PendingFeature::Extrude { sketch, profile, distance: d };
                },
                Edit::Profile(shown) => {
                    *self = PendingFeature::Extrude {
                        sketch,
                        profile: index_of_shown(shown),
                        distance,
                    };
                },
                _ => {},
            },
            PendingFeature::Revolve { sketch, profile, angle_deg, axis } => match edit {
                Edit::Angle(a) => {
                    *self = PendingFeature::Revolve { sketch, profile, angle_deg: a, axis };
                },
                Edit::Axis(x) => {
                    *self = PendingFeature::Revolve { sketch, profile, angle_deg, axis: x };
                },
                Edit::Profile(shown) => {
                    *self = PendingFeature::Revolve {
                        sketch,
                        profile: index_of_shown(shown),
                        angle_deg,
                        axis,
                    };
                },
                _ => {},
            },
        }
    }
}

/// Changes a parameter of a feature.
fn apply_edit<T: Copy>(feature: &mut Feature<T>, edit: Edit<T>)
    requires
        old(feature).wf(),
    ensures
        final(feature).wf(),
        final(feature)@ == with_edit(old(feature)@, edit),
        *old(feature) is Sketch ==> *final(feature) == *old(feature),
{
    match feature {
        Feature::Sketch(_) => {},
        Feature::Extrude(e) => match edit {
            Edit::Distance(distance) => {
                e.distance = distance;
            },
            Edit::Profile(shown) => {
                e.profile = index_of_shown(shown);
            },
            _ => {},
        },
        Feature::Revolve(r) => match edit {
            Edit::Angle(angle) => {
                r.angle = angle;
            },
            Edit::Axis(axis) => {
                r.axis = axis;
            },
            Edit::Profile(shown) => {
                r.profile = index_of_shown(shown);
            },
            _ => {},
        },
    }
}

/// Changes parameters of a feature, one after the other.
fn apply_edits<T: Copy>(feature: &mut Feature<T>, edits: &Vec<Edit<T>>)
    requires
        old(feature).wf(),
    ensures
        final(feature).wf(),
        final(feature)@ == with_edits(old(feature)@, edits@),
        *old(feature) is Sketch ==> *final(feature) == *old(feature),
        old(feature)@.linked() ==> final(feature)@.linked(),
{
    let mut i: usize = 0;
    while i < edits.len()
        invariant
            i <= edits@.len(),
            feature.wf(),
            feature@ == with_edits(old(feature)@, edits@.take(i as int)),
            *old(feature) is Sketch ==> *feature == *old(feature),
            old(feature)@.linked() ==> feature@.linked(),
        decreases edits@.len() - i,
    {
        apply_edit(feature, edits[i]);
        assert(edits@.take(i + 1).drop_last() =~= edits@.take(i as int));
        i = i + 1;
    }
    assert(edits@.take(i as int) =~= edits@);
}

/// The document with a changed feature.
pub open spec fn with_edited<T>(
    doc: DocumentView<T>,
    id: FeatureId,
    edits: Seq<Edit<T>>,
) -> DocumentView<T> {
    DocumentView { store: doc.store.insert(id.raw, with_edits(doc.store[id.raw], edits)), ..doc }
}

/// The feature that a pending one becomes.
pub open spec fn becomes<T, R: Fn(&T) -> T>(
    radians: R,
    pending: PendingFeature<T>,
    feature: FeatureView<T>,
) -> bool {
    match pending {
        PendingFeature::Extrude { sketch, profile, distance } => feature == FeatureView::Extrude(
            ExtrudeFeature { sketch, profile, distance },
        ),
        PendingFeature::Revolve { sketch, profile, angle_deg, axis } => {
            &&& feature matches FeatureView::Revolve(r)
            &&& r == (RevolveFeature { sketch, profile, axis, angle: r.angle })
            &&& call_ensures(radians, (&angle_deg,), r.angle)
        },
    }
}

/// The state after a dialog was confirmed: the feature stands at the end and
/// is selected. If it could not be built, the user is told why; else the view
/// is to be fitted.
pub open spec fn is_confirmed<
    T,
    V,
    R: Fn(&T) -> T,
    E: Fn(&Expr<T>, &Vec<T>) -> T,
    L: Fn(&T, &T) -> bool,
    M: Fn(&T, &T) -> bool,
    K: Fn(&SolidPlan<T>) -> Result<TriMesh<V>, String>,
>(
    radians: R,
    ops: RebuildOps<E, L, M, K>,
    pending: PendingFeature<T>,
    before: Editor<T, V>,
    after: Editor<T, V>,
    fit: bool,
) -> bool {
    &&& after.mode is Idle
    &&& after.selected_feature matches Some(id)
    &&& !before.document@.features.contains(id)
    &&& exists|feature: FeatureView<T>| #[trigger]
        becomes(radians, pending, feature) && after.document@ == before.document@.with_feature(
            id,
            feature,
        )
    &&& is_committed(ops, before.document@.features.len() as int, before, after)
    &&& match after.rebuild_state.entries@.last().status {
        FeatureStatus::Failed(reason) => !fit && (after.info matches Some(text) && text@
            == reason@),
        FeatureStatus::Built => fit && after.info == before.info,
    }
}

impl<T: Copy, V> Editor<T, V> {
    /// Asks for the parameters of an extrusion of the last sketch, if there
    /// is one.
    pub fn open_extrude<E: Fn(&Expr<T>, &Vec<T>) -> T>(&mut self, eval: &E)
        requires
            old(self).wf(),
            evaluates_all(*eval),
        ensures
            final(self).wf(),
            match last_sketch(old(self).document@) {
                Some(id) => {
                    &&& final(self).mode matches AppMode::FeatureDialog(
                        PendingFeature::Extrude { sketch, profile, distance },
                    )
                    &&& sketch == id
                    &&& profile == 0
                    &&& is_number(*eval, 2, distance)
                    &&& final(self).info is None
                    &&& final(self).selected_face == old(self).selected_face
                    &&& same_model(*final(self), *old(self))
                },
                None => *final(self) == *old(self),
            },
    {
        if let Some(sketch) = self.newest_sketch() {
            self.info = None;
            let distance = number(eval, 2);
            self.mode = AppMode::FeatureDialog(
                PendingFeature::Extrude { sketch, profile: 0, distance },
            );
        }
    }

    /// Asks for the parameters of a revolution of the last sketch, if there
    /// is one.
    pub fn open_revolve<E: Fn(&Expr<T>, &Vec<T>) -> T>(&mut self, eval: &E)
        requires
            old(self).wf(),
            evaluates_all(*eval),
        ensures
            final(self).wf(),
            match last_sketch(old(self).document@) {
                Some(id) => {
                    &&& final(self).mode matches AppMode::FeatureDialog(
                        PendingFeature::Revolve { sketch, profile, angle_deg, axis },
                    )
                    &&& sketch == id
                    &&& profile == 0
                    &&& is_number(*eval, 360, angle_deg)
                    &&& axis == RevolveAxis::V
                    &&& final(self).info is None
                    &&& final(self).selected_face == old(self).selected_face
                    &&& same_model(*final(self), *old(self))
                },
                None => *final(self) == *old(self),
            },
    {
        if let Some(sketch) = self.newest_sketch() {
            self.info = None;
            let angle_deg = number(eval, 360);
            self.mode = AppMode::FeatureDialog(
                PendingFeature::Revolve { sketch, profile: 0, angle_deg, axis: RevolveAxis::V },
            );
        }
    }

    /// The last sketch of the history.
    fn newest_sketch(&self) -> (id: Option<FeatureId>)
        requires
            self.wf(),
        ensures
            id == last_sketch(self.document@),
    {
        let list = self.document.sketch_features();
        let ghost ids = list@.map_values(|e: (FeatureId, &SketchFeature<T>)| e.0);
        assert(ids.len() == list@.len());
        if list.len() > 0 {
            let last: usize = list.len() - 1;
            assert(ids.last() == list@[last as int].0);
            Some(list[last].0)
        } else {
            None
        }
    }

    /// Adds the feature that the dialog describes. Returns whether the view
    /// is to be fitted to the scene. Without a dialog nothing happens.
    pub fn confirm<
        R: Fn(&T) -> T,
        E: Fn(&Expr<T>, &Vec<T>) -> T,
        L: Fn(&T, &T) -> bool,
        M: Fn(&T, &T) -> bool,
        K: Fn(&SolidPlan<T>) -> Result<TriMesh<V>, String>,
    >(&mut self, radians: &R, ops: &RebuildOps<E, L, M, K>) -> (fit: bool)
        requires
            old(self).wf(),
            old(self).document@.store.len() < MAX_SLOTS,
            forall|t: &T| #[trigger] call_requires(radians, (t,)),
            rebuild_usable::<T, V, E, L, M, K>(*ops),
        ensures
            final(self).wf(),
            match old(self).mode {
                AppMode::FeatureDialog(pending) => is_confirmed(
                    *radians,
                    *ops,
                    pending,
                    *old(self),
                    *final(self),
                    fit,
                ),
                _ => *final(self) == *old(self) && !fit,
            },
            old(self).document.keeps_ids(final(self).document),
            old(self).document.keeps_sketch_ids(final(self).document),
    {
        proof {
            self.document.lemma_same_ids(self.document);
            self.document.lemma_shares(self.document);
        }
        let pending = match &self.mode {
            AppMode::FeatureDialog(pending) => *pending,
            _ => {
                return false;
            },
        };
        self.mode = AppMode::Idle;
        proof {
            self.document.lemma_wf();
        }
        let ghost before = self.document@;
        let snapshot = self.document.duplicate();
        let id = match pending {
            PendingFeature::Extrude { sketch, profile, distance } => {
                let id = self.document.add_extrude(sketch, profile, distance);
                assert(becomes(*radians, pending, self.document@.store[id.raw]));
                id
            },
            PendingFeature::Revolve { sketch, profile, angle_deg, axis } => {
                let angle = radians(&angle_deg);
                let id = self.document.add_revolve(sketch, profile, axis, angle);
                assert(becomes(*radians, pending, self.document@.store[id.raw]));
                id
            },
        };
        assert(self.document@ == before.with_feature(id, self.document@.store[id.raw]));
        proof {
            old(self).document.lemma_shares(self.document);
        }
        self.push_undo(snapshot);
        let from: usize = self.document.len() - 1;
        self.do_rebuild(from, ops);
        self.selected_feature = Some(id);
        let ghost entries = self.rebuild_state.entries@;
        proof {
            let features = self.document@.features;
            let kept = kept_count(features, old(self).rebuild_state.entries@, from as int);
            assert forall|i: int| 0 <= i < entries.len() implies (
            #[trigger] entries[i]).feature == features[i] by {
                if i < kept {
                    assert(entries.take(kept)[i] == old(self).rebuild_state.entries@.take(kept)[i]);
                    assert(old(self).rebuild_state.entries@[i].feature == features[i]);
                } else {
                    assert(is_entry(*ops, self.document@, features[i], entries[i]));
                }
            }
            assert forall|i: int| 0 <= i < entries.len() && (#[trigger] entries[i]).feature
                == id implies i == entries.len() - 1 by {
                if i < before.features.len() {
                    assert(before.features[i] == id);
                    assert(before.features.contains(id));
                }
            }
            assert(entries[entries.len() - 1].feature == id);
        }
        match self.rebuild_state.status_of(id) {
            Some(FeatureStatus::Failed(message)) => {
                let text = message.clone();
                self.info = Some(text);
                false
            },
            _ => true,
        }
    }

    /// Leaves the dialog.
    pub fn cancel(&mut self)
        requires
            old(self).wf(),
        ensures
            final(self).wf(),
            final(self).mode == (match old(self).mode {
                AppMode::FeatureDialog(_) => AppMode::Idle,
                _ => old(self).mode,
            }),
            final(self).info == old(self).info,
            final(self).selected_face == old(self).selected_face,
            same_model(*final(self), *old(self)),
    {
        let leaves = match &self.mode {
            AppMode::FeatureDialog(_) => true,
            _ => false,
        };
        if leaves {
            self.mode = AppMode::Idle;
        }
    }

    /// Changes parameters of the selected feature and rebuilds from it on.
    /// While a value is dragged, only the document from before the drag can be
    /// gone back to.
    pub fn edit_selected<
        E: Fn(&Expr<T>, &Vec<T>) -> T,
        L: Fn(&T, &T) -> bool,
        M: Fn(&T, &T) -> bool,
        K: Fn(&SolidPlan<T>) -> Result<TriMesh<V>, String>,
    >(
        &mut self,
        edits: &Vec<Edit<T>>,
        drag_started: bool,
        dragging: bool,
        ops: &RebuildOps<E, L, M, K>,
    )
        requires
            old(self).wf(),
            rebuild_usable::<T, V, E, L, M, K>(*ops),
        ensures
            final(self).wf(),
            match old(self).selected_feature {
                Some(id) if edits@.len() > 0 && old(self).document@.store.contains_key(id.raw) => {
                    &&& same_ui(*final(self), *old(self))
                    &&& final(self).document@ == with_edited(old(self).document@, id, edits@)
                    &&& is_refreshed(
                        *ops,
                        place_of(old(self).document@.features, id),
                        old(self).rebuild_state.entries@,
                        *final(self),
                    )
                    &&& document_views(final(self).undo_stack@) == if drag_started || !dragging {
                        pushed(document_views(old(self).undo_stack@), old(self).document@)
                    } else {
                        document_views(old(self).undo_stack@)
                    }
                },
                _ => *final(self) == *old(self),
            },
            stays_up_to_date(*ops, *old(self), *final(self)),
            old(self).document.keeps_ids(final(self).document),
            old(self).document.keeps_sketch_ids(final(self).document),
    {
        proof {
            self.document.lemma_same_ids(self.document);
            self.document.lemma_shares(self.document);
        }
        let id = match self.selected_feature {
            Some(id) => id,
            None => {
                return;
            },
        };
        if edits.len() == 0 || self.document.feature(id).is_none() {
            return;
        }
        let ghost before = self.document@;
        let snapshot = self.document.duplicate();
        if let Some(feature) = self.document.feature_mut(id) {
            apply_edits(feature, edits);
        }
        assert(self.document@ == with_edited(before, id, edits@));
        proof {
            assert(self.document@.store.dom() =~= before.store.dom());
            old(self).document.lemma_same_ids(self.document);
            assert forall|other: FeatureId| #[trigger]
                before.store.contains_key(other.raw) && self.document@.store.contains_key(
                    other.raw,
                ) implies old(self).document.feature_at(other).keeps_ids(
                self.document.feature_at(other),
            ) by {
                if let Feature::Sketch(s) = old(self).document.feature_at(other) {
                    s.sketch.lemma_keeps_ids_here();
                }
            }
        }
        assert(self.document@.linked()) by {
            assert(before.store[id.raw].linked());
        }
        if drag_started || !dragging {
            self.push_undo(snapshot);
        }
        let from = self.place(id);
        self.do_rebuild(from, ops);
        proof {
            if is_in_order(before) && is_up_to_date(*ops, before, old(self).rebuild_state.entries@) {
                assert(self.document@.store.dom() =~= before.store.dom());
                lemma_changed_feature(
                    *ops,
                    before,
                    self.document@,
                    id,
                    old(self).rebuild_state.entries@,
                    self.rebuild_state.entries@,
                );
            }
        }
    }

    /// Removes the selected feature and all that refer to it.
    pub fn delete_selected<
        E: Fn(&Expr<T>, &Vec<T>) -> T,
        L: Fn(&T, &T) -> bool,
        M: Fn(&T, &T) -> bool,
        K: Fn(&SolidPlan<T>) -> Result<TriMesh<V>, String>,
    >(&mut self, ops: &RebuildOps<E, L, M, K>)
        requires
            old(self).wf(),
            rebuild_usable::<T, V, E, L, M, K>(*ops),
        ensures
            final(self).wf(),
            match old(self).selected_feature {
                Some(id) => {
                    &&& final(self).document@ == old(self).document@.without(id)
                    &&& final(self).selected_feature is None
                    &&& final(self).mode == old(self).mode
                    &&& final(self).info == old(self).info
                    &&& is_committed_from_first(*ops, id, *old(self), *final(self))
                },
                None => *final(self) == *old(self),
            },
            stays_up_to_date(*ops, *old(self), *final(self)),
            !old(self).document.is_worn() ==> old(self).document.keeps_ids(final(self).document),
            old(self).document.keeps_sketch_ids(final(self).document),
    {
        proof {
            self.document.lemma_same_ids(self.document);
            self.document.lemma_shares(self.document);
        }
        let id = match self.selected_feature {
            Some(id) => id,
            None => {
                return;
            },
        };
        let ghost before = self.document@;
        proof {
            self.document.lemma_wf();
        }
        let snapshot = self.document.duplicate();
        self.push_undo(snapshot);
        let from = self.document.remove(id);
        self.selected_feature = None;
        proof {
            assert(before.is_first_affected(id, from as int));
            old(self).document.lemma_shares(self.document);
        }
        self.do_rebuild(from, ops);
        proof {
            if is_in_order(before) && is_up_to_date(*ops, before, old(self).rebuild_state.entries@) {
                lemma_removed_feature(
                    *ops,
                    before,
                    id,
                    from as int,
                    old(self).rebuild_state.entries@,
                    self.rebuild_state.entries@,
                );
            }
        }
    }
}

/// Every feature is made from a sketch that stands before it, if from any.
pub open spec fn is_in_order<T>(doc: DocumentView<T>) -> bool {
    &&& doc.sound()
    &&& forall|i: int|
        0 <= i < doc.features.len() ==> (doc.store[(
        #[trigger] doc.features[i]).raw].sketch_ref() matches Some(sketch) ==> stands_before(
            doc.features,
            sketch,
            i,
        ))
}

/// What was shown of the features before a change was right, and so is what is
/// shown after it.
pub open spec fn stays_up_to_date<
    T,
    V,
    E: Fn(&Expr<T>, &Vec<T>) -> T,
    L: Fn(&T, &T) -> bool,
    M: Fn(&T, &T) -> bool,
    K: Fn(&SolidPlan<T>) -> Result<TriMesh<V>, String>,
>(ops: RebuildOps<E, L, M, K>, before: Editor<T, V>, after: Editor<T, V>) -> bool {
    is_in_order(before.document@) && is_up_to_date(
        ops,
        before.document@,
        before.rebuild_state.entries@,
    ) ==> is_up_to_date(ops, after.document@, after.rebuild_state.entries@)
}

/// A rebuild from a feature on is enough where only that feature has changed.
pub proof fn lemma_changed_feature<
    T,
    V,
    E: Fn(&Expr<T>, &Vec<T>) -> T,
    L: Fn(&T, &T) -> bool,
    M: Fn(&T, &T) -> bool,
    K: Fn(&SolidPlan<T>) -> Result<TriMesh<V>, String>,
>(
    ops: RebuildOps<E, L, M, K>,
    before: DocumentView<T>,
    after: DocumentView<T>,
    id: FeatureId,
    entries: Seq<RebuildEntry<V>>,
    rebuilt: Seq<RebuildEntry<V>>,
)
    requires
        is_in_order(before),
        is_up_to_date(ops, before, entries),
        after.features == before.features,
        after.store.dom() == before.store.dom(),
        forall|k: u64| k != id.raw ==> #[trigger] after.store[k] == before.store[k],
        is_rebuilt(ops, after, place_of(before.features, id), entries, rebuilt),
    ensures
        is_up_to_date(ops, after, rebuilt),
{
    let from = place_of(before.features, id);
    before.features.index_of_first_ensures(id);
    assert forall|i: int| 0 <= i < from implies #[trigger] before.features[i] == after.features[i]
        && before.store[before.features[i].raw] == after.store[before.features[i].raw] by {
        assert(before.features[i] != id);
    }
    assert(agree_before(before, after, from));
    assert(after.listed()) by {
        assert forall|f: FeatureId| #[trigger]
            after.features.contains(f) implies after.store.contains_key(f.raw) by {
            assert(before.features.contains(f));
            assert(before.store.contains_key(f.raw));
        }
    }
    lemma_partial_rebuild(ops, before, after, from, entries, rebuilt);
}

/// A rebuild of the last feature is enough where only that one is new.
pub proof fn lemma_added_feature<
    T,
    V,
    E: Fn(&Expr<T>, &Vec<T>) -> T,
    L: Fn(&T, &T) -> bool,
    M: Fn(&T, &T) -> bool,
    K: Fn(&SolidPlan<T>) -> Result<TriMesh<V>, String>,
>(
    ops: RebuildOps<E, L, M, K>,
    before: DocumentView<T>,
    id: FeatureId,
    feature: FeatureView<T>,
    entries: Seq<RebuildEntry<V>>,
    rebuilt: Seq<RebuildEntry<V>>,
)
    requires
        is_in_order(before),
        !before.features.contains(id),
        is_up_to_date(ops, before, entries),
        is_rebuilt(
            ops,
            before.with_feature(id, feature),
            before.features.len() as int,
            entries,
            rebuilt,
        ),
    ensures
        is_up_to_date(ops, before.with_feature(id, feature), rebuilt),
{
    let after = before.with_feature(id, feature);
    let from = before.features.len() as int;
    assert forall|i: int| 0 <= i < from implies #[trigger] before.features[i] == after.features[i]
        && before.store[before.features[i].raw] == after.store[before.features[i].raw] by {
        assert(before.features.contains(before.features[i]));
    }
    assert(agree_before(before, after, from));
    assert(after.listed()) by {
        assert forall|f: FeatureId| #[trigger]
            after.features.contains(f) implies after.store.contains_key(f.raw) by {
            let i = choose|i: int| 0 <= i < after.features.len() && after.features[i] == f;
            if i < from {
                assert(before.features[i] == f);
                assert(before.features.contains(f));
            }
        }
    }
    lemma_partial_rebuild(ops, before, after, from, entries, rebuilt);
}

/// A rebuild from the first feature that goes is enough where features are
/// removed.
pub proof fn lemma_removed_feature<
    T,
    V,
    E: Fn(&Expr<T>, &Vec<T>) -> T,
    L: Fn(&T, &T) -> bool,
    M: Fn(&T, &T) -> bool,
    K: Fn(&SolidPlan<T>) -> Result<TriMesh<V>, String>,
>(
    ops: RebuildOps<E, L, M, K>,
    before: DocumentView<T>,
    id: FeatureId,
    from: int,
    entries: Seq<RebuildEntry<V>>,
    rebuilt: Seq<RebuildEntry<V>>,
)
    requires
        is_in_order(before),
        is_up_to_date(ops, before, entries),
        before.is_first_affected(id, from),
        is_rebuilt(ops, before.without(id), from, entries, rebuilt),
    ensures
        is_up_to_date(ops, before.without(id), rebuilt),
{
    let after = before.without(id);
    lemma_remove_keeps_prefix(before, id, from);
    assert forall|i: int| 0 <= i < from implies #[trigger] before.features[i] == after.features[i]
        && before.store[before.features[i].raw] == after.store[before.features[i].raw] by {
        assert(before.features.take(from)[i] == before.features[i]);
        assert(after.features.take(from)[i] == after.features[i]);
    }
    assert(agree_before(before, after, from));
    assert(after.listed()) by {
        if before.features.contains(id) {
            let stays = |f: FeatureId| !before.goes_with(id, f);
            assert forall|f: FeatureId| #[trigger]
                after.features.contains(f) implies after.store.contains_key(f.raw) by {
                let i = choose|i: int| 0 <= i < after.features.len() && after.features[i] == f;
                before.features.lemma_filter_pred(stays, i);
                before.features.lemma_filter_contains_rev(stays, f);
                assert(FeatureId { raw: f.raw } == f);
            }
        }
    }
    lemma_partial_rebuild(ops, before, after, from, entries, rebuilt);
}

/// Going back takes back a change: after a change and an undo the document is
/// as it was, its history is rebuilt, and the documents that could be gone
/// back to are those of before, but for the oldest if there were too many.
pub proof fn lemma_undo_takes_back<
    T,
    V,
    E: Fn(&Expr<T>, &Vec<T>) -> T,
    L: Fn(&T, &T) -> bool,
    M: Fn(&T, &T) -> bool,
    K: Fn(&SolidPlan<T>) -> Result<TriMesh<V>, String>,
>(
    ops: RebuildOps<E, L, M, K>,
    from: int,
    before: Editor<T, V>,
    changed: Editor<T, V>,
    after: Editor<T, V>,
)
    requires
        is_committed(ops, from, before, changed),
        is_undone(ops, changed, after),
    ensures
        after.document@ == before.document@,
        is_up_to_date(ops, before.document@, after.rebuild_state.entries@),
        document_views(after.undo_stack@) == if before.undo_stack@.len() < MAX_UNDO {
            document_views(before.undo_stack@)
        } else {
            document_views(before.undo_stack@).drop_first()
        },
{
    let stack = document_views(before.undo_stack@);
    let grown = document_views(changed.undo_stack@);
    assert(grown == pushed(stack, before.document@));
    assert(grown.len() == changed.undo_stack@.len());
    assert(grown.last() == before.document@);
    assert(grown[grown.len() - 1] == changed.undo_stack@.last()@);
    assert(document_views(after.undo_stack@) =~= grown.drop_last());
    if before.undo_stack@.len() < MAX_UNDO {
        assert(grown.drop_last() =~= stack);
    } else {
        assert(grown.drop_last() =~= stack.drop_first());
    }
}

} // verus!
