//! The editing of one sketch: tools, selection and dragging.
use vstd::prelude::*;

use crate::arith::{
    Order, compares_all, computes, eval_closed, evaluates_all, first_least, is_first_least, is_rank,
    is_reciprocal, orders_all, rank_within, reciprocal,
};
use crate::constraint::{Constraint, dist_sq};
use crate::dimension::{
    Dimension, DimensionKind, DimensionTarget, driver_of, is_shown_value, is_stored_value,
    kind_of_target, with_dimension,
};
use crate::document::SketchPlane;
use crate::expr::{Expr, Reading, larger, root};
use crate::ids::{ConstraintId, DimensionId, EntityId, FeatureId, PointId};
use crate::measure::{distance, is_hit, is_nearest};
use crate::sketch::{Sketch, SketchEntity, SketchView, attached, constraint_check};
use crate::slots::{MAX_SLOTS, in_slot_order, slot_order};
use crate::solver::{
    Factors, SolveResult, SolverOps, lemma_solving_keeps_structure, ops_usable, pull, solves,
};

verus! {

/// A point that was clicked: an existing one, or a place where one will be
/// made.
#[derive(Debug, Clone, Copy, PartialEq)]
pub struct PendingPoint<T> {
    /// Its position.
    pub pos: [T; 2],
    /// The existing point.
    pub existing: Option<PointId>,
}

/// The tools. What was clicked so far is kept here and nothing of it in the
/// sketch, until the last click.
#[derive(Debug, Clone, Copy, PartialEq)]
pub enum SketchTool<T> {
    /// Selects and drags.
    Select,
    /// Draws lines.
    Line {
        /// The first end.
        start: Option<PendingPoint<T>>,
    },
    /// Draws circles.
    Circle {
        /// The centre.
        center: Option<PendingPoint<T>>,
    },
}

/// Which tool.
#[derive(Debug, Clone, Copy, PartialEq, Eq, Structural)]
pub enum ToolKind {
    /// Selects and drags.
    Select,
    /// Draws lines.
    Line,
    /// Draws circles.
    Circle,
}

/// The name of a tool.
pub open spec fn tool_label(kind: ToolKind) -> Seq<char> {
    match kind {
        ToolKind::Select => "Auswählen"@,
        ToolKind::Line => "Linie"@,
        ToolKind::Circle => "Kreis"@,
    }
}

impl ToolKind {
    /// The name that is shown.
    pub fn label(self) -> (name: &'static str)
        ensures
            name@ == tool_label(self),
    {
        match self {
            ToolKind::Select => "Auswählen",
            ToolKind::Line => "Linie",
            ToolKind::Circle => "Kreis",
        }
    }
}

impl<T> SketchTool<T> {
    /// Which tool it is.
    pub open spec fn kind_spec(self) -> ToolKind {
        match self {
            SketchTool::Select => ToolKind::Select,
            SketchTool::Line { .. } => ToolKind::Line,
            SketchTool::Circle { .. } => ToolKind::Circle,
        }
    }

    /// What was clicked so far.
    pub open spec fn pending(self) -> Option<PendingPoint<T>> {
        match self {
            SketchTool::Select => None,
            SketchTool::Line { start } => start,
            SketchTool::Circle { center } => center,
        }
    }

    /// The tool with nothing clicked so far.
    pub open spec fn fresh(kind: ToolKind) -> SketchTool<T> {
        match kind {
            ToolKind::Select => SketchTool::Select,
            ToolKind::Line => SketchTool::Line { start: None },
            ToolKind::Circle => SketchTool::Circle { center: None },
        }
    }

    /// The tool with nothing clicked so far.
    pub fn new(kind: ToolKind) -> (tool: Self)
        ensures
            tool == SketchTool::<T>::fresh(kind),
    {
        match kind {
            ToolKind::Select => SketchTool::Select,
            ToolKind::Line => SketchTool::Line { start: None },
            ToolKind::Circle => SketchTool::Circle { center: None },
        }
    }

    /// Which tool it is.
    pub fn kind(&self) -> (kind: ToolKind)
        ensures
            kind == self.kind_spec(),
    {
        match self {
            SketchTool::Select => ToolKind::Select,
            SketchTool::Line { .. } => ToolKind::Line,
            SketchTool::Circle { .. } => ToolKind::Circle,
        }
    }

    /// The name that is shown.
    pub fn label(&self) -> (name: &'static str)
        ensures
            name@ == tool_label(self.kind_spec()),
    {
        self.kind().label()
    }

    /// Whether something was clicked so far.
    pub fn has_pending(&self) -> (found: bool)
        ensures
            found == (self.pending() is Some),
    {
        match self {
            SketchTool::Select => false,
            SketchTool::Line { start } => start.is_some(),
            SketchTool::Circle { center } => center.is_some(),
        }
    }

    /// Forgets what was clicked so far.
    pub fn clear_pending(&mut self)
        ensures
            *final(self) == SketchTool::<T>::fresh(old(self).kind_spec()),
    {
        *self = SketchTool::new(self.kind());
    }
}

/// Something that can be selected.
#[derive(Debug, Clone, Copy, PartialEq, Eq, Structural)]
pub enum Selected {
    /// A point.
    Point(PointId),
    /// An entity.
    Entity(EntityId),
    /// A dimension.
    Dimension(DimensionId),
}

/// What can be done with a selection.
#[derive(Debug, Clone, Copy, PartialEq)]
pub enum SketchAction<T> {
    /// Adds a constraint.
    Constraint(Constraint<T>),
    /// Adds a dimension that shows the given value.
    Dimension(DimensionTarget, T),
}

/// An action with its name.
#[derive(Debug, Clone, Copy, PartialEq)]
pub struct ActionItem<T> {
    /// The name that is shown.
    pub label: &'static str,
    /// The action.
    pub action: SketchAction<T>,
}

/// The item has the name and the action.
pub open spec fn is_item<T>(item: ActionItem<T>, label: Seq<char>, action: SketchAction<T>) -> bool {
    item.label@ == label && item.action == action
}

/// The editing of one sketch.
pub struct SketchSession<T> {
    /// The plane of the sketch.
    pub plane: SketchPlane,
    /// The feature whose sketch is edited, if it is not a new one.
    pub editing: Option<FeatureId>,
    /// The sketch.
    pub sketch: Sketch<T>,
    /// The tool in use.
    pub tool: SketchTool<T>,
    /// What is selected, in the order of selection.
    pub selection: Vec<Selected>,
    /// How the last run of the solver ended.
    pub last_solve: Option<SolveResult<T>>,
    /// The point that is dragged.
    pub dragging: Option<PointId>,
    /// The dimension whose label is dragged.
    pub dragging_dim: Option<DimensionId>,
}

/// A pending point does not name a point that does not exist.
pub open spec fn pending_ok<T>(view: SketchView<T>, pending: Option<PendingPoint<T>>) -> bool {
    pending matches Some(p) ==> (p.existing matches Some(id) ==> view.points.contains_key(id.raw))
}

/// No selected point is missing.
pub open spec fn selection_ok<T>(view: SketchView<T>, selection: Seq<Selected>) -> bool {
    forall|i: int|
        0 <= i < selection.len() ==> (#[trigger] selection[i] matches Selected::Point(p)
            ==> view.points.contains_key(p.raw))
}

impl<T> SketchSession<T> {
    /// The sketch is in order, nothing pending or selected is missing, and
    /// only the selecting tool has a selection.
    pub open spec fn wf(&self) -> bool {
        &&& self.sketch.wf()
        &&& self.sketch@.linked()
        &&& pending_ok(self.sketch@, self.tool.pending())
        &&& selection_ok(self.sketch@, self.selection@)
        &&& self.tool !is Select ==> self.selection@.len() == 0
    }

    /// Everything but the sketch, the result of the solver, the selection and
    /// the tool is the same.
    pub open spec fn same_setting(&self, other: &Self) -> bool {
        &&& self.plane == other.plane
        &&& self.editing == other.editing
        &&& self.dragging == other.dragging
        &&& self.dragging_dim == other.dragging_dim
    }

    /// Begins the editing of a sketch.
    fn start_with(plane: SketchPlane, sketch: Sketch<T>, editing: Option<FeatureId>) -> (session:
        Self)
        requires
            sketch.wf(),
            sketch@.linked(),
        ensures
            session.wf(),
            session.plane == plane,
            session.editing == editing,
            session.sketch == sketch,
            session.tool is Select,
            session.selection@.len() == 0,
            session.last_solve is None,
            session.dragging is None,
            session.dragging_dim is None,
    {
        SketchSession {
            plane,
            editing,
            sketch,
            tool: SketchTool::Select,
            selection: Vec::new(),
            last_solve: None,
            dragging: None,
            dragging_dim: None,
        }
    }

    /// Begins a new sketch.
    pub fn start(plane: SketchPlane) -> (session: Self)
        ensures
            session.wf(),
            session.plane == plane,
            session.editing is None,
            session.sketch@ == SketchView::<T>::empty(),
            session.tool is Select,
            session.selection@.len() == 0,
            session.last_solve is None,
            session.dragging is None,
            session.dragging_dim is None,
    {
        Self::start_with(plane, Sketch::new(), None)
    }

    /// Begins the editing of the sketch of a feature.
    pub fn start_edit(plane: SketchPlane, sketch: Sketch<T>, feature: FeatureId) -> (session: Self)
        requires
            sketch.wf(),
            sketch@.linked(),
        ensures
            session.wf(),
            session.plane == plane,
            session.editing == Some(feature),
            session.sketch == sketch,
            session.tool is Select,
            session.selection@.len() == 0,
            session.last_solve is None,
            session.dragging is None,
            session.dragging_dim is None,
    {
        Self::start_with(plane, sketch, Some(feature))
    }

    /// Ends the editing and gives the sketch back.
    pub fn finish(self) -> (end: (Option<FeatureId>, SketchPlane, Sketch<T>))
        requires
            self.wf(),
        ensures
            end == (self.editing, self.plane, self.sketch),
            end.2.wf(),
            end.2@.linked(),
    {
        (self.editing, self.plane, self.sketch)
    }

    /// Takes another tool. Nothing stays selected.
    pub fn set_tool(&mut self, kind: ToolKind)
        requires
            old(self).wf(),
        ensures
            final(self).wf(),
            final(self).tool == SketchTool::<T>::fresh(kind),
            final(self).selection@.len() == 0,
            final(self).sketch == old(self).sketch,
            final(self).last_solve == old(self).last_solve,
            final(self).same_setting(old(self)),
    {
        self.tool = SketchTool::new(kind);
        self.selection = Vec::new();
    }

    /// The escape key: forgets what was clicked so far; if there is nothing to
    /// forget, goes back to selecting with nothing selected.
    pub fn on_escape(&mut self)
        requires
            old(self).wf(),
        ensures
            final(self).wf(),
            escapes(*old(self), *final(self)),
    {
        if self.tool.has_pending() {
            self.tool.clear_pending();
        } else {
            self.tool = SketchTool::Select;
            self.selection = Vec::new();
        }
    }
}

/// What the escape key does.
pub open spec fn escapes<T>(before: SketchSession<T>, after: SketchSession<T>) -> bool {
    &&& before.tool.pending() is Some ==> after.tool == SketchTool::<T>::fresh(
        before.tool.kind_spec(),
    ) && after.selection == before.selection
    &&& before.tool.pending() is None ==> after.tool is Select && after.selection@.len() == 0
    &&& after.sketch == before.sketch
    &&& after.last_solve == before.last_solve
    &&& after.same_setting(&before)
}

/// What the delete key does.
pub open spec fn deletes<T>(before: SketchSession<T>, after: SketchSession<T>) -> bool {
    &&& after.sketch@ == without_selected(before.sketch@, before.selection@)
    &&& after.selection@.len() == 0
    &&& after.tool == before.tool
    &&& after.last_solve == before.last_solve
    &&& after.same_setting(&before)
}

/// The sketch after the selected items are deleted one after the other.
/// Entities and dimensions go; points stay unless an entity takes them along.
pub open spec fn without_selected<T>(view: SketchView<T>, items: Seq<Selected>) -> SketchView<T>
    decreases items.len(),
{
    if items.len() == 0 {
        view
    } else {
        let rest = without_selected(view, items.drop_last());
        match items.last() {
            Selected::Entity(id) => rest.without_entity(id),
            Selected::Dimension(id) => without_dimension(rest, id),
            Selected::Point(_) => rest,
        }
    }
}

/// The sketch without a dimension and its driving constraint.
pub open spec fn without_dimension<T>(view: SketchView<T>, id: DimensionId) -> SketchView<T> {
    if view.dimensions.contains_key(id.raw) {
        SketchView {
            constraints: view.constraints.remove(view.dimensions[id.raw].constraint.raw),
            dimensions: view.dimensions.remove(id.raw),
            ..view
        }
    } else {
        view
    }
}

impl<T: Copy> SketchSession<T> {
    /// The delete key: deletes all that is selected.
    pub fn on_delete(&mut self)
        requires
            old(self).wf(),
        ensures
            final(self).wf(),
            deletes(*old(self), *final(self)),
            !old(self).sketch.is_worn() ==> old(self).sketch.keeps_ids(final(self).sketch),
    {
        let ghost items = self.selection@;
        let mut i: usize = 0;
        assert(items.take(0) =~= Seq::empty());
        proof {
            self.sketch.lemma_keeps_ids_here();
        }
        while i < self.selection.len()
            invariant
                self.selection@ == items,
                items == old(self).selection@,
                !old(self).sketch.is_worn() ==> old(self).sketch.keeps_ids(self.sketch)
                    && !self.sketch.is_worn(),
                i <= items.len(),
                self.sketch.wf(),
                self.sketch@.linked(),
                self.sketch@ == without_selected(old(self).sketch@, items.take(i as int)),
                self.tool == old(self).tool,
                self.last_solve == old(self).last_solve,
                self.same_setting(old(self)),
            decreases items.len() - i,
        {
            assert(items.take(i + 1).drop_last() =~= items.take(i as int));
            let ghost earlier = self.sketch;
            proof {
                earlier.lemma_keeps_ids_here();
            }
            match self.selection[i] {
                Selected::Entity(id) => {
                    self.sketch.delete_entity(id);
                },
                Selected::Dimension(id) => {
                    self.sketch.remove_dimension(id);
                },
                Selected::Point(_) => {},
            }
            proof {
                if !old(self).sketch.is_worn() {
                    old(self).sketch.lemma_keeps_ids_on(earlier, self.sketch);
                }
            }
            i = i + 1;
        }
        assert(items.take(i as int) =~= items);
        self.selection = Vec::new();
    }
}

/// `d` is the distance of two places.
pub open spec fn is_distance<T, E: Fn(&Expr<T>, &Vec<T>) -> T>(
    eval: E,
    a: [T; 2],
    b: [T; 2],
    d: T,
) -> bool {
    computes(
        eval,
        |at: Reading<T>|
            distance((at.num)(a[0]), (at.num)(a[1]), (at.num)(b[0]), (at.num)(b[1])),
        Seq::empty(),
        d,
    )
}

/// `d` is twice a number.
pub open spec fn is_double<T, E: Fn(&Expr<T>, &Vec<T>) -> T>(eval: E, r: T, d: T) -> bool {
    computes(eval, |at: Reading<T>| 2real * (at.num)(r), Seq::empty(), d)
}

/// The entity is a line.
pub open spec fn is_line<T>(view: SketchView<T>, id: EntityId) -> bool {
    view.entities.contains_key(id.raw) && view.entities[id.raw] is Line
}

/// The entity is a circle.
pub open spec fn is_circle<T>(view: SketchView<T>, id: EntityId) -> bool {
    view.entities.contains_key(id.raw) && view.entities[id.raw] is Circle
}

/// What can be done with a selection: for one line, its direction; for one
/// circle, its dimensions; for two lines, how they lie to each other; for two
/// points, their distance.
pub open spec fn are_actions<T, E: Fn(&Expr<T>, &Vec<T>) -> T>(
    view: SketchView<T>,
    selection: Seq<Selected>,
    eval: E,
    items: Seq<ActionItem<T>>,
) -> bool {
    if selection.len() == 1 && selection[0] is Entity {
        let e = selection[0]->Entity_0;
        if is_line(view, e) {
            &&& items.len() == 2
            &&& is_item(
                items[0],
                "Horizontal"@,
                SketchAction::Constraint(Constraint::Horizontal(e)),
            )
            &&& is_item(items[1], "Vertikal"@, SketchAction::Constraint(Constraint::Vertical(e)))
        } else if is_circle(view, e) {
            let r = view.vars[view.entities[e.raw]->radius.index as int];
            exists|d: T| #[trigger]
                is_double(eval, r, d) && {
                    &&& items.len() == 2
                    &&& is_item(
                        items[0],
                        "⌀ bemaßen"@,
                        SketchAction::Dimension(DimensionTarget::Diameter(e), d),
                    )
                    &&& is_item(
                        items[1],
                        "R bemaßen"@,
                        SketchAction::Dimension(DimensionTarget::Radius(e), r),
                    )
                }
        } else {
            items.len() == 0
        }
    } else if selection.len() == 2 && selection[0] is Entity && selection[1] is Entity && is_line(
        view,
        selection[0]->Entity_0,
    ) && is_line(view, selection[1]->Entity_0) {
        let (a, b) = (selection[0]->Entity_0, selection[1]->Entity_0);
        &&& items.len() == 3
        &&& is_item(items[0], "Parallel"@, SketchAction::Constraint(Constraint::Parallel(a, b)))
        &&& is_item(
            items[1],
            "Senkrecht"@,
            SketchAction::Constraint(Constraint::Perpendicular(a, b)),
        )
        &&& is_item(items[2], "Gleich lang"@, SketchAction::Constraint(Constraint::Equal(a, b)))
    } else if selection.len() == 2 && selection[0] is Point && selection[1] is Point {
        let (p, q) = (selection[0]->Point_0, selection[1]->Point_0);
        exists|d: T| #[trigger]
            is_distance(eval, view.position(p), view.position(q), d) && {
                &&& items.len() == 2
                &&& is_item(
                    items[0],
                    "Koinzident"@,
                    SketchAction::Constraint(Constraint::Coincident(p, q)),
                )
                &&& is_item(
                    items[1],
                    "Abstand bemaßen"@,
                    SketchAction::Dimension(DimensionTarget::Linear(p, q), d),
                )
            }
    } else {
        items.len() == 0
    }
}

/// Formula of the squared distance of two places.
fn dist2_formula<T: Copy>(a: [T; 2], b: [T; 2]) -> (e: Expr<T>)
    ensures
        forall|at: Reading<T>| #[trigger]
            e.eval(at) == dist_sq(
                (at.num)(a[0]),
                (at.num)(a[1]),
                (at.num)(b[0]),
                (at.num)(b[1]),
            ),
{
    Expr::sum(
        Expr::product(
            Expr::difference(Expr::value(a[0]), Expr::value(b[0])),
            Expr::difference(Expr::value(a[0]), Expr::value(b[0])),
        ),
        Expr::product(
            Expr::difference(Expr::value(a[1]), Expr::value(b[1])),
            Expr::difference(Expr::value(a[1]), Expr::value(b[1])),
        ),
    )
}

/// The distance of two places.
pub(crate) fn distance_of<T: Copy, E: Fn(&Expr<T>, &Vec<T>) -> T>(
    eval: &E,
    a: [T; 2],
    b: [T; 2],
) -> (d: T)
    requires
        evaluates_all(*eval),
    ensures
        is_distance(*eval, a, b, d),
{
    eval_closed(
        eval,
        Expr::sqrt(dist2_formula(a, b)),
        Ghost(
            |at: Reading<T>|
                distance((at.num)(a[0]), (at.num)(a[1]), (at.num)(b[0]), (at.num)(b[1])),
        ),
    )
}

/// Where the label of a linear dimension is put at first: perpendicular to the
/// segment, a fifth of its length off, but at least a half.
pub open spec fn linear_offset(ax: real, ay: real, bx: real, by: real) -> (real, real) {
    let len = larger(distance(ax, ay, bx, by), 1real / 1000000real);
    let off = larger(len * (1real / 5real), 1real / 2real);
    ((-(by - ay) / len) * off, ((bx - ax) / len) * off)
}

/// Where the label of a circle's dimension is put at first, along each axis.
pub open spec fn round_offset(r: real) -> real {
    root(1real / 2real) * larger(r, 1real / 1000000real) * (8real / 5real)
}

/// `offset` is where the label of a new dimension is put.
pub open spec fn is_default_offset<T, E: Fn(&Expr<T>, &Vec<T>) -> T>(
    view: SketchView<T>,
    eval: E,
    target: DimensionTarget,
    offset: [T; 2],
) -> bool {
    match target {
        DimensionTarget::Linear(p, q) => {
            let (a, b) = (view.position(p), view.position(q));
            let at_ends = |at: Reading<T>|
                linear_offset((at.num)(a[0]), (at.num)(a[1]), (at.num)(b[0]), (at.num)(b[1]));
            &&& computes(eval, |at: Reading<T>| at_ends(at).0, Seq::empty(), offset[0])
            &&& computes(eval, |at: Reading<T>| at_ends(at).1, Seq::empty(), offset[1])
        },
        DimensionTarget::Radius(e) | DimensionTarget::Diameter(e) => {
            let size = |at: Reading<T>|
                if is_circle(view, e) {
                    (at.num)(view.vars[view.entities[e.raw]->radius.index as int])
                } else {
                    1real
                };
            &&& computes(eval, |at: Reading<T>| round_offset(size(at)), Seq::empty(), offset[0])
            &&& offset[1] == offset[0]
        },
    }
}

/// Formula of the length of a segment, but at least a millionth.
fn length_formula<T: Copy>(a: [T; 2], b: [T; 2]) -> (e: Expr<T>)
    ensures
        forall|at: Reading<T>| #[trigger]
            e.eval(at) == larger(
                distance((at.num)(a[0]), (at.num)(a[1]), (at.num)(b[0]), (at.num)(b[1])),
                1real / 1000000real,
            ),
{
    assert((1 as int) as real / (1000000 as int) as real == 1real / 1000000real);
    Expr::max_of(Expr::sqrt(dist2_formula(a, b)), Expr::ratio(1, 1000000))
}

/// Formula of how far off a segment the label is put.
fn off_formula<T: Copy>(a: [T; 2], b: [T; 2]) -> (e: Expr<T>)
    ensures
        forall|at: Reading<T>| #[trigger]
            e.eval(at) == larger(
                larger(
                    distance((at.num)(a[0]), (at.num)(a[1]), (at.num)(b[0]), (at.num)(b[1])),
                    1real / 1000000real,
                ) * (1real / 5real),
                1real / 2real,
            ),
{
    assert((1 as int) as real / (5 as int) as real == 1real / 5real);
    assert((1 as int) as real / (2 as int) as real == 1real / 2real);
    Expr::max_of(Expr::product(length_formula(a, b), Expr::ratio(1, 5)), Expr::ratio(1, 2))
}

fn offset_x_formula<T: Copy>(a: [T; 2], b: [T; 2]) -> (e: Expr<T>)
    ensures
        forall|at: Reading<T>| #[trigger]
            e.eval(at) == linear_offset(
                (at.num)(a[0]),
                (at.num)(a[1]),
                (at.num)(b[0]),
                (at.num)(b[1]),
            ).0,
{
    let down = Expr::negated(Expr::difference(Expr::value(b[1]), Expr::value(a[1])));
    Expr::product(Expr::quotient(down, length_formula(a, b)), off_formula(a, b))
}

fn offset_y_formula<T: Copy>(a: [T; 2], b: [T; 2]) -> (e: Expr<T>)
    ensures
        forall|at: Reading<T>| #[trigger]
            e.eval(at) == linear_offset(
                (at.num)(a[0]),
                (at.num)(a[1]),
                (at.num)(b[0]),
                (at.num)(b[1]),
            ).1,
{
    let along = Expr::difference(Expr::value(b[0]), Expr::value(a[0]));
    Expr::product(Expr::quotient(along, length_formula(a, b)), off_formula(a, b))
}

fn round_offset_formula<T: Copy>(size: Expr<T>) -> (e: Expr<T>)
    ensures
        forall|at: Reading<T>| #[trigger] e.eval(at) == round_offset(size.eval(at)),
{
    assert((1 as int) as real / (2 as int) as real == 1real / 2real);
    assert((1 as int) as real / (1000000 as int) as real == 1real / 1000000real);
    assert((8 as int) as real / (5 as int) as real == 8real / 5real);
    Expr::product(
        Expr::product(
            Expr::sqrt(Expr::ratio(1, 2)),
            Expr::max_of(size, Expr::ratio(1, 1000000)),
        ),
        Expr::ratio(8, 5),
    )
}

impl<T: Copy> SketchSession<T> {
    /// What can be done with the selection.
    pub fn available_actions<E: Fn(&Expr<T>, &Vec<T>) -> T>(&self, eval: &E) -> (items: Vec<
        ActionItem<T>,
    >)
        requires
            self.wf(),
            evaluates_all(*eval),
        ensures
            are_actions(self.sketch@, self.selection@, *eval, items@),
    {
        let mut items: Vec<ActionItem<T>> = Vec::new();
        if self.selection.len() == 1 {
            if let Selected::Entity(e) = self.selection[0] {
                match self.sketch.entity(e) {
                    Some(SketchEntity::Line { .. }) => {
                        items.push(
                            ActionItem {
                                label: "Horizontal",
                                action: SketchAction::Constraint(Constraint::Horizontal(e)),
                            },
                        );
                        items.push(
                            ActionItem {
                                label: "Vertikal",
                                action: SketchAction::Constraint(Constraint::Vertical(e)),
                            },
                        );
                    },
                    Some(SketchEntity::Circle { .. }) => {
                        if let Some(r) = self.sketch.circle_radius(e) {
                            assert((2 as int) as real / (1 as int) as real == 2real);
                            let d = eval_closed(
                                eval,
                                Expr::product(Expr::ratio(2, 1), Expr::value(r)),
                                Ghost(|at: Reading<T>| 2real * (at.num)(r)),
                            );
                            assert(is_double(*eval, r, d));
                            items.push(
                                ActionItem {
                                    label: "⌀ bemaßen",
                                    action: SketchAction::Dimension(
                                        DimensionTarget::Diameter(e),
                                        d,
                                    ),
                                },
                            );
                            items.push(
                                ActionItem {
                                    label: "R bemaßen",
                                    action: SketchAction::Dimension(DimensionTarget::Radius(e), r),
                                },
                            );
                        }
                    },
                    None => {},
                }
            }
        } else if self.selection.len() == 2 {
            match (self.selection[0], self.selection[1]) {
                (Selected::Entity(a), Selected::Entity(b)) => {
                    if let (
                        Some(SketchEntity::Line { .. }),
                        Some(SketchEntity::Line { .. }),
                    ) = (self.sketch.entity(a), self.sketch.entity(b)) {
                        items.push(
                            ActionItem {
                                label: "Parallel",
                                action: SketchAction::Constraint(Constraint::Parallel(a, b)),
                            },
                        );
                        items.push(
                            ActionItem {
                                label: "Senkrecht",
                                action: SketchAction::Constraint(Constraint::Perpendicular(a, b)),
                            },
                        );
                        items.push(
                            ActionItem {
                                label: "Gleich lang",
                                action: SketchAction::Constraint(Constraint::Equal(a, b)),
                            },
                        );
                    }
                },
                (Selected::Point(p), Selected::Point(q)) => {
                    assert(self.selection@[0] is Point && self.selection@[1] is Point);
                    let a = self.sketch.point_pos(p);
                    let b = self.sketch.point_pos(q);
                    let d = distance_of(eval, a, b);
                    items.push(
                        ActionItem {
                            label: "Koinzident",
                            action: SketchAction::Constraint(Constraint::Coincident(p, q)),
                        },
                    );
                    items.push(
                        ActionItem {
                            label: "Abstand bemaßen",
                            action: SketchAction::Dimension(DimensionTarget::Linear(p, q), d),
                        },
                    );
                    assert(is_distance(
                        *eval,
                        self.sketch@.position(p),
                        self.sketch@.position(q),
                        d,
                    ));
                },
                _ => {},
            }
        }
        items
    }

    /// Where the label of a new dimension is put.
    fn default_dim_offset<E: Fn(&Expr<T>, &Vec<T>) -> T>(
        &self,
        target: DimensionTarget,
        eval: &E,
    ) -> (offset: [T; 2])
        requires
            self.sketch.wf(),
            evaluates_all(*eval),
            self.sketch@.readable(),
            target matches DimensionTarget::Linear(p, q) ==> self.sketch@.points.contains_key(p.raw)
                && self.sketch@.points.contains_key(q.raw),
        ensures
            is_default_offset(self.sketch@, *eval, target, offset),
    {
        match target {
            DimensionTarget::Linear(p, q) => {
                let a = self.sketch.point_pos(p);
                let b = self.sketch.point_pos(q);
                let ghost at_ends = |at: Reading<T>|
                    linear_offset(
                        (at.num)(a[0]),
                        (at.num)(a[1]),
                        (at.num)(b[0]),
                        (at.num)(b[1]),
                    );
                let x = eval_closed(
                    eval,
                    offset_x_formula(a, b),
                    Ghost(|at: Reading<T>| at_ends(at).0),
                );
                let y = eval_closed(
                    eval,
                    offset_y_formula(a, b),
                    Ghost(|at: Reading<T>| at_ends(at).1),
                );
                [x, y]
            },
            DimensionTarget::Radius(e) | DimensionTarget::Diameter(e) => {
                assert((1 as int) as real / (1 as int) as real == 1real);
                let size = match self.sketch.circle_radius(e) {
                    Some(r) => Expr::value(r),
                    None => Expr::ratio(1, 1),
                };
                let ghost view = self.sketch@;
                let ghost meant = |at: Reading<T>|
                    if is_circle(view, e) {
                        (at.num)(view.vars[view.entities[e.raw]->radius.index as int])
                    } else {
                        1real
                    };
                let k = eval_closed(
                    eval,
                    round_offset_formula(size),
                    Ghost(|at: Reading<T>| round_offset(meant(at))),
                );
                [k, k]
            },
        }
    }
}

/// The sketch with one more constraint.
pub open spec fn with_constraint<T>(
    view: SketchView<T>,
    id: ConstraintId,
    c: Constraint<T>,
) -> SketchView<T> {
    SketchView { constraints: view.constraints.insert(id.raw, c), ..view }
}

/// An action turns the sketch `before` into `after`: what it adds is added and
/// the sketch is solved with `result`, or it is refused and nothing happens.
pub open spec fn acts<
    T,
    E: Fn(&Expr<T>, &Vec<T>) -> T,
    L: Fn(&T, &T) -> bool,
    F: Fn(&Vec<Vec<T>>) -> Option<Factors<T>>,
>(
    ops: SolverOps<E, L, F>,
    before: SketchView<T>,
    action: SketchAction<T>,
    after: SketchView<T>,
    result: Option<SolveResult<T>>,
) -> bool {
    match action {
        SketchAction::Constraint(c) => if constraint_check(
            before.points,
            before.entities,
            c,
        ) is Ok {
            result matches Some(r) && exists|id: ConstraintId|
                !before.constraints.contains_key(id.raw) && solves(
                    ops,
                    #[trigger] with_constraint(before, id, c),
                    Seq::empty(),
                    r,
                    after,
                )
        } else {
            result is None && after == before
        },
        SketchAction::Dimension(target, value) => if constraint_check(
            before.points,
            before.entities,
            driver_of(target, value),
        ) is Ok {
            result matches Some(r) && exists|
                id: DimensionId,
                driver: ConstraintId,
                stored: T,
                offset: [T; 2],
            |
                {
                    &&& is_default_offset(before, ops.eval, target, offset)
                    &&& is_stored_value(ops.eval, kind_of_target(target), value, stored)
                    &&& !before.dimensions.contains_key(id.raw)
                    &&& !before.constraints.contains_key(driver.raw)
                    &&& solves(
                        ops,
                        #[trigger] with_dimension(before, id, driver, target, stored, offset),
                        Seq::empty(),
                        r,
                        after,
                    )
                }
        } else {
            result is None && after == before
        },
    }
}

impl<T: Copy> SketchSession<T> {
    /// Does what an action says and solves. If the action is refused, nothing
    /// happens; else nothing stays selected.
    pub fn apply_action<
        E: Fn(&Expr<T>, &Vec<T>) -> T,
        L: Fn(&T, &T) -> bool,
        F: Fn(&Vec<Vec<T>>) -> Option<Factors<T>>,
    >(&mut self, action: SketchAction<T>, ops: &SolverOps<E, L, F>)
        requires
            old(self).wf(),
            ops_usable::<T, E, L, F>(*ops),
            old(self).sketch@.constraints.len() < MAX_SLOTS,
            old(self).sketch@.dimensions.len() < MAX_SLOTS,
            action matches SketchAction::Dimension(DimensionTarget::Linear(p, q), _) ==> old(
                self,
            ).sketch@.points.contains_key(p.raw) && old(self).sketch@.points.contains_key(q.raw),
        ensures
            final(self).wf(),
            exists|result: Option<SolveResult<T>>| #[trigger]
                acts(*ops, old(self).sketch@, action, final(self).sketch@, result) && (
                match result {
                    Some(r) => final(self).last_solve == Some(r) && final(self).selection@.len()
                        == 0,
                    None => final(self).last_solve == old(self).last_solve && final(self).selection == old(self).selection,
                }),
            final(self).tool == old(self).tool,
            final(self).same_setting(old(self)),
            old(self).sketch.keeps_ids(final(self).sketch),
    {
        let ghost before = self.sketch@;
        let ghost mut mid = before;
        proof {
            self.sketch.lemma_keeps_ids_here();
        }
        let ok = match action {
            SketchAction::Constraint(c) => match self.sketch.add_constraint(c) {
                Ok(id) => {
                    proof {
                        mid = with_constraint(before, id, c);
                        assert(self.sketch@ == mid);
                    }
                    true
                },
                Err(_) => false,
            },
            SketchAction::Dimension(target, value) => {
                let offset = self.default_dim_offset(target, &ops.eval);
                match self.sketch.add_dimension(target, value, offset, &ops.eval) {
                    Ok(id) => {
                        proof {
                            let (stored, driver) = choose|stored: T, driver: ConstraintId|
                                is_stored_value(ops.eval, kind_of_target(target), value, stored)
                                    && !before.constraints.contains_key(driver.raw)
                                    && self.sketch@ == #[trigger] with_dimension(
                                    before,
                                    id,
                                    driver,
                                    target,
                                    stored,
                                    offset,
                                );
                            mid = with_dimension(before, id, driver, target, stored, offset);
                            assert(self.sketch@ == mid);
                        }
                        true
                    },
                    Err(_) => false,
                }
            },
        };
        if ok {
            let ghost added = self.sketch;
            let result = self.sketch.solve(ops);
            proof {
                old(self).sketch.lemma_keeps_ids_on(added, self.sketch);
                lemma_solving_keeps_structure(*ops, mid, Seq::empty(), result, self.sketch@);
                assert(acts(*ops, before, action, self.sketch@, Some(result)));
            }
            self.last_solve = Some(result);
            self.selection = Vec::new();
        } else {
            assert(acts(*ops, before, action, self.sketch@, None));
        }
    }
}

/// What a click selects: a point first, then the dimension under the cursor,
/// then an entity.
pub open spec fn is_picked<
    T,
    E: Fn(&Expr<T>, &Vec<T>) -> T,
    M: Fn(&T, &T) -> bool,
    Q: Fn(&T) -> i64,
>(
    view: SketchView<T>,
    mouse: [T; 2],
    tol: T,
    dim_hit: Option<DimensionId>,
    eval: E,
    order: Order<M, Q>,
    hit: Option<Selected>,
) -> bool {
    exists|near: Option<(PointId, [T; 2])>| #[trigger]
        is_nearest(view, mouse, tol, eval, order, near) && match near {
            Some((p, _)) => hit == Some(Selected::Point(p)),
            None => match dim_hit {
                Some(d) => hit == Some(Selected::Dimension(d)),
                None => exists|found: Option<EntityId>| #[trigger]
                    is_hit(view, mouse, tol, eval, order, found) && hit == (match found {
                        Some(e) => Some(Selected::Entity(e)),
                        None => None::<Selected>,
                    }),
            },
        }
}

/// The first place of an item in a list.
pub open spec fn is_first_place(list: Seq<Selected>, item: Selected, i: int) -> bool {
    &&& 0 <= i < list.len()
    &&& list[i] == item
    &&& forall|j: int| 0 <= j < i ==> #[trigger] list[j] != item
}

/// The selection after a click: without shift, what was hit and nothing else;
/// with shift, what was hit is added, or taken away if it was selected.
pub open spec fn is_selection_after(
    before: Seq<Selected>,
    hit: Option<Selected>,
    shift: bool,
    after: Seq<Selected>,
) -> bool {
    match hit {
        Some(item) => if !shift {
            after == seq![item]
        } else if before.contains(item) {
            exists|i: int| #[trigger]
                is_first_place(before, item, i) && after == before.remove(i)
        } else {
            after == before.push(item)
        },
        None => if shift {
            after == before
        } else {
            after.len() == 0
        },
    }
}

/// A pending point becomes a point of the sketch: the existing one, or a new
/// one.
pub open spec fn settles<T>(
    before: SketchView<T>,
    pending: PendingPoint<T>,
    id: PointId,
    after: SketchView<T>,
) -> bool {
    match pending.existing {
        Some(existing) => id == existing && after == before,
        None => {
            &&& !before.points.contains_key(id.raw)
            &&& after.points.contains_key(id.raw)
            &&& after.points[id.raw].x.index == before.vars.len()
            &&& after.points[id.raw].y.index == before.vars.len() + 1
            &&& after.position(id) == pending.pos
            &&& after == (SketchView {
                vars: before.vars.push(pending.pos[0]).push(pending.pos[1]),
                points: before.points.insert(id.raw, after.points[id.raw]),
                ..before
            })
        },
    }
}

/// Two pending points become a line.
pub open spec fn draws_line<T>(
    before: SketchView<T>,
    from: PendingPoint<T>,
    to: PendingPoint<T>,
    end: PointId,
    after: SketchView<T>,
) -> bool {
    exists|p1: PointId, first: SketchView<T>, both: SketchView<T>, id: EntityId|
        {
            &&& #[trigger] settles(before, from, p1, first)
            &&& #[trigger] settles(first, to, end, both)
            &&& !both.entities.contains_key(id.raw)
            &&& after == (SketchView {
                entities: both.entities.insert(
                    #[trigger] id.raw,
                    SketchEntity::Line { p1, p2: end },
                ),
                ..both
            })
        }
}

/// A pending point becomes the centre of a circle.
pub open spec fn draws_circle<T>(
    before: SketchView<T>,
    center: PendingPoint<T>,
    radius: T,
    after: SketchView<T>,
) -> bool {
    exists|p: PointId, mid: SketchView<T>, id: EntityId|
        {
            &&& #[trigger] settles(before, center, p, mid)
            &&& !mid.entities.contains_key(id.raw)
            &&& after == (SketchView {
                vars: mid.vars.push(radius),
                entities: mid.entities.insert(
                    #[trigger] id.raw,
                    SketchEntity::Circle {
                        center: p,
                        radius: crate::ids::VarId { index: mid.vars.len() as usize },
                    },
                ),
                ..mid
            })
        }
}

/// `far` is whether two places are found to be apart: the square of their
/// distance is more than a small number.
pub open spec fn finds_apart<T, E: Fn(&Expr<T>, &Vec<T>) -> T, L: Fn(&T, &T) -> bool>(
    eval: E,
    less: L,
    a: [T; 2],
    b: [T; 2],
    far: bool,
) -> bool {
    exists|limit: T, d: T| #[trigger]
        call_ensures(less, (&limit, &d), far) && is_reciprocal(eval, 1_000_000_000_000, limit)
            && computes(
            eval,
            |at: Reading<T>|
                dist_sq((at.num)(a[0]), (at.num)(a[1]), (at.num)(b[0]), (at.num)(b[1])),
            Seq::empty(),
            d,
        )
}

/// `wide` is whether a radius is found to be more than a small number.
pub open spec fn finds_wide<T, E: Fn(&Expr<T>, &Vec<T>) -> T, L: Fn(&T, &T) -> bool>(
    eval: E,
    less: L,
    radius: T,
    wide: bool,
) -> bool {
    exists|limit: T| #[trigger]
        call_ensures(less, (&limit, &radius), wide) && is_reciprocal(eval, 1_000_000, limit)
}

/// The point that a click means: the one that it snaps to, or its place.
pub open spec fn clicked_point<T>(
    mouse: [T; 2],
    snap: Option<(PointId, [T; 2])>,
) -> PendingPoint<T> {
    match snap {
        Some((id, pos)) => PendingPoint { pos, existing: Some(id) },
        None => PendingPoint { pos: mouse, existing: None },
    }
}

/// A click with a drawing tool: the tool and the sketch after it.
pub open spec fn draws<T, E: Fn(&Expr<T>, &Vec<T>) -> T, L: Fn(&T, &T) -> bool>(
    eval: E,
    less: L,
    tool: SketchTool<T>,
    before: SketchView<T>,
    mouse: [T; 2],
    click: PendingPoint<T>,
    next: SketchTool<T>,
    after: SketchView<T>,
) -> bool {
    match tool {
        SketchTool::Select => false,
        SketchTool::Line { start: None } => next == (SketchTool::Line { start: Some(click) })
            && after == before,
        SketchTool::Line { start: Some(s) } => exists|far: bool| #[trigger]
            finds_apart(eval, less, s.pos, click.pos, far) && if far {
                exists|end: PointId| #[trigger]
                    draws_line(before, s, click, end, after) && next == (SketchTool::Line {
                        start: Some(PendingPoint { pos: click.pos, existing: Some(end) }),
                    })
            } else {
                next == tool && after == before
            },
        SketchTool::Circle { center: None } => next == (SketchTool::Circle {
            center: Some(click),
        }) && after == before,
        SketchTool::Circle { center: Some(c) } => exists|radius: T, wide: bool| #[trigger]
            finds_wide(eval, less, radius, wide) && #[trigger] is_distance(
                eval,
                c.pos,
                mouse,
                radius,
            ) && if wide {
                draws_circle(before, c, radius, after) && next == (SketchTool::<T>::Circle {
                    center: None,
                })
            } else {
                next == tool && after == before
            },
    }
}

/// Makes a pending point a point of the sketch.
fn resolve_point<T: Copy>(sketch: &mut Sketch<T>, pending: PendingPoint<T>) -> (id: PointId)
    requires
        old(sketch).wf(),
        old(sketch)@.linked(),
        old(sketch)@.points.len() < MAX_SLOTS,
        pending_ok(old(sketch)@, Some(pending)),
    ensures
        final(sketch).wf(),
        final(sketch)@.linked(),
        settles(old(sketch)@, pending, id, final(sketch)@),
        final(sketch)@.points.contains_key(id.raw),
        final(sketch)@.entities == old(sketch)@.entities,
        forall|k: u64| #[trigger]
            old(sketch)@.points.contains_key(k) ==> final(sketch)@.points.contains_key(k),
        final(sketch)@.points.len() <= old(sketch)@.points.len() + 1,
        old(sketch).keeps_ids(*final(sketch)),
{
    proof {
        sketch.lemma_keeps_ids_here();
    }
    match pending.existing {
        Some(id) => id,
        None => {
            proof {
                sketch.lemma_wf();
            }
            let id = sketch.add_point(pending.pos);
            proof {
                sketch.lemma_wf();
            }
            id
        },
    }
}

/// Where an item is first in a list.
pub(crate) fn place_of(list: &Vec<Selected>, item: Selected) -> (place: Option<usize>)
    ensures
        match place {
            Some(i) => is_first_place(list@, item, i as int),
            None => !list@.contains(item),
        },
{
    let mut i: usize = 0;
    while i < list.len()
        invariant
            i <= list@.len(),
            forall|j: int| 0 <= j < i ==> #[trigger] list@[j] != item,
        decreases list@.len() - i,
    {
        if list[i] == item {
            return Some(i);
        }
        i = i + 1;
    }
    None
}

impl<T: Copy> SketchSession<T> {
    /// Changes the selection after a click.
    fn select(&mut self, hit: Option<Selected>, shift: bool)
        requires
            old(self).wf(),
            old(self).tool is Select,
            hit matches Some(Selected::Point(p)) ==> old(self).sketch@.points.contains_key(p.raw),
        ensures
            final(self).wf(),
            is_selection_after(old(self).selection@, hit, shift, final(self).selection@),
            final(self).sketch == old(self).sketch,
            final(self).tool == old(self).tool,
            final(self).last_solve == old(self).last_solve,
            final(self).same_setting(old(self)),
    {
        let ghost before = self.selection@;
        match hit {
            Some(item) => {
                if shift {
                    match place_of(&self.selection, item) {
                        Some(i) => {
                            assert(before.contains(item)) by {
                                assert(before[i as int] == item);
                            }
                            assert(is_first_place(before, item, i as int));
                            self.selection.remove(i);
                            assert(selection_ok(self.sketch@, self.selection@)) by {
                                assert forall|j: int| 0 <= j < self.selection@.len() implies (
                                #[trigger] self.selection@[j] matches Selected::Point(p)
                                    ==> self.sketch@.points.contains_key(p.raw)) by {
                                    if j < i {
                                        assert(self.selection@[j] == before[j]);
                                    } else {
                                        assert(self.selection@[j] == before[j + 1]);
                                    }
                                }
                            }
                        },
                        None => {
                            self.selection.push(item);
                            assert(selection_ok(self.sketch@, self.selection@)) by {
                                assert forall|j: int| 0 <= j < self.selection@.len() implies (
                                #[trigger] self.selection@[j] matches Selected::Point(p)
                                    ==> self.sketch@.points.contains_key(p.raw)) by {
                                    if j < before.len() {
                                        assert(self.selection@[j] == before[j]);
                                    }
                                }
                            }
                        },
                    }
                } else {
                    let mut only: Vec<Selected> = Vec::new();
                    only.push(item);
                    self.selection = only;
                    assert(self.selection@ =~= seq![item]);
                }
            },
            None => {
                if !shift {
                    self.selection = Vec::new();
                }
            },
        }
    }

    /// A click at a place. `snap` is the point that it snaps to, `dim_hit` the
    /// dimension under the cursor.
    pub fn on_click<
        E: Fn(&Expr<T>, &Vec<T>) -> T,
        L: Fn(&T, &T) -> bool,
        M: Fn(&T, &T) -> bool,
        Q: Fn(&T) -> i64,
    >(
        &mut self,
        mouse: [T; 2],
        snap: Option<(PointId, [T; 2])>,
        dim_hit: Option<DimensionId>,
        select_tol: T,
        shift: bool,
        eval: &E,
        less: &L,
        order: &Order<M, Q>,
    )
        requires
            old(self).wf(),
            evaluates_all(*eval),
            compares_all(*less),
            orders_all(*order),
            old(self).tool !is Select ==> old(self).sketch@.points.len() + 1 < MAX_SLOTS && old(
                self,
            ).sketch@.entities.len() < MAX_SLOTS,
            snap matches Some((id, _)) ==> old(self).sketch@.points.contains_key(id.raw),
        ensures
            final(self).wf(),
            clicks(
                *eval,
                *less,
                *order,
                *old(self),
                mouse,
                snap,
                dim_hit,
                select_tol,
                shift,
                *final(self),
            ),
            old(self).sketch.keeps_ids(final(self).sketch),
    {
        proof {
            self.sketch.lemma_keeps_ids_here();
        }
        let click = match snap {
            Some((id, pos)) => PendingPoint { pos, existing: Some(id) },
            None => PendingPoint { pos: mouse, existing: None },
        };
        match self.tool {
            SketchTool::Select => {
                let near = self.sketch.nearest_point(mouse, select_tol, eval, order);
                let hit = match near {
                    Some((id, _)) => Some(Selected::Point(id)),
                    None => match dim_hit {
                        Some(d) => Some(Selected::Dimension(d)),
                        None => match self.sketch.hit_test(mouse, select_tol, eval, order) {
                            Some(e) => Some(Selected::Entity(e)),
                            None => None,
                        },
                    },
                };
                assert(is_picked(
                    self.sketch@,
                    mouse,
                    select_tol,
                    dim_hit,
                    *eval,
                    *order,
                    hit,
                ));
                self.select(hit, shift);
            },
            SketchTool::Line { start } => match start {
                None => {
                    self.tool = SketchTool::Line { start: Some(click) };
                },
                Some(s) => {
                    self.draw_line(s, click, eval, less);
                },
            },
            SketchTool::Circle { center } => match center {
                None => {
                    self.tool = SketchTool::Circle { center: Some(click) };
                },
                Some(c) => {
                    self.draw_circle(c, mouse, click, eval, less);
                },
            },
        }
    }

    /// The second click of a line. Its end is the start of the next line.
    fn draw_line<E: Fn(&Expr<T>, &Vec<T>) -> T, L: Fn(&T, &T) -> bool>(
        &mut self,
        s: PendingPoint<T>,
        click: PendingPoint<T>,
        eval: &E,
        less: &L,
    )
        requires
            old(self).wf(),
            evaluates_all(*eval),
            compares_all(*less),
            old(self).tool == (SketchTool::Line { start: Some(s) }),
            pending_ok(old(self).sketch@, Some(click)),
            old(self).sketch@.points.len() + 1 < MAX_SLOTS,
            old(self).sketch@.entities.len() < MAX_SLOTS,
        ensures
            final(self).wf(),
            draws(
                *eval,
                *less,
                old(self).tool,
                old(self).sketch@,
                click.pos,
                click,
                final(self).tool,
                final(self).sketch@,
            ),
            final(self).selection == old(self).selection,
            final(self).last_solve == old(self).last_solve,
            final(self).same_setting(old(self)),
            old(self).sketch.keeps_ids(final(self).sketch),
    {
        proof {
            self.sketch.lemma_keeps_ids_here();
        }
        let limit = reciprocal(eval, 1_000_000_000_000);
        let d = eval_closed(
            eval,
            dist2_formula(s.pos, click.pos),
            Ghost(
                |at: Reading<T>|
                    dist_sq(
                        (at.num)(s.pos[0]),
                        (at.num)(s.pos[1]),
                        (at.num)(click.pos[0]),
                        (at.num)(click.pos[1]),
                    ),
            ),
        );
        let far = less(&limit, &d);
        assert(finds_apart(*eval, *less, s.pos, click.pos, far));
        if far {
            let ghost before = self.sketch@;
            let p1 = resolve_point(&mut self.sketch, s);
            let ghost started = self.sketch;
            let ghost first = self.sketch@;
            let p2 = resolve_point(&mut self.sketch, click);
            let ghost ended = self.sketch;
            let ghost both = self.sketch@;
            let id = self.sketch.add_line(p1, p2);
            proof {
                old(self).sketch.lemma_keeps_ids_on(started, ended);
                old(self).sketch.lemma_keeps_ids_on(ended, self.sketch);
            }
            self.tool = SketchTool::Line {
                start: Some(PendingPoint { pos: click.pos, existing: Some(p2) }),
            };
            proof {
                assert(settles(before, s, p1, first));
                assert(settles(first, click, p2, both));
                assert(self.sketch@ == SketchView {
                    entities: both.entities.insert(id.raw, SketchEntity::Line { p1, p2 }),
                    ..both
                });
                assert(draws_line(before, s, click, p2, self.sketch@));
            }
        }
    }

    /// The second click of a circle.
    fn draw_circle<E: Fn(&Expr<T>, &Vec<T>) -> T, L: Fn(&T, &T) -> bool>(
        &mut self,
        c: PendingPoint<T>,
        mouse: [T; 2],
        click: PendingPoint<T>,
        eval: &E,
        less: &L,
    )
        requires
            old(self).wf(),
            evaluates_all(*eval),
            compares_all(*less),
            old(self).tool == (SketchTool::Circle { center: Some(c) }),
            old(self).sketch@.points.len() < MAX_SLOTS,
            old(self).sketch@.entities.len() < MAX_SLOTS,
        ensures
            final(self).wf(),
            draws(
                *eval,
                *less,
                old(self).tool,
                old(self).sketch@,
                mouse,
                click,
                final(self).tool,
                final(self).sketch@,
            ),
            final(self).selection == old(self).selection,
            final(self).last_solve == old(self).last_solve,
            final(self).same_setting(old(self)),
            old(self).sketch.keeps_ids(final(self).sketch),
    {
        proof {
            self.sketch.lemma_keeps_ids_here();
        }
        let radius = distance_of(eval, c.pos, mouse);
        let limit = reciprocal(eval, 1_000_000);
        let wide = less(&limit, &radius);
        assert(finds_wide(*eval, *less, radius, wide));
        assert(is_distance(*eval, c.pos, mouse, radius));
        if wide {
            let ghost before = self.sketch@;
            let p = resolve_point(&mut self.sketch, c);
            let ghost placed = self.sketch;
            let ghost mid = self.sketch@;
            let id = self.sketch.add_circle(p, radius);
            proof {
                old(self).sketch.lemma_keeps_ids_on(placed, self.sketch);
            }
            self.tool = SketchTool::Circle { center: None };
            proof {
                assert(settles(before, c, p, mid));
                assert(self.sketch@.entities == mid.entities.insert(
                    id.raw,
                    self.sketch@.entities[id.raw],
                ));
                assert(draws_circle(before, c, radius, self.sketch@));
            }
        }
    }

    /// The point that the cursor snaps to, for drawing tools.
    pub fn snap<
        E: Fn(&Expr<T>, &Vec<T>) -> T,
        M: Fn(&T, &T) -> bool,
        Q: Fn(&T) -> i64,
    >(
        &self,
        mouse: Option<[T; 2]>,
        radius: T,
        eval: &E,
        order: &Order<M, Q>,
    ) -> (found: Option<(PointId, [T; 2])>)
        requires
            self.wf(),
            evaluates_all(*eval),
            orders_all(*order),
        ensures
            snaps_to(*eval, *order, *self, mouse, radius, found),
            found matches Some((id, _)) ==> self.sketch@.points.contains_key(id.raw),
    {
        match (self.tool.kind(), mouse) {
            (ToolKind::Select, _) => None,
            (_, None) => None,
            (_, Some(pos)) => self.sketch.nearest_point(pos, radius, eval, order),
        }
    }
}

/// `p` is what `eval` gives for a place whose coordinates have the given
/// meanings.
pub open spec fn computes_place<T, E: Fn(&Expr<T>, &Vec<T>) -> T>(
    eval: E,
    x: spec_fn(Reading<T>) -> real,
    y: spec_fn(Reading<T>) -> real,
    p: [T; 2],
) -> bool {
    computes(eval, x, Seq::empty(), p[0]) && computes(eval, y, Seq::empty(), p[1])
}

/// `p` is the middle between two places.
pub open spec fn is_middle<T, E: Fn(&Expr<T>, &Vec<T>) -> T>(
    eval: E,
    a: [T; 2],
    b: [T; 2],
    p: [T; 2],
) -> bool {
    computes_place(
        eval,
        |at: Reading<T>| ((at.num)(a[0]) + (at.num)(b[0])) * (1real / 2real),
        |at: Reading<T>| ((at.num)(a[1]) + (at.num)(b[1])) * (1real / 2real),
        p,
    )
}

/// `p` is the sum of two places.
pub open spec fn is_sum<T, E: Fn(&Expr<T>, &Vec<T>) -> T>(
    eval: E,
    a: [T; 2],
    b: [T; 2],
    p: [T; 2],
) -> bool {
    computes_place(
        eval,
        |at: Reading<T>| (at.num)(a[0]) + (at.num)(b[0]),
        |at: Reading<T>| (at.num)(a[1]) + (at.num)(b[1]),
        p,
    )
}

/// `p` is the difference of two places.
pub open spec fn is_gap<T, E: Fn(&Expr<T>, &Vec<T>) -> T>(
    eval: E,
    a: [T; 2],
    b: [T; 2],
    p: [T; 2],
) -> bool {
    computes_place(
        eval,
        |at: Reading<T>| (at.num)(a[0]) - (at.num)(b[0]),
        |at: Reading<T>| (at.num)(a[1]) - (at.num)(b[1]),
        p,
    )
}

/// The centre of the circle that a radius constraint is about.
pub open spec fn center_of<T>(view: SketchView<T>, id: EntityId) -> [T; 2] {
    view.position(view.entities[id.raw]->center)
}

/// The dimension measures something: its driving constraint is a distance, or
/// the radius of a circle.
pub open spec fn has_layout<T>(view: SketchView<T>, id: DimensionId) -> bool {
    let driver = view.dimensions[id.raw].constraint.raw;
    &&& view.dimensions.contains_key(id.raw)
    &&& view.constraints.contains_key(driver)
    &&& match view.constraints[driver] {
        Constraint::Distance(..) => true,
        Constraint::Radius(e, _) => is_circle(view, e),
        _ => false,
    }
}

/// `place` is what the label of a dimension is placed relative to: the middle
/// of the points, or the centre of the circle.
pub open spec fn is_reference<T, E: Fn(&Expr<T>, &Vec<T>) -> T>(
    view: SketchView<T>,
    eval: E,
    id: DimensionId,
    place: Option<[T; 2]>,
) -> bool {
    if has_layout(view, id) {
        match view.constraints[view.dimensions[id.raw].constraint.raw] {
            Constraint::Distance(p, q, _) => place matches Some(place) && is_middle(
                eval,
                view.position(p),
                view.position(q),
                place,
            ),
            Constraint::Radius(e, _) => place == Some(center_of(view, e)),
            _ => false,
        }
    } else {
        place is None
    }
}

/// How a dimension is drawn, in the coordinates of the plane.
#[derive(Debug, Clone, Copy, PartialEq)]
pub enum DimLayout<T> {
    /// A line beside the two points.
    Linear {
        /// The first point.
        a: [T; 2],
        /// The second point.
        b: [T; 2],
        /// The first end of the line.
        da: [T; 2],
        /// The second end of the line.
        db: [T; 2],
        /// The value that is shown.
        value: T,
    },
    /// A leader from the circle to the label.
    Round {
        /// The centre of the circle.
        center: [T; 2],
        /// The point of the circle that the leader begins at.
        edge: [T; 2],
        /// The place of the label.
        label: [T; 2],
        /// Whether the diameter is shown.
        diameter: bool,
        /// The value that is shown.
        value: T,
    },
}

/// The sign before the value of a dimension.
pub open spec fn prefix_spec<T>(layout: DimLayout<T>) -> Seq<char> {
    match layout {
        DimLayout::Linear { .. } => ""@,
        DimLayout::Round { diameter, .. } => if diameter {
            "⌀"@
        } else {
            "R"@
        },
    }
}

impl<T> DimLayout<T> {
    /// The sign before the value.
    pub fn prefix(&self) -> (text: &'static str)
        ensures
            text@ == prefix_spec(*self),
    {
        match self {
            DimLayout::Linear { .. } => "",
            DimLayout::Round { diameter, .. } => if *diameter {
                "⌀"
            } else {
                "R"
            },
        }
    }
}

/// `edge` is the point of the circle in the direction of the offset; in the
/// direction of the first diagonal where the offset has no length.
pub open spec fn is_edge<T, E: Fn(&Expr<T>, &Vec<T>) -> T, L: Fn(&T, &T) -> bool>(
    eval: E,
    less: L,
    center: [T; 2],
    radius: T,
    offset: [T; 2],
    edge: [T; 2],
) -> bool {
    exists|limit: T, size: T, long: bool|
        {
            &&& #[trigger] call_ensures(less, (&limit, &size), long)
            &&& is_reciprocal(eval, 1_000_000_000, limit)
            &&& computes(
                eval,
                |at: Reading<T>| offset_length((at.num)(offset[0]), (at.num)(offset[1])),
                Seq::empty(),
                size,
            )
            &&& if long {
                computes_place(
                    eval,
                    |at: Reading<T>|
                        (at.num)(center[0]) + (at.num)(radius) * ((at.num)(offset[0]) / (at.num)(
                            size,
                        )),
                    |at: Reading<T>|
                        (at.num)(center[1]) + (at.num)(radius) * ((at.num)(offset[1]) / (at.num)(
                            size,
                        )),
                    edge,
                )
            } else {
                computes_place(
                    eval,
                    |at: Reading<T>| (at.num)(center[0]) + (at.num)(radius) * root(1real / 2real),
                    |at: Reading<T>| (at.num)(center[1]) + (at.num)(radius) * root(1real / 2real),
                    edge,
                )
            }
        }
}

/// The length of an offset.
pub open spec fn offset_length(x: real, y: real) -> real {
    root(x * x + y * y)
}

/// `layout` is how a dimension is drawn.
pub open spec fn is_layout<T, E: Fn(&Expr<T>, &Vec<T>) -> T, L: Fn(&T, &T) -> bool>(
    view: SketchView<T>,
    eval: E,
    less: L,
    id: DimensionId,
    layout: DimLayout<T>,
) -> bool {
    let dim = view.dimensions[id.raw];
    match view.constraints[dim.constraint.raw] {
        Constraint::Distance(p, q, stored) => {
            &&& layout matches DimLayout::Linear { a, b, da, db, value }
            &&& a == view.position(p)
            &&& b == view.position(q)
            &&& is_sum(eval, a, dim.offset, da)
            &&& is_sum(eval, b, dim.offset, db)
            &&& is_shown_value(eval, dim.kind, stored, value)
        },
        Constraint::Radius(e, stored) => {
            &&& layout matches DimLayout::Round { center, edge, label, diameter, value }
            &&& center == center_of(view, e)
            &&& is_edge(
                eval,
                less,
                center,
                view.vars[view.entities[e.raw]->radius.index as int],
                dim.offset,
                edge,
            )
            &&& is_sum(eval, center, dim.offset, label)
            &&& diameter == (dim.kind is Diameter)
            &&& is_shown_value(eval, dim.kind, stored, value)
        },
        _ => false,
    }
}

fn sum_of<T: Copy, E: Fn(&Expr<T>, &Vec<T>) -> T>(eval: &E, a: [T; 2], b: [T; 2]) -> (p: [T; 2])
    requires
        evaluates_all(*eval),
    ensures
        is_sum(*eval, a, b, p),
{
    let x = eval_closed(
        eval,
        Expr::sum(Expr::value(a[0]), Expr::value(b[0])),
        Ghost(|at: Reading<T>| (at.num)(a[0]) + (at.num)(b[0])),
    );
    let y = eval_closed(
        eval,
        Expr::sum(Expr::value(a[1]), Expr::value(b[1])),
        Ghost(|at: Reading<T>| (at.num)(a[1]) + (at.num)(b[1])),
    );
    [x, y]
}

fn gap_of<T: Copy, E: Fn(&Expr<T>, &Vec<T>) -> T>(eval: &E, a: [T; 2], b: [T; 2]) -> (p: [T; 2])
    requires
        evaluates_all(*eval),
    ensures
        is_gap(*eval, a, b, p),
{
    let x = eval_closed(
        eval,
        Expr::difference(Expr::value(a[0]), Expr::value(b[0])),
        Ghost(|at: Reading<T>| (at.num)(a[0]) - (at.num)(b[0])),
    );
    let y = eval_closed(
        eval,
        Expr::difference(Expr::value(a[1]), Expr::value(b[1])),
        Ghost(|at: Reading<T>| (at.num)(a[1]) - (at.num)(b[1])),
    );
    [x, y]
}

fn middle_formula<T: Copy>(a: T, b: T) -> (e: Expr<T>)
    ensures
        forall|at: Reading<T>| #[trigger]
            e.eval(at) == ((at.num)(a) + (at.num)(b)) * (1real / 2real),
{
    assert((1 as int) as real / (2 as int) as real == 1real / 2real);
    Expr::product(Expr::sum(Expr::value(a), Expr::value(b)), Expr::ratio(1, 2))
}

fn middle_of<T: Copy, E: Fn(&Expr<T>, &Vec<T>) -> T>(eval: &E, a: [T; 2], b: [T; 2]) -> (p: [T; 2])
    requires
        evaluates_all(*eval),
    ensures
        is_middle(*eval, a, b, p),
{
    let x = eval_closed(
        eval,
        middle_formula(a[0], b[0]),
        Ghost(|at: Reading<T>| ((at.num)(a[0]) + (at.num)(b[0])) * (1real / 2real)),
    );
    let y = eval_closed(
        eval,
        middle_formula(a[1], b[1]),
        Ghost(|at: Reading<T>| ((at.num)(a[1]) + (at.num)(b[1])) * (1real / 2real)),
    );
    [x, y]
}

/// Formula of the length of an offset.
fn offset_length_formula<T: Copy>(offset: [T; 2]) -> (e: Expr<T>)
    ensures
        forall|at: Reading<T>| #[trigger]
            e.eval(at) == offset_length((at.num)(offset[0]), (at.num)(offset[1])),
{
    Expr::sqrt(
        Expr::sum(
            Expr::product(Expr::value(offset[0]), Expr::value(offset[0])),
            Expr::product(Expr::value(offset[1]), Expr::value(offset[1])),
        ),
    )
}

/// Formula of one coordinate of a point of a circle, in a direction.
fn rim_formula<T: Copy>(center: T, radius: T, direction: Expr<T>) -> (e: Expr<T>)
    ensures
        forall|at: Reading<T>| #[trigger]
            e.eval(at) == (at.num)(center) + (at.num)(radius) * direction.eval(at),
{
    Expr::sum(Expr::value(center), Expr::product(Expr::value(radius), direction))
}

fn diagonal_formula<T>() -> (e: Expr<T>)
    ensures
        forall|at: Reading<T>| #[trigger] e.eval(at) == root(1real / 2real),
{
    assert((1 as int) as real / (2 as int) as real == 1real / 2real);
    Expr::sqrt(Expr::ratio(1, 2))
}

/// The point of a circle in the direction of an offset.
fn edge_of<T: Copy, E: Fn(&Expr<T>, &Vec<T>) -> T, L: Fn(&T, &T) -> bool>(
    eval: &E,
    less: &L,
    center: [T; 2],
    radius: T,
    offset: [T; 2],
) -> (edge: [T; 2])
    requires
        evaluates_all(*eval),
        compares_all(*less),
    ensures
        is_edge(*eval, *less, center, radius, offset, edge),
{
    let limit = reciprocal(eval, 1_000_000_000);
    let size = eval_closed(
        eval,
        offset_length_formula(offset),
        Ghost(|at: Reading<T>| offset_length((at.num)(offset[0]), (at.num)(offset[1]))),
    );
    let long = less(&limit, &size);
    if long {
        let x = eval_closed(
            eval,
            rim_formula(
                center[0],
                radius,
                Expr::quotient(Expr::value(offset[0]), Expr::value(size)),
            ),
            Ghost(
                |at: Reading<T>|
                    (at.num)(center[0]) + (at.num)(radius) * ((at.num)(offset[0]) / (at.num)(size)),
            ),
        );
        let y = eval_closed(
            eval,
            rim_formula(
                center[1],
                radius,
                Expr::quotient(Expr::value(offset[1]), Expr::value(size)),
            ),
            Ghost(
                |at: Reading<T>|
                    (at.num)(center[1]) + (at.num)(radius) * ((at.num)(offset[1]) / (at.num)(size)),
            ),
        );
        [x, y]
    } else {
        let x = eval_closed(
            eval,
            rim_formula(center[0], radius, diagonal_formula()),
            Ghost(|at: Reading<T>| (at.num)(center[0]) + (at.num)(radius) * root(1real / 2real)),
        );
        let y = eval_closed(
            eval,
            rim_formula(center[1], radius, diagonal_formula()),
            Ghost(|at: Reading<T>| (at.num)(center[1]) + (at.num)(radius) * root(1real / 2real)),
        );
        [x, y]
    }
}

impl<T: Copy> SketchSession<T> {
    /// The centre of a circle.
    fn circle_center(&self, id: EntityId) -> (center: Option<[T; 2]>)
        requires
            self.sketch.wf(),
            self.sketch@.linked(),
        ensures
            center == (if is_circle(self.sketch@, id) {
                Some(center_of(self.sketch@, id))
            } else {
                None
            }),
    {
        match self.sketch.entity(id) {
            Some(SketchEntity::Circle { center, .. }) => {
                assert(attached(self.sketch@.entities[id.raw], center));
                Some(self.sketch.point_pos(center))
            },
            _ => None,
        }
    }

    /// What the label of a dimension is placed relative to, if the dimension
    /// measures something.
    pub fn dim_reference<E: Fn(&Expr<T>, &Vec<T>) -> T>(&self, id: DimensionId, eval: &E) -> (place:
        Option<[T; 2]>)
        requires
            self.sketch.wf(),
            self.sketch@.linked(),
            evaluates_all(*eval),
        ensures
            is_reference(self.sketch@, *eval, id, place),
    {
        match self.sketch.dimension(id) {
            Some(dim) => match self.sketch.constraint(dim.constraint) {
                Some(Constraint::Distance(p, q, _)) => {
                    let a = self.sketch.point_pos(p);
                    let b = self.sketch.point_pos(q);
                    Some(middle_of(eval, a, b))
                },
                Some(Constraint::Radius(e, _)) => self.circle_center(e),
                _ => None,
            },
            None => None,
        }
    }

    /// How a dimension is drawn, if it measures something.
    pub fn dim_layout<E: Fn(&Expr<T>, &Vec<T>) -> T, L: Fn(&T, &T) -> bool>(
        &self,
        id: DimensionId,
        eval: &E,
        less: &L,
    ) -> (layout: Option<DimLayout<T>>)
        requires
            self.sketch.wf(),
            self.sketch@.linked(),
            evaluates_all(*eval),
            compares_all(*less),
        ensures
            layout is Some <==> has_layout(self.sketch@, id),
            layout matches Some(layout) ==> is_layout(self.sketch@, *eval, *less, id, layout),
    {
        let dim = match self.sketch.dimension(id) {
            Some(dim) => dim,
            None => {
                return None;
            },
        };
        let value = match self.sketch.dimension_value(id, eval) {
            Some(value) => value,
            None => {
                return None;
            },
        };
        match self.sketch.constraint(dim.constraint) {
            Some(Constraint::Distance(p, q, _)) => {
                let a = self.sketch.point_pos(p);
                let b = self.sketch.point_pos(q);
                let da = sum_of(eval, a, dim.offset);
                let db = sum_of(eval, b, dim.offset);
                Some(DimLayout::Linear { a, b, da, db, value })
            },
            Some(Constraint::Radius(e, _)) => {
                match (self.circle_center(e), self.sketch.circle_radius(e)) {
                    (Some(center), Some(radius)) => {
                        let edge = edge_of(eval, less, center, radius, dim.offset);
                        let label = sum_of(eval, center, dim.offset);
                        let diameter = match dim.kind {
                            DimensionKind::Diameter => true,
                            _ => false,
                        };
                        Some(DimLayout::Round { center, edge, label, diameter, value })
                    },
                    _ => None,
                }
            },
            _ => None,
        }
    }

    /// The dimension under the cursor: the nearest within `tol`, and of several
    /// the first in slot order. `distance` is how far the cursor is from a
    /// dimension, by how it is drawn.
    pub fn dimension_at<
        E: Fn(&Expr<T>, &Vec<T>) -> T,
        L: Fn(&T, &T) -> bool,
        W: Fn(&DimLayout<T>) -> T,
        M: Fn(&T, &T) -> bool,
        Q: Fn(&T) -> i64,
    >(&self, tol: T, eval: &E, less: &L, distance: &W, order: &Order<M, Q>) -> (found: Option<
        DimensionId,
    >)
        requires
            self.sketch.wf(),
            self.sketch@.linked(),
            evaluates_all(*eval),
            compares_all(*less),
            orders_all(*order),
            forall|layout: &DimLayout<T>| #[trigger] call_requires(distance, (layout,)),
        ensures
            is_dimension_at(self.sketch@, tol, *eval, *less, *distance, *order, found),
    {
        let list = self.sketch.dimensions();
        let ghost keys = slot_order(self.sketch@.dimensions.dom());
        let mut layouts: Vec<Option<DimLayout<T>>> = Vec::new();
        let mut ranks: Vec<Option<i64>> = Vec::new();
        let mut i: usize = 0;
        while i < list.len()
            invariant
                self.sketch.wf(),
                self.sketch@.linked(),
                evaluates_all(*eval),
                compares_all(*less),
                orders_all(*order),
                forall|layout: &DimLayout<T>| #[trigger] call_requires(distance, (layout,)),
                keys == slot_order(self.sketch@.dimensions.dom()),
                in_slot_order(keys, self.sketch@.dimensions.dom()),
                list@.len() == keys.len(),
                forall|j: int|
                    0 <= j < list@.len() ==> (#[trigger] list@[j]).0 == (DimensionId {
                        raw: keys[j],
                    }),
                i <= list@.len(),
                layouts@.len() == i,
                ranks@.len() == i,
                forall|j: int|
                    0 <= j < i ==> is_layout_if_any(
                        self.sketch@,
                        *eval,
                        *less,
                        DimensionId { raw: keys[j] },
                        #[trigger] layouts@[j],
                    ),
                forall|j: int|
                    0 <= j < i ==> is_layout_rank(
                        *distance,
                        *order,
                        layouts@[j],
                        tol,
                        #[trigger] ranks@[j],
                    ),
            decreases list@.len() - i,
        {
            assert(keys.contains(keys[i as int]));
            assert(self.sketch@.dimensions.dom().contains(keys[i as int]));
            let layout = self.dim_layout(list[i].0, eval, less);
            let place = match &layout {
                Some(drawn) => {
                    let gap = distance(drawn);
                    rank_within(order, &gap, &tol)
                },
                None => None,
            };
            assert(is_layout_rank(*distance, *order, layout, tol, place));
            layouts.push(layout);
            ranks.push(place);
            i = i + 1;
        }
        assert(dimension_ranks(
            self.sketch@,
            tol,
            *eval,
            *less,
            *distance,
            *order,
            layouts@,
            ranks@,
        ));
        match first_least(&ranks) {
            Some(best) => {
                assert(is_first_least(ranks@, best as int));
                Some(list[best].0)
            },
            None => None,
        }
    }

    /// The button goes down at a place: the nearest point within `radius` is
    /// dragged, or if there is none, the label under the cursor.
    pub fn begin_drag<
        E: Fn(&Expr<T>, &Vec<T>) -> T,
        M: Fn(&T, &T) -> bool,
        Q: Fn(&T) -> i64,
    >(
        &mut self,
        mouse: Option<[T; 2]>,
        radius: T,
        dim_hit: Option<DimensionId>,
        eval: &E,
        order: &Order<M, Q>,
    )
        requires
            old(self).wf(),
            evaluates_all(*eval),
            orders_all(*order),
        ensures
            final(self).wf(),
            begins_drag(*eval, *order, *old(self), mouse, radius, dim_hit, *final(self)),
    {
        if let SketchTool::Select = self.tool {
            let near = match mouse {
                Some(pos) => self.sketch.nearest_point(pos, radius, eval, order),
                None => None,
            };
            assert(is_grabbed(self.sketch@, mouse, radius, *eval, *order, near));
            match near {
                Some((id, _)) => {
                    self.dragging = Some(id);
                },
                None => {
                    self.dragging_dim = dim_hit;
                },
            }
        }
    }
}

/// `layout` is how a dimension is drawn, if it measures something.
pub open spec fn is_layout_if_any<T, E: Fn(&Expr<T>, &Vec<T>) -> T, L: Fn(&T, &T) -> bool>(
    view: SketchView<T>,
    eval: E,
    less: L,
    id: DimensionId,
    layout: Option<DimLayout<T>>,
) -> bool {
    &&& layout is Some <==> has_layout(view, id)
    &&& layout matches Some(layout) ==> is_layout(view, eval, less, id, layout)
}

/// `rank` is the rank of the distance of a dimension that is drawn so; one
/// that is not drawn has none.
pub open spec fn is_layout_rank<
    T,
    W: Fn(&DimLayout<T>) -> T,
    M: Fn(&T, &T) -> bool,
    Q: Fn(&T) -> i64,
>(
    distance: W,
    order: Order<M, Q>,
    layout: Option<DimLayout<T>>,
    tol: T,
    rank: Option<i64>,
) -> bool {
    match layout {
        Some(drawn) => is_gap_rank(distance, order, drawn, tol, rank),
        None => rank is None,
    }
}

/// `rank` is the rank of the distance of what is drawn so.
pub open spec fn is_gap_rank<
    T,
    W: Fn(&DimLayout<T>) -> T,
    M: Fn(&T, &T) -> bool,
    Q: Fn(&T) -> i64,
>(
    distance: W,
    order: Order<M, Q>,
    drawn: DimLayout<T>,
    tol: T,
    rank: Option<i64>,
) -> bool {
    exists|gap: T| #[trigger]
        call_ensures(distance, (&drawn,), gap) && is_rank(order, gap, tol, rank)
}

/// `layouts` are how all dimensions are drawn, in slot order, and `ranks` the
/// ranks of their distances.
pub open spec fn dimension_ranks<
    T,
    E: Fn(&Expr<T>, &Vec<T>) -> T,
    L: Fn(&T, &T) -> bool,
    W: Fn(&DimLayout<T>) -> T,
    M: Fn(&T, &T) -> bool,
    Q: Fn(&T) -> i64,
>(
    view: SketchView<T>,
    tol: T,
    eval: E,
    less: L,
    distance: W,
    order: Order<M, Q>,
    layouts: Seq<Option<DimLayout<T>>>,
    ranks: Seq<Option<i64>>,
) -> bool {
    let keys = slot_order(view.dimensions.dom());
    &&& layouts.len() == keys.len()
    &&& ranks.len() == keys.len()
    &&& forall|i: int|
        0 <= i < keys.len() ==> is_layout_if_any(
            view,
            eval,
            less,
            DimensionId { raw: keys[i] },
            #[trigger] layouts[i],
        )
    &&& forall|i: int|
        0 <= i < keys.len() ==> is_layout_rank(
            distance,
            order,
            layouts[i],
            tol,
            #[trigger] ranks[i],
        )
}

/// `found` is the nearest dimension within the limit, of several the first in
/// slot order; if no dimension is within it, there is none.
pub open spec fn is_dimension_at<
    T,
    E: Fn(&Expr<T>, &Vec<T>) -> T,
    L: Fn(&T, &T) -> bool,
    W: Fn(&DimLayout<T>) -> T,
    M: Fn(&T, &T) -> bool,
    Q: Fn(&T) -> i64,
>(
    view: SketchView<T>,
    tol: T,
    eval: E,
    less: L,
    distance: W,
    order: Order<M, Q>,
    found: Option<DimensionId>,
) -> bool {
    exists|layouts: Seq<Option<DimLayout<T>>>, ranks: Seq<Option<i64>>| #[trigger]
        dimension_ranks(view, tol, eval, less, distance, order, layouts, ranks) && (match found {
            Some(id) => exists|i: int| #[trigger]
                is_first_least(ranks, i) && id.raw == slot_order(view.dimensions.dom())[i],
            None => forall|i: int| 0 <= i < ranks.len() ==> #[trigger] ranks[i] is None,
        })
}

/// What it does to snap: a drawing tool snaps to the nearest point.
pub open spec fn snaps_to<
    T,
    E: Fn(&Expr<T>, &Vec<T>) -> T,
    M: Fn(&T, &T) -> bool,
    Q: Fn(&T) -> i64,
>(
    eval: E,
    order: Order<M, Q>,
    session: SketchSession<T>,
    mouse: Option<[T; 2]>,
    radius: T,
    found: Option<(PointId, [T; 2])>,
) -> bool {
    match mouse {
        Some(pos) => if session.tool is Select {
            found is None
        } else {
            is_nearest(session.sketch@, pos, radius, eval, order, found)
        },
        None => found is None,
    }
}

/// What a click does. Selecting, it picks what is there; drawing, it is the
/// next point of what is drawn.
pub open spec fn clicks<
    T,
    E: Fn(&Expr<T>, &Vec<T>) -> T,
    L: Fn(&T, &T) -> bool,
    M: Fn(&T, &T) -> bool,
    Q: Fn(&T) -> i64,
>(
    eval: E,
    less: L,
    order: Order<M, Q>,
    before: SketchSession<T>,
    mouse: [T; 2],
    snap: Option<(PointId, [T; 2])>,
    dim_hit: Option<DimensionId>,
    select_tol: T,
    shift: bool,
    after: SketchSession<T>,
) -> bool {
    &&& before.tool is Select ==> {
        &&& exists|hit: Option<Selected>| #[trigger]
            is_picked(before.sketch@, mouse, select_tol, dim_hit, eval, order, hit)
                && is_selection_after(before.selection@, hit, shift, after.selection@)
        &&& after.sketch == before.sketch
        &&& after.tool == before.tool
    }
    &&& before.tool !is Select ==> {
        &&& draws(
            eval,
            less,
            before.tool,
            before.sketch@,
            mouse,
            clicked_point(mouse, snap),
            after.tool,
            after.sketch@,
        )
        &&& after.selection == before.selection
    }
    &&& after.last_solve == before.last_solve
    &&& after.same_setting(&before)
}

/// What it does when the button goes down.
pub open spec fn begins_drag<
    T,
    E: Fn(&Expr<T>, &Vec<T>) -> T,
    M: Fn(&T, &T) -> bool,
    Q: Fn(&T) -> i64,
>(
    eval: E,
    order: Order<M, Q>,
    before: SketchSession<T>,
    mouse: Option<[T; 2]>,
    radius: T,
    dim_hit: Option<DimensionId>,
    after: SketchSession<T>,
) -> bool {
    &&& before.tool !is Select ==> after == before
    &&& before.tool is Select ==> exists|near: Option<(PointId, [T; 2])>| #[trigger]
        is_grabbed(before.sketch@, mouse, radius, eval, order, near) && after == (match near {
            Some((id, _)) => SketchSession { dragging: Some(id), ..before },
            None => SketchSession { dragging_dim: dim_hit, ..before },
        })
}

/// What it does when the cursor moves with the button down.
pub open spec fn drags_to<
    T,
    E: Fn(&Expr<T>, &Vec<T>) -> T,
    L: Fn(&T, &T) -> bool,
    F: Fn(&Vec<Vec<T>>) -> Option<Factors<T>>,
>(
    ops: SolverOps<E, L, F>,
    before: SketchSession<T>,
    pos: [T; 2],
    after: SketchSession<T>,
) -> bool {
    &&& after.tool == before.tool
    &&& after.selection == before.selection
    &&& after.same_setting(&before)
    &&& match (before.tool, before.dragging, before.dragging_dim) {
        (SketchTool::Select, Some(point), _) => after.last_solve matches Some(result) && solves(
            ops,
            before.sketch@,
            pull(before.sketch@, point, pos),
            result,
            after.sketch@,
        ),
        (SketchTool::Select, None, Some(dim)) => moves_label(
            ops.eval,
            before.sketch@,
            dim,
            pos,
            after.sketch@,
        ) && after.last_solve == before.last_solve,
        _ => after.sketch == before.sketch && after.last_solve == before.last_solve,
    }
}

/// What it does when the button goes up.
pub open spec fn ends_drag<
    T,
    E: Fn(&Expr<T>, &Vec<T>) -> T,
    L: Fn(&T, &T) -> bool,
    F: Fn(&Vec<Vec<T>>) -> Option<Factors<T>>,
>(ops: SolverOps<E, L, F>, before: SketchSession<T>, after: SketchSession<T>) -> bool {
    if before.tool is Select {
        &&& after.tool == before.tool
        &&& after.selection == before.selection
        &&& after.plane == before.plane
        &&& after.editing == before.editing
        &&& after.dragging is None
        &&& after.dragging_dim is None
        &&& match before.dragging {
            Some(_) => after.last_solve matches Some(result) && solves(
                ops,
                before.sketch@,
                Seq::empty(),
                result,
                after.sketch@,
            ),
            None => after.sketch == before.sketch && after.last_solve == before.last_solve,
        }
    } else {
        after == before
    }
}

/// The point that is grabbed at a place, if the place is known.
pub open spec fn is_grabbed<
    T,
    E: Fn(&Expr<T>, &Vec<T>) -> T,
    M: Fn(&T, &T) -> bool,
    Q: Fn(&T) -> i64,
>(
    view: SketchView<T>,
    mouse: Option<[T; 2]>,
    radius: T,
    eval: E,
    order: Order<M, Q>,
    near: Option<(PointId, [T; 2])>,
) -> bool {
    match mouse {
        Some(pos) => is_nearest(view, pos, radius, eval, order, near),
        None => near is None,
    }
}

/// `after` is the sketch with the label of a dimension moved to a place.
pub open spec fn moves_label<T, E: Fn(&Expr<T>, &Vec<T>) -> T>(
    eval: E,
    before: SketchView<T>,
    id: DimensionId,
    pos: [T; 2],
    after: SketchView<T>,
) -> bool {
    exists|place: Option<[T; 2]>| #[trigger]
        is_reference(before, eval, id, place) && match place {
            Some(reference) => exists|offset: [T; 2]| #[trigger]
                is_gap(eval, pos, reference, offset) && after == with_offset(before, id, offset),
            None => after == before,
        }
}

/// The sketch with the label of a dimension at another offset.
pub open spec fn with_offset<T>(view: SketchView<T>, id: DimensionId, offset: [T; 2]) -> SketchView<
    T,
> {
    if view.dimensions.contains_key(id.raw) {
        SketchView {
            dimensions: view.dimensions.insert(
                id.raw,
                Dimension { offset, ..view.dimensions[id.raw] },
            ),
            ..view
        }
    } else {
        view
    }
}

/// Moving a label leaves the geometry and all values as they are.
pub proof fn lemma_label_keeps_geometry<T, E: Fn(&Expr<T>, &Vec<T>) -> T>(
    eval: E,
    before: SketchView<T>,
    id: DimensionId,
    pos: [T; 2],
    after: SketchView<T>,
)
    requires
        moves_label(eval, before, id, pos, after),
    ensures
        after.vars == before.vars,
        after.points == before.points,
        after.entities == before.entities,
        after.constraints == before.constraints,
        after.dimensions.dom() =~= before.dimensions.dom(),
{
}

impl<T: Copy> SketchSession<T> {
    /// The cursor moves with the button down: a dragged point follows as far
    /// as the constraints let it; a dragged label moves, and nothing else.
    pub fn drag_to<
        E: Fn(&Expr<T>, &Vec<T>) -> T,
        L: Fn(&T, &T) -> bool,
        F: Fn(&Vec<Vec<T>>) -> Option<Factors<T>>,
    >(&mut self, pos: [T; 2], ops: &SolverOps<E, L, F>)
        requires
            old(self).wf(),
            ops_usable::<T, E, L, F>(*ops),
        ensures
            final(self).wf(),
            drags_to(*ops, *old(self), pos, *final(self)),
            final(self).sketch@.points == old(self).sketch@.points,
            final(self).sketch@.entities == old(self).sketch@.entities,
            old(self).sketch.keeps_ids(final(self).sketch),
    {
        let ghost before = self.sketch@;
        proof {
            self.sketch.lemma_keeps_ids_here();
        }
        if let SketchTool::Select = self.tool {
            match (self.dragging, self.dragging_dim) {
                (Some(point), _) => {
                    let result = self.sketch.solve_drag(point, pos, ops);
                    proof {
                        lemma_solving_keeps_structure(
                            *ops,
                            before,
                            pull(before, point, pos),
                            result,
                            self.sketch@,
                        );
                    }
                    self.last_solve = Some(result);
                },
                (None, Some(dim)) => {
                    let place = self.dim_reference(dim, &ops.eval);
                    assert(is_reference(before, ops.eval, dim, place));
                    if let Some(reference) = place {
                        let offset = gap_of(&ops.eval, pos, reference);
                        self.sketch.set_dimension_offset(dim, offset);
                        assert(is_gap(ops.eval, pos, reference, offset));
                        assert(self.sketch@ == with_offset(before, dim, offset));
                    }
                    assert(moves_label(ops.eval, before, dim, pos, self.sketch@));
                },
                (None, None) => {},
            }
        }
    }

    /// The button goes up: after a point was dragged, the constraints are
    /// solved once more without the pull.
    pub fn end_drag<
        E: Fn(&Expr<T>, &Vec<T>) -> T,
        L: Fn(&T, &T) -> bool,
        F: Fn(&Vec<Vec<T>>) -> Option<Factors<T>>,
    >(&mut self, ops: &SolverOps<E, L, F>)
        requires
            old(self).wf(),
            ops_usable::<T, E, L, F>(*ops),
        ensures
            final(self).wf(),
            ends_drag(*ops, *old(self), *final(self)),
            final(self).sketch@.points == old(self).sketch@.points,
            final(self).sketch@.entities == old(self).sketch@.entities,
            old(self).sketch.keeps_ids(final(self).sketch),
    {
        let ghost before = self.sketch@;
        proof {
            self.sketch.lemma_keeps_ids_here();
        }
        if let SketchTool::Select = self.tool {
            if self.dragging.is_some() {
                self.dragging = None;
                let result = self.sketch.solve(ops);
                proof {
                    lemma_solving_keeps_structure(
                        *ops,
                        before,
                        Seq::empty(),
                        result,
                        self.sketch@,
                    );
                }
                self.last_solve = Some(result);
            }
            self.dragging_dim = None;
        }
    }
}

} // verus!
