//! Laws of the editing of a sketch: of clicks, tools, selections and labels.
use vstd::prelude::*;

use crate::arith::{Order, computes, is_reciprocal};
use crate::constraint::{Constraint, dist_sq};
use crate::dimension::{
    DimensionTarget, driver_of, is_stored_value, kind_of_target, with_dimension,
};
use crate::editor::is_acted;
use crate::expr::{Expr, Reading, magnitude};
use crate::ids::{ConstraintId, DimensionId, EntityId, PointId, VarId};
use crate::input::{Hover, ViewportInput, is_hover, takes_input};
use crate::laws::meshes::exact_eval;
use crate::laws::picking::{
    exact_order, is_apart, is_off, lemma_nearest_entity, lemma_nearest_point,
};
use crate::laws::reals::lemma_root_is;
use crate::laws::sketching::{lemma_deletion, lemma_refusal};
use crate::laws::solving::{
    is_met_within, lemma_drag_meets_constraints, lemma_solved_meets_constraints, names_rightly,
    spot_of,
};
use crate::measure::{distance, is_hit, is_nearest};
use crate::session::{
    ActionItem, DimLayout, PendingPoint, Selected, SketchAction, SketchSession, SketchTool,
    ToolKind, acts, are_actions, begins_drag, clicks, deletes, drags_to, draws, draws_circle,
    draws_line, ends_drag, escapes, finds_apart, finds_wide, has_layout, is_circle,
    is_default_offset, is_dimension_at, is_distance, is_double, is_first_place, is_gap, is_grabbed,
    is_item, is_layout, is_line, is_middle, is_picked, is_reference, is_selection_after, is_sum,
    moves_label, pending_ok, settles, with_constraint, with_offset, without_selected,
};
use crate::sketch::{Sketch, SketchEntity, SketchView};
use crate::solver::{
    Factors, SolveResult, SolverOps, exact, lemma_solving_keeps_structure, reading, solves,
};

verus! {

/// The point is the one that was meant: the existing one, or a new one at the
/// place of the click.
pub open spec fn is_meant<T>(
    before: SketchView<T>,
    pending: PendingPoint<T>,
    p: PointId,
    after: SketchView<T>,
) -> bool {
    &&& after.points.contains_key(p.raw)
    &&& match pending.existing {
        Some(existing) => p == existing,
        None => !before.points.contains_key(p.raw) && after.position(p) == pending.pos,
    }
}

/// All points but the new ones are where they were, and so is all else but the
/// entities.
pub open spec fn keeps_points<T>(before: SketchView<T>, after: SketchView<T>) -> bool {
    &&& forall|k: u64| #[trigger]
        before.points.contains_key(k) ==> after.points.contains_key(k) && after.position(
            PointId { raw: k },
        ) == before.position(PointId { raw: k })
    &&& after.constraints == before.constraints
    &&& after.dimensions == before.dimensions
}

/// One line was drawn, between the two points that were meant.
pub open spec fn is_drawn_line<T>(
    before: SketchView<T>,
    from: PendingPoint<T>,
    to: PendingPoint<T>,
    ends: (PointId, PointId),
    id: EntityId,
    after: SketchView<T>,
) -> bool {
    &&& is_meant(before, from, ends.0, after)
    &&& is_meant(before, to, ends.1, after)
    &&& keeps_points(before, after)
    &&& forall|k: u64| #[trigger]
        after.points.contains_key(k) ==> before.points.contains_key(k) || k == ends.0.raw || k
            == ends.1.raw
    &&& !before.entities.contains_key(id.raw)
    &&& after.entities.contains_key(id.raw)
    &&& after.entities[id.raw] == (SketchEntity::Line { p1: ends.0, p2: ends.1 })
    &&& forall|e: u64| #[trigger]
        after.entities.contains_key(e) <==> before.entities.contains_key(e) || e == id.raw
    &&& forall|e: u64| #[trigger]
        before.entities.contains_key(e) ==> after.entities[e] == before.entities[e]
}

/// One circle was drawn, around the point that was meant and with the radius.
pub open spec fn is_drawn_circle<T>(
    num: spec_fn(T) -> real,
    before: SketchView<T>,
    center: PendingPoint<T>,
    p: PointId,
    size: real,
    id: EntityId,
    after: SketchView<T>,
) -> bool {
    &&& is_meant(before, center, p, after)
    &&& keeps_points(before, after)
    &&& forall|k: u64| #[trigger]
        after.points.contains_key(k) ==> before.points.contains_key(k) || k == p.raw
    &&& !before.entities.contains_key(id.raw)
    &&& after.entities.contains_key(id.raw)
    &&& after.entities[id.raw] matches SketchEntity::Circle { center: c, radius } && c == p && num(
        after.vars[radius.index as int],
    ) == size
    &&& forall|e: u64| #[trigger]
        after.entities.contains_key(e) <==> before.entities.contains_key(e) || e == id.raw
    &&& forall|e: u64| #[trigger]
        before.entities.contains_key(e) ==> after.entities[e] == before.entities[e]
}

proof fn lemma_settled<T>(
    before: SketchView<T>,
    pending: PendingPoint<T>,
    p: PointId,
    after: SketchView<T>,
)
    requires
        before.readable(),
        pending_ok(before, Some(pending)),
        settles(before, pending, p, after),
    ensures
        is_meant(before, pending, p, after),
        keeps_points(before, after),
        after.entities == before.entities,
        forall|k: u64| #[trigger]
            after.points.contains_key(k) ==> before.points.contains_key(k) || k == p.raw,
        after.readable(),
        before.vars.len() <= after.vars.len(),
        forall|i: int| 0 <= i < before.vars.len() ==> #[trigger] after.vars[i] == before.vars[i],
{
    assert forall|k: u64| #[trigger] before.points.contains_key(k) implies after.points.contains_key(
        k,
    ) && after.position(PointId { raw: k }) == before.position(PointId { raw: k }) by {
        assert(before.has_place(PointId { raw: k }));
        assert(after.position(PointId { raw: k })@ =~= before.position(PointId { raw: k })@);
    }
    assert forall|k: u64| #[trigger] after.points.contains_key(k) implies after.has_place(
        PointId { raw: k },
    ) by {
        if before.points.contains_key(k) {
            assert(before.has_place(PointId { raw: k }));
        }
    }
    assert forall|e: u64| #[trigger] after.entities.contains_key(e) implies after.has_radius(
        EntityId { raw: e },
    ) by {
        assert(before.has_radius(EntityId { raw: e }));
    }
}

proof fn lemma_drawn_line<T>(
    before: SketchView<T>,
    from: PendingPoint<T>,
    to: PendingPoint<T>,
    end: PointId,
    after: SketchView<T>,
) -> (drawn: (PointId, EntityId))
    requires
        before.readable(),
        pending_ok(before, Some(from)),
        pending_ok(before, Some(to)),
        draws_line(before, from, to, end, after),
    ensures
        is_drawn_line(before, from, to, (drawn.0, end), drawn.1, after),
{
    let (p1, first, both, id) = choose|
        p1: PointId,
        first: SketchView<T>,
        both: SketchView<T>,
        id: EntityId,
    |
        {
            &&& #[trigger] settles(before, from, p1, first)
            &&& #[trigger] settles(first, to, end, both)
            &&& !both.entities.contains_key(id.raw)
            &&& after == (SketchView {
                entities: both.entities.insert(
                    #[trigger] id.raw,
                    SketchEntity::Line { p1, p2: end },
                ),
                ..both
            })
        };
    lemma_settled(before, from, p1, first);
    lemma_settled(first, to, end, both);
    assert forall|k: u64| #[trigger] both.points.contains_key(k) implies after.position(
        PointId { raw: k },
    ) == both.position(PointId { raw: k }) by {}
    assert(first.points.contains_key(p1.raw));
    assert(both.position(PointId { raw: p1.raw }) == first.position(PointId { raw: p1.raw }));
    assert(both.points.contains_key(p1.raw));
    assert(both.points.contains_key(end.raw));
    assert(after.position(end) == both.position(end));
    assert(after.position(p1) == both.position(p1));
    (p1, id)
}

proof fn lemma_drawn_circle<T>(
    num: spec_fn(T) -> real,
    before: SketchView<T>,
    center: PendingPoint<T>,
    radius: T,
    after: SketchView<T>,
) -> (drawn: (PointId, EntityId))
    requires
        before.readable(),
        after.vars.len() <= usize::MAX,
        pending_ok(before, Some(center)),
        draws_circle(before, center, radius, after),
    ensures
        is_drawn_circle(num, before, center, drawn.0, num(radius), drawn.1, after),
{
    let (p, mid, id) = choose|p: PointId, mid: SketchView<T>, id: EntityId|
        {
            &&& #[trigger] settles(before, center, p, mid)
            &&& !mid.entities.contains_key(id.raw)
            &&& after == (SketchView {
                vars: mid.vars.push(radius),
                entities: mid.entities.insert(
                    #[trigger] id.raw,
                    SketchEntity::Circle {
                        center: p,
                        radius: VarId { index: mid.vars.len() as usize },
                    },
                ),
                ..mid
            })
        };
    lemma_settled(before, center, p, mid);
    assert forall|k: u64| #[trigger] mid.points.contains_key(k) implies after.position(
        PointId { raw: k },
    ) == mid.position(PointId { raw: k }) by {
        assert(mid.has_place(PointId { raw: k }));
        assert(after.position(PointId { raw: k })@ =~= mid.position(PointId { raw: k })@);
    }
    assert(mid.points.contains_key(p.raw));
    assert(after.position(PointId { raw: p.raw }) == mid.position(PointId { raw: p.raw }));
    (p, id)
}

/// What a click with a drawing tool does. The first click draws nothing. The
/// second one draws one line from the first place to the second, and the next
/// line begins where it ends; or one circle around the first place that goes
/// through the second. Where the two places lie together nothing happens. With
/// exact arithmetic; `far` is how far the cursor is from the centre.
pub proof fn lemma_click_draws<T, E: Fn(&Expr<T>, &Vec<T>) -> T, L: Fn(&T, &T) -> bool>(
    num: spec_fn(T) -> real,
    eval: E,
    less: L,
    tool: SketchTool<T>,
    before: SketchView<T>,
    mouse: [T; 2],
    click: PendingPoint<T>,
    next: SketchTool<T>,
    after: SketchView<T>,
    far: real,
)
    requires
        exact(num, eval, less),
        before.readable(),
        after.vars.len() <= usize::MAX,
        pending_ok(before, tool.pending()),
        pending_ok(before, Some(click)),
        draws(eval, less, tool, before, mouse, click, next, after),
        far >= 0real,
        tool matches SketchTool::Circle { center: Some(c) } ==> far * far == dist_sq(
            num(c.pos[0]),
            num(c.pos[1]),
            num(mouse[0]),
            num(mouse[1]),
        ),
    ensures
        match tool {
            SketchTool::Select => false,
            SketchTool::Line { start: None } => after == before && (
            next matches SketchTool::Line { start: Some(s) } && s == click),
            SketchTool::Line { start: Some(s) } => {
                let (x, y) = (num(click.pos[0]) - num(s.pos[0]), num(click.pos[1]) - num(s.pos[1]));
                if x * x + y * y > 1real / 1000000000000real {
                    exists|ends: (PointId, PointId), id: EntityId|
                        {
                            &&& #[trigger] is_drawn_line(before, s, click, ends, id, after)
                            &&& next matches SketchTool::Line { start: Some(t) }
                            &&& t.pos == click.pos
                            &&& t.existing == Some(ends.1)
                        }
                } else {
                    next == tool && after == before
                }
            },
            SketchTool::Circle { center: None } => after == before && (
            next matches SketchTool::Circle { center: Some(c) } && c == click),
            SketchTool::Circle { center: Some(c) } => if far > 1real / 1000000real {
                &&& exists|p: PointId, id: EntityId| #[trigger]
                    is_drawn_circle(num, before, c, p, far, id, after)
                &&& next matches SketchTool::Circle { center: None }
            } else {
                next == tool && after == before
            },
        },
{
    match tool {
        SketchTool::Line { start: Some(s) } => {
            let a = (num(s.pos[0]), num(s.pos[1]));
            let b = (num(click.pos[0]), num(click.pos[1]));
            let apart = choose|apart: bool| #[trigger]
                finds_apart(eval, less, s.pos, click.pos, apart) && if apart {
                    exists|end: PointId| #[trigger]
                        draws_line(before, s, click, end, after) && next == (SketchTool::Line {
                            start: Some(PendingPoint { pos: click.pos, existing: Some(end) }),
                        })
                } else {
                    next == tool && after == before
                };
            let (limit, d) = choose|limit: T, d: T| #[trigger]
                call_ensures(less, (&limit, &d), apart) && is_reciprocal(
                    eval,
                    1_000_000_000_000,
                    limit,
                ) && computes(
                    eval,
                    |at: Reading<T>|
                        dist_sq(
                            (at.num)(s.pos[0]),
                            (at.num)(s.pos[1]),
                            (at.num)(click.pos[0]),
                            (at.num)(click.pos[1]),
                        ),
                    Seq::empty(),
                    d,
                );
            assert(num(limit) == 1real / 1000000000000real);
            assert(num(d) == dist_sq(a.0, a.1, b.0, b.1));
            lemma_square_of_gap(a.0, b.0);
            lemma_square_of_gap(a.1, b.1);
            if apart {
                let end = choose|end: PointId| #[trigger]
                    draws_line(before, s, click, end, after) && next == (SketchTool::Line {
                        start: Some(PendingPoint { pos: click.pos, existing: Some(end) }),
                    });
                let drawn = lemma_drawn_line(before, s, click, end, after);
                assert(is_drawn_line(before, s, click, (drawn.0, end), drawn.1, after));
            }
        },
        SketchTool::Circle { center: Some(c) } => {
            let (radius, wide) = choose|radius: T, wide: bool| #[trigger]
                finds_wide(eval, less, radius, wide) && #[trigger] is_distance(
                    eval,
                    c.pos,
                    mouse,
                    radius,
                ) && if wide {
                    draws_circle(before, c, radius, after) && next == (SketchTool::<T>::Circle {
                        center: None,
                    })
                } else {
                    next == tool && after == before
                };
            lemma_distance(num, eval, less, c.pos, mouse, radius, far);
            let limit = choose|limit: T| #[trigger]
                call_ensures(less, (&limit, &radius), wide) && is_reciprocal(eval, 1_000_000, limit);
            assert(num(limit) == 1real / 1000000real);
            if wide {
                let drawn = lemma_drawn_circle(num, before, c, radius, after);
                assert(is_drawn_circle(num, before, c, drawn.0, far, drawn.1, after));
            }
        },
        _ => {},
    }
}

proof fn lemma_square_of_gap(a: real, b: real)
    ensures
        (a - b) * (a - b) == (b - a) * (b - a),
{
    let d = a - b;
    assert(d * d == (-d) * (-d)) by (nonlinear_arith);
}

pub(crate) proof fn lemma_distance<T, E: Fn(&Expr<T>, &Vec<T>) -> T, L: Fn(&T, &T) -> bool>(
    num: spec_fn(T) -> real,
    eval: E,
    less: L,
    a: [T; 2],
    b: [T; 2],
    d: T,
    far: real,
)
    requires
        exact(num, eval, less),
        is_distance(eval, a, b, d),
        far >= 0real,
        far * far == dist_sq(num(a[0]), num(a[1]), num(b[0]), num(b[1])),
    ensures
        num(d) == far,
{
    let meaning = |at: Reading<T>|
        distance((at.num)(a[0]), (at.num)(a[1]), (at.num)(b[0]), (at.num)(b[1]));
    assert(computes(eval, meaning, Seq::empty(), d));
    assert(num(d) == meaning(reading(num, Seq::empty())));
    lemma_root_is(far, dist_sq(num(a[0]), num(a[1]), num(b[0]), num(b[1])));
}

/// A click without shift selects what was hit and nothing else. With shift it
/// turns what was hit over, and leaves all else as it was; nothing is ever
/// selected twice.
pub proof fn lemma_selection(
    before: Seq<Selected>,
    hit: Option<Selected>,
    shift: bool,
    after: Seq<Selected>,
)
    requires
        before.no_duplicates(),
        is_selection_after(before, hit, shift, after),
    ensures
        after.no_duplicates(),
        forall|item: Selected| #[trigger]
            after.contains(item) <==> if shift {
                before.contains(item) != (hit == Some(item))
            } else {
                hit == Some(item)
            },
{
    match hit {
        Some(item) => {
            if !shift {
                assert(after[0] == item);
            } else if before.contains(item) {
                let i = choose|i: int| #[trigger]
                    is_first_place(before, item, i) && after == before.remove(i);
                assert forall|other: Selected| #[trigger] after.contains(other)
                    <==> before.contains(other) && other != item by {
                    if after.contains(other) {
                        let j = choose|j: int| 0 <= j < after.len() && after[j] == other;
                        let k = if j < i {
                            j
                        } else {
                            j + 1
                        };
                        assert(before[k] == other);
                    }
                    if before.contains(other) && other != item {
                        let k = choose|k: int| 0 <= k < before.len() && before[k] == other;
                        let j = if k < i {
                            k
                        } else {
                            k - 1
                        };
                        assert(after[j] == other);
                    }
                }
            } else {
                assert forall|other: Selected| #[trigger] after.contains(other)
                    <==> before.contains(other) || other == item by {
                    if before.contains(other) {
                        let k = choose|k: int| 0 <= k < before.len() && before[k] == other;
                        assert(after[k] == other);
                    }
                    assert(after[before.len() as int] == item);
                }
            }
        },
        None => {},
    }
}

/// The delete key deletes all entities and dimensions that are selected, and no
/// other entity. What is left is as it was.
pub proof fn lemma_delete_key<T>(view: SketchView<T>, items: Seq<Selected>)
    ensures
        ({
            let after = without_selected(view, items);
            &&& forall|e: u64| #[trigger]
                after.entities.contains_key(e) <==> view.entities.contains_key(e)
                    && !items.contains(Selected::Entity(EntityId { raw: e }))
            &&& forall|e: u64| #[trigger]
                after.entities.contains_key(e) ==> after.entities[e] == view.entities[e]
            &&& forall|d: u64| #[trigger]
                after.dimensions.contains_key(d) ==> view.dimensions.contains_key(d)
                    && after.dimensions[d] == view.dimensions[d] && !items.contains(
                    Selected::Dimension(DimensionId { raw: d }),
                )
            &&& forall|c: u64| #[trigger]
                after.constraints.contains_key(c) ==> view.constraints.contains_key(c)
                    && after.constraints[c] == view.constraints[c]
            &&& forall|p: u64| #[trigger]
                after.points.contains_key(p) ==> view.points.contains_key(p) && after.points[p]
                    == view.points[p]
            &&& after.vars == view.vars
        }),
    decreases items.len(),
{
    if items.len() > 0 {
        let some = items.drop_last();
        let rest = without_selected(view, some);
        lemma_delete_key(view, some);
        assert forall|item: Selected| #[trigger] items.contains(item) <==> some.contains(item)
            || item == items.last() by {
            if some.contains(item) {
                let i = choose|i: int| 0 <= i < some.len() && some[i] == item;
                assert(items[i] == item);
            }
            if items.contains(item) {
                let i = choose|i: int| 0 <= i < items.len() && items[i] == item;
                if i < some.len() {
                    assert(some[i] == item);
                }
            }
            assert(items[items.len() - 1] == items.last());
        }
        if let Selected::Entity(id) = items.last() {
            assert(EntityId { raw: id.raw } == id);
            if rest.entities.contains_key(id.raw) {
                lemma_deletion(rest, id);
            }
        }
    }
}

/// Nothing but what is selected goes where only points and dimensions are
/// selected: a dimension goes with the constraint that drives it.
pub proof fn lemma_delete_dimension<T>(view: SketchView<T>, id: DimensionId)
    requires
        view.dimensions.contains_key(id.raw),
    ensures
        ({
            let after = without_selected(view, seq![Selected::Dimension(id)]);
            let driver = view.dimensions[id.raw].constraint.raw;
            &&& after.points == view.points
            &&& after.entities == view.entities
            &&& forall|c: u64| #[trigger]
                after.constraints.contains_key(c) <==> view.constraints.contains_key(c) && c
                    != driver
            &&& forall|d: u64| #[trigger]
                after.dimensions.contains_key(d) <==> view.dimensions.contains_key(d) && d
                    != id.raw
        }),
{
    let items = seq![Selected::Dimension(id)];
    assert(items.drop_last().len() == 0);
    assert(without_selected(view, items.drop_last()) == view);
    assert(items.last() == Selected::Dimension(id));
}

/// A label that is moved to a place is drawn at that place: the line of a
/// distance has its middle there, the label of a circle stands there. Nothing is
/// changed but where the label is. With exact arithmetic.
pub proof fn lemma_label_follows<T, E: Fn(&Expr<T>, &Vec<T>) -> T, L: Fn(&T, &T) -> bool>(
    num: spec_fn(T) -> real,
    eval: E,
    less: L,
    before: SketchView<T>,
    id: DimensionId,
    pos: [T; 2],
    after: SketchView<T>,
    layout: DimLayout<T>,
)
    requires
        exact(num, eval, less),
        moves_label(eval, before, id, pos, after),
        has_layout(before, id),
        is_layout(after, eval, less, id, layout),
    ensures
        match layout {
            DimLayout::Linear { a, b, da, db, .. } => {
                &&& num(da[0]) + num(db[0]) == 2real * num(pos[0])
                &&& num(da[1]) + num(db[1]) == 2real * num(pos[1])
                &&& num(db[0]) - num(da[0]) == num(b[0]) - num(a[0])
                &&& num(db[1]) - num(da[1]) == num(b[1]) - num(a[1])
            },
            DimLayout::Round { label, .. } => num(label[0]) == num(pos[0]) && num(label[1]) == num(
                pos[1],
            ),
        },
        after.vars == before.vars,
        after.points == before.points,
        after.entities == before.entities,
        after.constraints == before.constraints,
{
    let place = choose|place: Option<[T; 2]>| #[trigger]
        is_reference(before, eval, id, place) && match place {
            Some(reference) => exists|offset: [T; 2]| #[trigger]
                is_gap(eval, pos, reference, offset) && after == with_offset(before, id, offset),
            None => after == before,
        };
    let reference = place->Some_0;
    let offset = choose|offset: [T; 2]| #[trigger]
        is_gap(eval, pos, reference, offset) && after == with_offset(before, id, offset);
    lemma_place_gap(num, eval, less, pos, reference, offset);
    assert(after.dimensions[id.raw].offset == offset);
    match layout {
        DimLayout::Linear { a, b, da, db, .. } => {
            lemma_place_sum(num, eval, less, a, offset, da);
            lemma_place_sum(num, eval, less, b, offset, db);
            lemma_place_middle(num, eval, less, a, b, reference);
        },
        DimLayout::Round { center, label, .. } => {
            lemma_place_sum(num, eval, less, center, offset, label);
        },
    }
}

proof fn lemma_place_gap<T, E: Fn(&Expr<T>, &Vec<T>) -> T, L: Fn(&T, &T) -> bool>(
    num: spec_fn(T) -> real,
    eval: E,
    less: L,
    a: [T; 2],
    b: [T; 2],
    p: [T; 2],
)
    requires
        exact(num, eval, less),
        is_gap(eval, a, b, p),
    ensures
        num(p[0]) == num(a[0]) - num(b[0]),
        num(p[1]) == num(a[1]) - num(b[1]),
{
    let at = reading(num, Seq::empty());
    let x = |at: Reading<T>| (at.num)(a[0]) - (at.num)(b[0]);
    let y = |at: Reading<T>| (at.num)(a[1]) - (at.num)(b[1]);
    assert(computes(eval, x, Seq::empty(), p[0]) && computes(eval, y, Seq::empty(), p[1]));
    assert(num(p[0]) == x(at) && num(p[1]) == y(at));
}

pub(crate) proof fn lemma_place_sum<T, E: Fn(&Expr<T>, &Vec<T>) -> T, L: Fn(&T, &T) -> bool>(
    num: spec_fn(T) -> real,
    eval: E,
    less: L,
    a: [T; 2],
    b: [T; 2],
    p: [T; 2],
)
    requires
        exact(num, eval, less),
        is_sum(eval, a, b, p),
    ensures
        num(p[0]) == num(a[0]) + num(b[0]),
        num(p[1]) == num(a[1]) + num(b[1]),
{
    let at = reading(num, Seq::empty());
    let x = |at: Reading<T>| (at.num)(a[0]) + (at.num)(b[0]);
    let y = |at: Reading<T>| (at.num)(a[1]) + (at.num)(b[1]);
    assert(computes(eval, x, Seq::empty(), p[0]) && computes(eval, y, Seq::empty(), p[1]));
    assert(num(p[0]) == x(at) && num(p[1]) == y(at));
}

proof fn lemma_place_middle<T, E: Fn(&Expr<T>, &Vec<T>) -> T, L: Fn(&T, &T) -> bool>(
    num: spec_fn(T) -> real,
    eval: E,
    less: L,
    a: [T; 2],
    b: [T; 2],
    p: [T; 2],
)
    requires
        exact(num, eval, less),
        is_middle(eval, a, b, p),
    ensures
        2real * num(p[0]) == num(a[0]) + num(b[0]),
        2real * num(p[1]) == num(a[1]) + num(b[1]),
{
    let at = reading(num, Seq::empty());
    let x = |at: Reading<T>| ((at.num)(a[0]) + (at.num)(b[0])) * (1real / 2real);
    let y = |at: Reading<T>| ((at.num)(a[1]) + (at.num)(b[1])) * (1real / 2real);
    assert(computes(eval, x, Seq::empty(), p[0]) && computes(eval, y, Seq::empty(), p[1]));
    assert(num(p[0]) == x(at) && num(p[1]) == y(at));
}

/// What a click selects: the nearest point if one is within the limit; else the
/// dimension under the cursor; else the nearest entity within the limit, if
/// there is one. With exact arithmetic; `near` and `far` give how far each point
/// and each entity is off.
pub proof fn lemma_pick<
    T: Copy,
    E: Fn(&Expr<T>, &Vec<T>) -> T,
    M: Fn(&T, &T) -> bool,
    Q: Fn(&T) -> i64,
>(
    num: spec_fn(T) -> real,
    sketch: Sketch<T>,
    mouse: [T; 2],
    tol: T,
    dim_hit: Option<DimensionId>,
    eval: E,
    order: Order<M, Q>,
    hit: Option<Selected>,
    near: spec_fn(u64) -> real,
    far: spec_fn(u64) -> real,
)
    requires
        sketch.wf(),
        exact_eval(num, eval),
        exact_order(num, order),
        is_picked(sketch@, mouse, tol, dim_hit, eval, order, hit),
        forall|p: u64| #[trigger]
            sketch@.points.contains_key(p) ==> is_apart(
                spot_of(num, sketch@, PointId { raw: p }),
                (num(mouse[0]), num(mouse[1])),
                near(p),
            ),
        forall|e: u64| #[trigger]
            sketch@.entities.contains_key(e) ==> is_off(
                num,
                sketch@,
                sketch@.entities[e],
                (num(mouse[0]), num(mouse[1])),
                far(e),
            ),
    ensures
        match hit {
            Some(Selected::Point(id)) => {
                &&& sketch@.points.contains_key(id.raw)
                &&& near(id.raw) <= num(tol)
                &&& forall|p: u64| #[trigger]
                    sketch@.points.contains_key(p) ==> near(id.raw) <= near(p)
            },
            Some(Selected::Dimension(id)) => {
                &&& dim_hit == Some(id)
                &&& forall|p: u64| #[trigger]
                    sketch@.points.contains_key(p) ==> num(tol) < near(p)
            },
            Some(Selected::Entity(id)) => {
                &&& dim_hit is None
                &&& forall|p: u64| #[trigger]
                    sketch@.points.contains_key(p) ==> num(tol) < near(p)
                &&& sketch@.entities.contains_key(id.raw)
                &&& far(id.raw) <= num(tol)
                &&& forall|e: u64| #[trigger]
                    sketch@.entities.contains_key(e) ==> far(id.raw) <= far(e)
            },
            None => {
                &&& dim_hit is None
                &&& forall|p: u64| #[trigger]
                    sketch@.points.contains_key(p) ==> num(tol) < near(p)
                &&& forall|e: u64| #[trigger]
                    sketch@.entities.contains_key(e) ==> num(tol) < far(e)
            },
        },
{
    let view = sketch@;
    let there = choose|there: Option<(PointId, [T; 2])>| #[trigger]
        is_nearest(view, mouse, tol, eval, order, there) && match there {
            Some((p, _)) => hit == Some(Selected::Point(p)),
            None => match dim_hit {
                Some(d) => hit == Some(Selected::Dimension(d)),
                None => exists|found: Option<EntityId>| #[trigger]
                    is_hit(view, mouse, tol, eval, order, found) && hit == (match found {
                        Some(e) => Some(Selected::Entity(e)),
                        None => None::<Selected>,
                    }),
            },
        };
    lemma_nearest_point(num, sketch, mouse, tol, eval, order, there, near);
    if there is None && dim_hit is None {
        let found = choose|found: Option<EntityId>| #[trigger]
            is_hit(view, mouse, tol, eval, order, found) && hit == (match found {
                Some(e) => Some(Selected::Entity(e)),
                None => None::<Selected>,
            });
        lemma_nearest_entity(num, sketch, mouse, tol, eval, order, found, far);
    }
}

/// The escape key gives up what was begun: first the points that were clicked,
/// with the same tool kept; then the tool and the selection. The sketch stays.
pub proof fn lemma_escape<T>(before: SketchSession<T>, after: SketchSession<T>)
    requires
        escapes(before, after),
    ensures
        after.sketch == before.sketch,
        after.plane == before.plane,
        after.editing == before.editing,
        match before.tool {
            SketchTool::Line { start: Some(_) } => (
            after.tool matches SketchTool::Line { start: None }) && after.selection
                == before.selection,
            SketchTool::Circle { center: Some(_) } => (
            after.tool matches SketchTool::Circle { center: None }) && after.selection
                == before.selection,
            _ => after.tool is Select && after.selection@.len() == 0,
        },
{
}

/// Something with the name is offered, and it does that.
pub open spec fn is_offered<T>(items: Seq<ActionItem<T>>, name: Seq<char>, action: SketchAction<T>) -> bool {
    exists|i: int|
        0 <= i < items.len() && (#[trigger] items[i]).label@ == name && items[i].action == action
}

/// What is offered for a selection fits to what is selected: directions for one
/// line, how they lie to each other for two lines, diameter and radius for a
/// circle, coincidence and distance for two points. The value that is offered
/// for a dimension is what it measures now. With exact arithmetic; `far` is how
/// far two selected points are apart.
pub proof fn lemma_offers<T, E: Fn(&Expr<T>, &Vec<T>) -> T, L: Fn(&T, &T) -> bool>(
    num: spec_fn(T) -> real,
    eval: E,
    less: L,
    view: SketchView<T>,
    selection: Seq<Selected>,
    items: Seq<ActionItem<T>>,
    far: real,
)
    requires
        exact(num, eval, less),
        are_actions(view, selection, eval, items),
        far >= 0real,
        selection.len() == 2 && selection[0] is Point && selection[1] is Point ==> {
            let (a, b) = (
                spot_of(num, view, selection[0]->Point_0),
                spot_of(num, view, selection[1]->Point_0),
            );
            far * far == (a.0 - b.0) * (a.0 - b.0) + (a.1 - b.1) * (a.1 - b.1)
        },
    ensures
        selection.len() == 1 && (selection[0] matches Selected::Entity(e)
            && view.entities.contains_key(e.raw) && view.entities[e.raw] is Line) ==> {
            let e = selection[0]->Entity_0;
            &&& items.len() == 2
            &&& is_offered(
                items,
                "Horizontal"@,
                SketchAction::Constraint(Constraint::Horizontal(e)),
            )
            &&& is_offered(items, "Vertikal"@, SketchAction::Constraint(Constraint::Vertical(e)))
        },
        selection.len() == 1 && (selection[0] matches Selected::Entity(e)
            && view.entities.contains_key(e.raw) && view.entities[e.raw] is Circle) ==> {
            let e = selection[0]->Entity_0;
            let r = view.vars[view.entities[e.raw]->radius.index as int];
            &&& items.len() == 2
            &&& is_offered(
                items,
                "R bemaßen"@,
                SketchAction::Dimension(DimensionTarget::Radius(e), r),
            )
            &&& exists|d: T|
                num(d) == num(r) + num(r) && #[trigger] is_offered(
                    items,
                    "⌀ bemaßen"@,
                    SketchAction::Dimension(DimensionTarget::Diameter(e), d),
                )
        },
        selection.len() == 2 && (selection[0] matches Selected::Entity(a)
            && view.entities.contains_key(a.raw) && view.entities[a.raw] is Line) && (
        selection[1] matches Selected::Entity(b) && view.entities.contains_key(b.raw)
            && view.entities[b.raw] is Line) ==> {
            let (a, b) = (selection[0]->Entity_0, selection[1]->Entity_0);
            &&& items.len() == 3
            &&& is_offered(
                items,
                "Parallel"@,
                SketchAction::Constraint(Constraint::Parallel(a, b)),
            )
            &&& is_offered(
                items,
                "Senkrecht"@,
                SketchAction::Constraint(Constraint::Perpendicular(a, b)),
            )
            &&& is_offered(
                items,
                "Gleich lang"@,
                SketchAction::Constraint(Constraint::Equal(a, b)),
            )
        },
        selection.len() == 2 && selection[0] is Point && selection[1] is Point ==> {
            let (p, q) = (selection[0]->Point_0, selection[1]->Point_0);
            &&& items.len() == 2
            &&& is_offered(
                items,
                "Koinzident"@,
                SketchAction::Constraint(Constraint::Coincident(p, q)),
            )
            &&& exists|d: T|
                num(d) == far && #[trigger] is_offered(
                    items,
                    "Abstand bemaßen"@,
                    SketchAction::Dimension(DimensionTarget::Linear(p, q), d),
                )
        },
        selection.len() != 1 && selection.len() != 2 ==> items.len() == 0,
        selection.len() == 1 && selection[0] !is Entity ==> items.len() == 0,
        selection.len() == 2 && selection[0] is Point && selection[1] !is Point ==> items.len()
            == 0,
        selection.len() == 2 && selection[0] !is Point && selection[1] is Point ==> items.len()
            == 0,
        selection.len() == 2 && (selection[0] is Dimension || selection[1] is Dimension)
            ==> items.len() == 0,
{
    if selection.len() == 1 && selection[0] is Entity {
        let e = selection[0]->Entity_0;
        if is_circle(view, e) && !is_line(view, e) {
            let r = view.vars[view.entities[e.raw]->radius.index as int];
            let d = choose|d: T| #[trigger]
                is_double(eval, r, d) && {
                    &&& items.len() == 2
                    &&& is_item(
                        items[0],
                        "⌀ bemaßen"@,
                        SketchAction::Dimension(DimensionTarget::Diameter(e), d),
                    )
                    &&& is_item(
                        items[1],
                        "R bemaßen"@,
                        SketchAction::Dimension(DimensionTarget::Radius(e), r),
                    )
                };
            let meaning = |at: Reading<T>| 2real * (at.num)(r);
            assert(computes(eval, meaning, Seq::empty(), d));
            assert(num(d) == meaning(reading(num, Seq::empty())));
            assert(items[0].label@ == "⌀ bemaßen"@ && items[1].label@ == "R bemaßen"@);
            assert(is_offered(
                items,
                "⌀ bemaßen"@,
                SketchAction::Dimension(DimensionTarget::Diameter(e), d),
            ));
        } else if is_line(view, e) {
            assert(items[0].label@ == "Horizontal"@ && items[1].label@ == "Vertikal"@);
        }
    } else if selection.len() == 2 && selection[0] is Point && selection[1] is Point {
        let (p, q) = (selection[0]->Point_0, selection[1]->Point_0);
        let d = choose|d: T| #[trigger]
            is_distance(eval, view.position(p), view.position(q), d) && {
                &&& items.len() == 2
                &&& is_item(
                    items[0],
                    "Koinzident"@,
                    SketchAction::Constraint(Constraint::Coincident(p, q)),
                )
                &&& is_item(
                    items[1],
                    "Abstand bemaßen"@,
                    SketchAction::Dimension(DimensionTarget::Linear(p, q), d),
                )
            };
        lemma_distance(num, eval, less, view.position(p), view.position(q), d, far);
        assert(items[0].label@ == "Koinzident"@ && items[1].label@ == "Abstand bemaßen"@);
        assert(is_offered(
            items,
            "Abstand bemaßen"@,
            SketchAction::Dimension(DimensionTarget::Linear(p, q), d),
        ));
    } else if selection.len() == 2 && selection[0] is Entity && selection[1] is Entity {
        let (a, b) = (selection[0]->Entity_0, selection[1]->Entity_0);
        if is_line(view, a) && is_line(view, b) {
            assert(items[0].label@ == "Parallel"@);
            assert(items[1].label@ == "Senkrecht"@);
            assert(items[2].label@ == "Gleich lang"@);
        }
    }
}

/// An action adds what it says, and all that was there stays. Where that names
/// anything that is missing or of another kind, nothing happens.
pub proof fn lemma_action<
    T,
    E: Fn(&Expr<T>, &Vec<T>) -> T,
    L: Fn(&T, &T) -> bool,
    F: Fn(&Vec<Vec<T>>) -> Option<Factors<T>>,
>(
    ops: SolverOps<E, L, F>,
    before: SketchView<T>,
    action: SketchAction<T>,
    after: SketchView<T>,
    result: Option<SolveResult<T>>,
)
    requires
        acts(ops, before, action, after, result),
    ensures
        result is None ==> after == before,
        after.points == before.points,
        after.entities == before.entities,
        forall|k: u64| #[trigger]
            before.constraints.contains_key(k) ==> after.constraints.contains_key(k)
                && after.constraints[k] == before.constraints[k],
        forall|d: u64| #[trigger]
            before.dimensions.contains_key(d) ==> after.dimensions.contains_key(d)
                && after.dimensions[d] == before.dimensions[d],
        match action {
            SketchAction::Constraint(c) => {
                &&& result is Some <==> names_rightly(before, c)
                &&& result is Some ==> after.dimensions == before.dimensions && exists|k: u64|
                    !before.constraints.contains_key(k) && #[trigger] after.constraints.contains_key(
                        k,
                    ) && after.constraints[k] == c
            },
            SketchAction::Dimension(target, value) => {
                &&& result is Some <==> match target {
                    DimensionTarget::Linear(p, q) => before.points.contains_key(p.raw)
                        && before.points.contains_key(q.raw),
                    DimensionTarget::Radius(e) | DimensionTarget::Diameter(e) => {
                        &&& before.entities.contains_key(e.raw)
                        &&& before.entities[e.raw] is Circle
                    },
                }
                &&& result is Some ==> exists|d: u64|
                    {
                        &&& !before.dimensions.contains_key(d)
                        &&& #[trigger] after.dimensions.contains_key(d)
                        &&& !before.constraints.contains_key(after.dimensions[d].constraint.raw)
                        &&& after.constraints.contains_key(after.dimensions[d].constraint.raw)
                        &&& match (target, after.constraints[after.dimensions[d].constraint.raw]) {
                            (DimensionTarget::Linear(p, q), Constraint::Distance(a, b, _)) => a == p
                                && b == q && after.dimensions[d].kind is Linear,
                            (DimensionTarget::Radius(e), Constraint::Radius(c, _)) => c == e
                                && after.dimensions[d].kind is Radius,
                            (DimensionTarget::Diameter(e), Constraint::Radius(c, _)) => c == e
                                && after.dimensions[d].kind is Diameter,
                            _ => false,
                        }
                    }
            },
        },
{
    match action {
        SketchAction::Constraint(c) => {
            lemma_refusal(before, c);
            if let Some(r) = result {
                let id = choose|id: ConstraintId|
                    !before.constraints.contains_key(id.raw) && solves(
                        ops,
                        #[trigger] with_constraint(before, id, c),
                        Seq::empty(),
                        r,
                        after,
                    );
                let mid = with_constraint(before, id, c);
                lemma_solving_keeps_structure(ops, mid, Seq::empty(), r, after);
                assert(after.constraints.contains_key(id.raw));
            }
        },
        SketchAction::Dimension(target, value) => {
            lemma_refusal(before, driver_of(target, value));
            if let Some(r) = result {
                let (id, driver, stored, offset) = choose|
                    id: DimensionId,
                    driver: ConstraintId,
                    stored: T,
                    offset: [T; 2],
                |
                    {
                        &&& is_default_offset(before, ops.eval, target, offset)
                        &&& is_stored_value(ops.eval, kind_of_target(target), value, stored)
                        &&& !before.dimensions.contains_key(id.raw)
                        &&& !before.constraints.contains_key(driver.raw)
                        &&& solves(
                            ops,
                            #[trigger] with_dimension(before, id, driver, target, stored, offset),
                            Seq::empty(),
                            r,
                            after,
                        )
                    };
                let mid = with_dimension(before, id, driver, target, stored, offset);
                lemma_solving_keeps_structure(ops, mid, Seq::empty(), r, after);
                assert(after.dimensions.contains_key(id.raw));
            }
        },
    }
}

/// A tool that is taken is that tool, with nothing clicked so far.
pub proof fn lemma_fresh_tool<T>(kind: ToolKind)
    ensures
        SketchTool::<T>::fresh(kind).kind_spec() == kind,
        SketchTool::<T>::fresh(kind).pending() is None,
        match kind {
            ToolKind::Select => SketchTool::<T>::fresh(kind) is Select,
            ToolKind::Line => SketchTool::<T>::fresh(kind) is Line,
            ToolKind::Circle => SketchTool::<T>::fresh(kind) is Circle,
        },
{
}

/// A click with the selecting tool changes the selection only; a click with
/// another tool changes no selection. No click solves or drags.
pub proof fn lemma_click_keeps<
    T,
    E: Fn(&Expr<T>, &Vec<T>) -> T,
    L: Fn(&T, &T) -> bool,
    M: Fn(&T, &T) -> bool,
    Q: Fn(&T) -> i64,
>(
    eval: E,
    less: L,
    order: Order<M, Q>,
    before: SketchSession<T>,
    mouse: [T; 2],
    snap: Option<(PointId, [T; 2])>,
    dim_hit: Option<DimensionId>,
    select_tol: T,
    shift: bool,
    after: SketchSession<T>,
)
    requires
        clicks(eval, less, order, before, mouse, snap, dim_hit, select_tol, shift, after),
    ensures
        before.tool is Select ==> after.sketch == before.sketch && after.tool is Select,
        before.tool !is Select ==> after.selection == before.selection && after.tool.kind_spec()
            == before.tool.kind_spec(),
        after.plane == before.plane,
        after.editing == before.editing,
        after.last_solve == before.last_solve,
        after.dragging == before.dragging,
        after.dragging_dim == before.dragging_dim,
{
}

/// A drag grabs the nearest point if one is within reach, else the dimension
/// under the cursor, and changes nothing else. Only the selecting tool drags.
/// With exact arithmetic; `near` gives how far each point is off.
pub proof fn lemma_drag_begins<
    T: Copy,
    E: Fn(&Expr<T>, &Vec<T>) -> T,
    M: Fn(&T, &T) -> bool,
    Q: Fn(&T) -> i64,
>(
    num: spec_fn(T) -> real,
    eval: E,
    order: Order<M, Q>,
    before: SketchSession<T>,
    mouse: [T; 2],
    radius: T,
    dim_hit: Option<DimensionId>,
    after: SketchSession<T>,
    near: spec_fn(u64) -> real,
)
    requires
        before.sketch.wf(),
        exact_eval(num, eval),
        exact_order(num, order),
        begins_drag(eval, order, before, Some(mouse), radius, dim_hit, after),
        forall|p: u64| #[trigger]
            before.sketch@.points.contains_key(p) ==> is_apart(
                spot_of(num, before.sketch@, PointId { raw: p }),
                (num(mouse[0]), num(mouse[1])),
                near(p),
            ),
    ensures
        after.sketch == before.sketch,
        after.tool == before.tool,
        after.selection == before.selection,
        before.tool !is Select ==> after == before,
        before.tool is Select && (exists|p: u64|
            #[trigger] before.sketch@.points.contains_key(p) && near(p) <= num(radius)) ==> {
            &&& after.dragging matches Some(id)
            &&& before.sketch@.points.contains_key(id.raw)
            &&& near(id.raw) <= num(radius)
            &&& forall|p: u64| #[trigger]
                before.sketch@.points.contains_key(p) ==> near(id.raw) <= near(p)
            &&& after.dragging_dim == before.dragging_dim
        },
        before.tool is Select && (forall|p: u64| #[trigger]
            before.sketch@.points.contains_key(p) ==> num(radius) < near(p))
            ==> after.dragging_dim == dim_hit && after.dragging == before.dragging,
{
    if before.tool is Select {
        let there = choose|there: Option<(PointId, [T; 2])>| #[trigger]
            is_grabbed(before.sketch@, Some(mouse), radius, eval, order, there) && after == (
            match there {
                Some((id, _)) => SketchSession { dragging: Some(id), ..before },
                None => SketchSession { dragging_dim: dim_hit, ..before },
            });
        lemma_nearest_point(num, before.sketch, mouse, radius, eval, order, there, near);
    }
}

/// While a point is dragged, all constraints stay met and the point follows the
/// cursor, as far as the sketch can be solved so. With exact arithmetic.
pub proof fn lemma_drag_follows<
    T: Copy,
    E: Fn(&Expr<T>, &Vec<T>) -> T,
    L: Fn(&T, &T) -> bool,
    F: Fn(&Vec<Vec<T>>) -> Option<Factors<T>>,
>(
    num: spec_fn(T) -> real,
    ops: SolverOps<E, L, F>,
    before: SketchSession<T>,
    pos: [T; 2],
    after: SketchSession<T>,
    point: PointId,
    iterations: usize,
)
    requires
        exact(num, ops.eval, ops.less),
        before.wf(),
        after.wf(),
        drags_to(ops, before, pos, after),
        before.tool is Select,
        before.dragging == Some(point),
        before.sketch@.points.contains_key(point.raw),
        after.last_solve == Some(SolveResult::<T>::Solved { iterations }),
    ensures
        ({
            let there = spot_of(num, after.sketch@, point);
            &&& magnitude(there.0 - num(pos[0])) < 4real / 1000000000real
            &&& magnitude(there.1 - num(pos[1])) < 4real / 1000000000real
        }),
        forall|k: u64| #[trigger]
            before.sketch@.constraints.contains_key(k) && names_rightly(
                before.sketch@,
                before.sketch@.constraints[k],
            ) ==> is_met_within(
                num,
                after.sketch@,
                before.sketch@.constraints[k],
                1real / 1000000000real,
            ),
        after.dragging == before.dragging,
        after.selection == before.selection,
{
    lemma_drag_meets_constraints(
        num,
        ops,
        before.sketch,
        point,
        pos,
        iterations,
        after.sketch,
    );
}

/// The end of a drag lets go, and leaves a sketch that meets its constraints, as
/// far as it can be solved. With exact arithmetic.
pub proof fn lemma_drag_ends<
    T: Copy,
    E: Fn(&Expr<T>, &Vec<T>) -> T,
    L: Fn(&T, &T) -> bool,
    F: Fn(&Vec<Vec<T>>) -> Option<Factors<T>>,
>(
    num: spec_fn(T) -> real,
    ops: SolverOps<E, L, F>,
    before: SketchSession<T>,
    after: SketchSession<T>,
    iterations: usize,
)
    requires
        exact(num, ops.eval, ops.less),
        before.wf(),
        after.wf(),
        ends_drag(ops, before, after),
        before.tool is Select,
    ensures
        after.dragging is None,
        after.dragging_dim is None,
        after.selection == before.selection,
        before.dragging is None ==> after.sketch == before.sketch,
        before.dragging is Some && after.last_solve == Some(
            SolveResult::<T>::Solved { iterations },
        ) ==> forall|k: u64| #[trigger]
            before.sketch@.constraints.contains_key(k) && names_rightly(
                before.sketch@,
                before.sketch@.constraints[k],
            ) ==> is_met_within(
                num,
                after.sketch@,
                before.sketch@.constraints[k],
                1real / 1000000000real,
            ),
{
    if before.dragging is Some && after.last_solve == Some(
        SolveResult::<T>::Solved { iterations },
    ) {
        lemma_solved_meets_constraints(num, ops, before.sketch, iterations, after.sketch);
    }
}

/// The cursor snaps to the nearest point within its reach, with a drawing tool
/// only. With exact arithmetic; `near` gives how far each point is off.
pub proof fn lemma_snap<
    T: Copy,
    E: Fn(&Expr<T>, &Vec<T>) -> T,
    L: Fn(&T, &T) -> bool,
    M: Fn(&T, &T) -> bool,
    Q: Fn(&T) -> i64,
    W: Fn(&DimLayout<T>) -> T,
>(
    num: spec_fn(T) -> real,
    eval: E,
    less: L,
    order: Order<M, Q>,
    dim_distance: W,
    session: SketchSession<T>,
    input: ViewportInput<T>,
    mouse: [T; 2],
    hover: Hover<T>,
    near: spec_fn(u64) -> real,
)
    requires
        session.sketch.wf(),
        exact_eval(num, eval),
        exact_order(num, order),
        is_hover(eval, less, order, dim_distance, session, input, hover),
        input.mouse == Some(mouse),
        forall|p: u64| #[trigger]
            session.sketch@.points.contains_key(p) ==> is_apart(
                spot_of(num, session.sketch@, PointId { raw: p }),
                (num(mouse[0]), num(mouse[1])),
                near(p),
            ),
    ensures
        session.tool is Select ==> hover.snap is None,
        hover.snap matches Some((id, place)) ==> {
            &&& session.sketch@.points.contains_key(id.raw)
            &&& (num(place[0]), num(place[1])) == spot_of(num, session.sketch@, id)
            &&& near(id.raw) <= num(input.snap_radius)
            &&& forall|p: u64| #[trigger]
                session.sketch@.points.contains_key(p) ==> near(id.raw) <= near(p)
        },
        session.tool !is Select && hover.snap is None ==> forall|p: u64| #[trigger]
            session.sketch@.points.contains_key(p) ==> num(input.snap_radius) < near(p),
        is_dimension_at(
            session.sketch@,
            input.dim_tol,
            eval,
            less,
            dim_distance,
            order,
            hover.dim_hit,
        ),
{
    if session.tool !is Select {
        lemma_nearest_point(
            num,
            session.sketch,
            mouse,
            input.snap_radius,
            eval,
            order,
            hover.snap,
            near,
        );
    }
}

/// A frame in which one thing happens does that thing. A frame in which nothing
/// happens changes nothing, and so does a click or a drag without a cursor.
pub proof fn lemma_frame<
    T,
    E: Fn(&Expr<T>, &Vec<T>) -> T,
    L: Fn(&T, &T) -> bool,
    F: Fn(&Vec<Vec<T>>) -> Option<Factors<T>>,
    M: Fn(&T, &T) -> bool,
    Q: Fn(&T) -> i64,
>(
    ops: SolverOps<E, L, F>,
    order: Order<M, Q>,
    input: ViewportInput<T>,
    hover: Hover<T>,
    steps: Seq<SketchSession<T>>,
)
    requires
        takes_input(ops, order, input, hover, steps),
    ensures
        ({
            let (before, after) = (steps[0], steps[6]);
            let drags = input.drag_started || input.dragged || input.drag_stopped;
            let keys = input.escape || input.delete;
            &&& !drags && !keys && (!input.clicked || input.mouse is None) ==> after == before
            &&& !drags && !keys && input.clicked ==> (input.mouse matches Some(pos) ==> clicks(
                ops.eval,
                ops.less,
                order,
                before,
                pos,
                hover.snap,
                hover.dim_hit,
                input.select_tol,
                input.shift,
                after,
            ))
            &&& !input.clicked && !keys && input.drag_started && !input.dragged
                && !input.drag_stopped ==> begins_drag(
                ops.eval,
                order,
                before,
                input.mouse,
                input.snap_radius,
                hover.dim_hit,
                after,
            )
            &&& !input.clicked && !keys && !input.drag_started && input.dragged
                && !input.drag_stopped ==> match input.mouse {
                Some(pos) => drags_to(ops, before, pos, after),
                None => after == before,
            }
            &&& !input.clicked && !keys && !input.drag_started && !input.dragged
                && input.drag_stopped ==> ends_drag(ops, before, after)
            &&& !input.clicked && !drags && input.escape && !input.delete ==> escapes(before, after)
            &&& !input.clicked && !drags && !input.escape && input.delete ==> deletes(before, after)
        }),
{
}

/// After an action nothing is selected, and the session knows how solving ended;
/// a refused action leaves all as it was. The tool and the plane stay.
pub proof fn lemma_acted<
    T,
    E: Fn(&Expr<T>, &Vec<T>) -> T,
    L: Fn(&T, &T) -> bool,
    F: Fn(&Vec<Vec<T>>) -> Option<Factors<T>>,
>(
    ops: SolverOps<E, L, F>,
    before: SketchSession<T>,
    c: Constraint<T>,
    after: SketchSession<T>,
)
    requires
        is_acted(ops, before, SketchAction::Constraint(c), after),
    ensures
        after.tool == before.tool,
        after.plane == before.plane,
        after.editing == before.editing,
        names_rightly(before.sketch@, c) ==> {
            &&& after.selection@.len() == 0
            &&& after.last_solve is Some
            &&& exists|k: u64|
                !before.sketch@.constraints.contains_key(k)
                    && #[trigger] after.sketch@.constraints.contains_key(k)
                    && after.sketch@.constraints[k] == c
        },
        !names_rightly(before.sketch@, c) ==> {
            &&& after.selection == before.selection
            &&& after.last_solve == before.last_solve
            &&& after.sketch@ == before.sketch@
        },
{
    let action = SketchAction::Constraint(c);
    let result = choose|result: Option<SolveResult<T>>| #[trigger]
        acts(ops, before.sketch@, action, after.sketch@, result) && (match result {
            Some(r) => after.last_solve == Some(r) && after.selection@.len() == 0,
            None => after.last_solve == before.last_solve && after.selection == before.selection,
        });
    lemma_action(ops, before.sketch@, action, after.sketch@, result);
}

} // verus!
