//! Laws of drawing: what is deleted with what, which constraints are refused,
//! and what dimensions do.
use vstd::prelude::*;

use crate::arith::computes;
use crate::constraint::{Constraint, ConstraintError};
use crate::dimension::{
    DimensionKind, DimensionTarget, adds_dimension, driver_value, is_shown_value, is_stored_value,
    with_dimension, with_stored,
};
use crate::expr::{Expr, Reading, magnitude};
use crate::ids::{ConstraintId, DimensionId, EntityId, PointId};
use crate::laws::meshes::exact_eval;
use crate::laws::solving::{lemma_solved_meets_constraints, names_rightly, spot_of};
use crate::query::{ConstraintRef, kind_spec, referring, refs_spec};
use crate::sketch::{
    Sketch, SketchEntity, SketchView, attached, constraint_check, is_referenced,
};
use crate::slots::{slot_index, slot_order};
use crate::solver::{Factors, SolveResult, SolverOps, exact, reading, solves};

verus! {

/// The entity begins, ends or has its centre at the point.
pub open spec fn stands_on(entity: SketchEntity, p: u64) -> bool {
    match entity {
        SketchEntity::Line { p1, p2 } => p1.raw == p || p2.raw == p,
        SketchEntity::Circle { center, .. } => center.raw == p,
    }
}

/// Some entity begins, ends or has its centre at the point.
pub open spec fn is_used<T>(view: SketchView<T>, p: u64) -> bool {
    exists|e: u64| #[trigger] view.entities.contains_key(e) && stands_on(view.entities[e], p)
}

/// Deleting an entity takes with it the points that only it stood on, the
/// constraints that named any of this, and the dimensions of those constraints,
/// and nothing else. All that is left stays as it was, and every constraint and
/// dimension that is left still holds on to something.
pub proof fn lemma_deletion<T>(view: SketchView<T>, id: EntityId)
    requires
        view.entities.contains_key(id.raw),
    ensures
        ({
            let after = view.without_entity(id);
            let gone = view.entities[id.raw];
            &&& after.vars == view.vars
            &&& !after.entities.contains_key(id.raw)
            &&& forall|e: u64| #[trigger]
                after.entities.contains_key(e) <==> view.entities.contains_key(e) && e != id.raw
            &&& forall|e: u64| #[trigger]
                after.entities.contains_key(e) ==> after.entities[e] == view.entities[e]
            &&& forall|p: u64| #[trigger]
                after.points.contains_key(p) <==> view.points.contains_key(p) && (!stands_on(
                    gone,
                    p,
                ) || is_used(after, p))
            &&& forall|p: u64| #[trigger]
                after.points.contains_key(p) ==> after.points[p] == view.points[p]
            &&& forall|c: u64| #[trigger]
                after.constraints.contains_key(c) <==> view.constraints.contains_key(c)
                    && names_rightly(after, view.constraints[c])
            &&& forall|c: u64| #[trigger]
                after.constraints.contains_key(c) ==> after.constraints[c] == view.constraints[c]
            &&& forall|d: u64| #[trigger]
                after.dimensions.contains_key(d) <==> view.dimensions.contains_key(d)
                    && after.constraints.contains_key(view.dimensions[d].constraint.raw)
            &&& forall|d: u64| #[trigger]
                after.dimensions.contains_key(d) ==> after.dimensions[d] == view.dimensions[d]
        }),
{
    let after = view.without_entity(id);
    let gone = view.entities[id.raw];
    let rest = SketchView { entities: view.entities.remove(id.raw), ..view };
    assert(after.entities == rest.entities);
    assert forall|p: PointId| is_used(after, p.raw) == is_referenced(rest.entities, p) by {
        assert forall|e: SketchEntity| stands_on(e, p.raw) == attached(e, p) by {}
        if is_used(after, p.raw) {
            let e = choose|e: u64| #[trigger]
                after.entities.contains_key(e) && stands_on(after.entities[e], p.raw);
            assert(rest.entities.contains_key(e) && attached(rest.entities[e], p));
        }
        if is_referenced(rest.entities, p) {
            let e = choose|e: u64| #[trigger]
                rest.entities.contains_key(e) && attached(rest.entities[e], p);
            assert(after.entities.contains_key(e) && stands_on(after.entities[e], p.raw));
        }
    }
    assert forall|p: u64| #[trigger] after.points.contains_key(p) <==> view.points.contains_key(p)
        && (!stands_on(gone, p) || is_used(after, p)) by {
        assert(is_used(after, p) == is_referenced(rest.entities, PointId { raw: p }));
        match gone {
            SketchEntity::Line { p1, p2 } => {
                assert(is_used(after, p1.raw) == is_referenced(rest.entities, p1));
                assert(is_used(after, p2.raw) == is_referenced(rest.entities, p2));
            },
            SketchEntity::Circle { center, .. } => {
                assert(is_used(after, center.raw) == is_referenced(rest.entities, center));
            },
        }
    }
    assert forall|c: u64| #[trigger] after.constraints.contains_key(c) <==> view.constraints.contains_key(c)
        && names_rightly(after, view.constraints[c]) by {
        if view.constraints.contains_key(c) {
            lemma_refusal(after, view.constraints[c]);
        }
    }
}

/// Deleting a constraint takes the dimensions that it drives with it, and
/// nothing else.
pub proof fn lemma_constraint_deletion<T>(view: SketchView<T>, id: ConstraintId)
    ensures
        ({
            let after = view.without_constraint(id);
            &&& after.vars == view.vars
            &&& after.points == view.points
            &&& after.entities == view.entities
            &&& forall|c: u64| #[trigger]
                after.constraints.contains_key(c) <==> view.constraints.contains_key(c) && c
                    != id.raw
            &&& forall|c: u64| #[trigger]
                after.constraints.contains_key(c) ==> after.constraints[c] == view.constraints[c]
            &&& forall|d: u64| #[trigger]
                after.dimensions.contains_key(d) <==> view.dimensions.contains_key(d)
                    && view.dimensions[d].constraint != id && view.constraints.contains_key(
                    view.dimensions[d].constraint.raw,
                )
            &&& forall|d: u64| #[trigger]
                after.dimensions.contains_key(d) ==> after.dimensions[d] == view.dimensions[d]
        }),
{
}

/// What a constraint lacks: a reference that does not exist.
pub open spec fn names_nothing<T>(view: SketchView<T>, c: Constraint<T>) -> bool {
    let point = |p: PointId| view.points.contains_key(p.raw);
    let entity = |e: EntityId| view.entities.contains_key(e.raw);
    match c {
        Constraint::Coincident(p, q) | Constraint::Distance(p, q, _) => !point(p) || !point(q),
        Constraint::Horizontal(e) | Constraint::Vertical(e) | Constraint::Radius(e, _) => !entity(
            e,
        ),
        Constraint::Parallel(l, m)
        | Constraint::Perpendicular(l, m)
        | Constraint::Equal(l, m) => !entity(l) || !entity(m),
    }
}

/// A constraint is accepted exactly when all that it names exists and is of the
/// right kind. It is refused as unknown only where something does not exist, as
/// no line only where it is about lines and names a circle, and as no circle
/// only where it is about a circle and names a line.
pub proof fn lemma_refusal<T>(view: SketchView<T>, c: Constraint<T>)
    ensures
        ({
            let check = constraint_check(view.points, view.entities, c);
            &&& check is Ok <==> names_rightly(view, c)
            &&& check == Err::<(), ConstraintError>(ConstraintError::UnknownRef) ==> names_nothing(
                view,
                c,
            )
            &&& check == Err::<(), ConstraintError>(ConstraintError::NotALine) ==> match c {
                Constraint::Horizontal(l) | Constraint::Vertical(l) => view.entities.contains_key(
                    l.raw,
                ) && view.entities[l.raw] is Circle,
                Constraint::Parallel(l, m)
                | Constraint::Perpendicular(l, m)
                | Constraint::Equal(l, m) => {
                    ||| view.entities.contains_key(l.raw) && view.entities[l.raw] is Circle
                    ||| view.entities.contains_key(m.raw) && view.entities[m.raw] is Circle
                },
                _ => false,
            }
            &&& check == Err::<(), ConstraintError>(ConstraintError::NotACircle) ==> (
            c matches Constraint::Radius(e, _) && view.entities.contains_key(e.raw)
                && view.entities[e.raw] is Line)
        }),
{
}

/// A new dimension has a constraint of its own that demands what it measures:
/// the distance of two points, or the radius of a circle, which is half of a
/// diameter. It shows the value that it was given, and nothing else changes.
pub proof fn lemma_new_dimension<T, E: Fn(&Expr<T>, &Vec<T>) -> T>(
    num: spec_fn(T) -> real,
    eval: E,
    before: SketchView<T>,
    target: DimensionTarget,
    shown: T,
    offset: [T; 2],
    id: DimensionId,
    after: SketchView<T>,
    again: T,
)
    requires
        exact_eval(num, eval),
        adds_dimension(eval, before, target, shown, offset, id, after),
        driver_value(after, id) matches Some(stored) ==> is_shown_value(
            eval,
            after.dimensions[id.raw].kind,
            stored,
            again,
        ),
    ensures
        after.vars == before.vars,
        after.points == before.points,
        after.entities == before.entities,
        after.dimensions.contains_key(id.raw),
        after.dimensions[id.raw].offset == offset,
        forall|d: u64| #[trigger]
            before.dimensions.contains_key(d) && d != id.raw ==> after.dimensions.contains_key(d)
                && after.dimensions[d] == before.dimensions[d],
        forall|c: u64| #[trigger]
            before.constraints.contains_key(c) ==> after.constraints.contains_key(c)
                && after.constraints[c] == before.constraints[c],
        ({
            let dimension = after.dimensions[id.raw];
            let driver = dimension.constraint.raw;
            &&& !before.constraints.contains_key(driver)
            &&& after.constraints.contains_key(driver)
            &&& match target {
                DimensionTarget::Linear(p, q) => dimension.kind is Linear
                    && after.constraints[driver] == Constraint::Distance(p, q, shown),
                DimensionTarget::Radius(e) => dimension.kind is Radius && after.constraints[driver]
                    == Constraint::Radius(e, shown),
                DimensionTarget::Diameter(e) => dimension.kind is Diameter && (
                after.constraints[driver] matches Constraint::Radius(f, r) && f == e && 2real
                    * num(r) == num(shown)),
            }
        }),
        num(again) == num(shown),
{
    let (stored, driver) = choose|stored: T, driver: ConstraintId|
        {
            &&& is_stored_value(eval, crate::dimension::kind_of_target(target), shown, stored)
            &&& !before.constraints.contains_key(driver.raw)
            &&& after == #[trigger] with_dimension(before, id, driver, target, stored, offset)
        };
    lemma_halved(num, eval, crate::dimension::kind_of_target(target), shown, stored);
    lemma_doubled(num, eval, after.dimensions[id.raw].kind, stored, again);
}

proof fn lemma_halved<T, E: Fn(&Expr<T>, &Vec<T>) -> T>(
    num: spec_fn(T) -> real,
    eval: E,
    kind: DimensionKind,
    shown: T,
    stored: T,
)
    requires
        exact_eval(num, eval),
        is_stored_value(eval, kind, shown, stored),
    ensures
        kind is Diameter ==> 2real * num(stored) == num(shown),
        !(kind is Diameter) ==> stored == shown,
{
    if kind is Diameter {
        let meaning = |at: Reading<T>| (at.num)(shown) / 2real;
        assert(computes(eval, meaning, Seq::empty(), stored));
        assert(num(stored) == meaning(reading(num, Seq::empty())));
    }
}

proof fn lemma_doubled<T, E: Fn(&Expr<T>, &Vec<T>) -> T>(
    num: spec_fn(T) -> real,
    eval: E,
    kind: DimensionKind,
    stored: T,
    shown: T,
)
    requires
        exact_eval(num, eval),
        is_shown_value(eval, kind, stored, shown),
    ensures
        kind is Diameter ==> num(shown) == 2real * num(stored),
        !(kind is Diameter) ==> shown == stored,
{
    if kind is Diameter {
        let meaning = |at: Reading<T>| (at.num)(stored) * 2real;
        assert(computes(eval, meaning, Seq::empty(), shown));
        assert(num(shown) == meaning(reading(num, Seq::empty())));
    }
}

/// A dimension with another value demands that value, of the same points or the
/// same circle, and shows it. No other constraint changes, and no dimension.
pub proof fn lemma_changed_dimension<T, E: Fn(&Expr<T>, &Vec<T>) -> T>(
    num: spec_fn(T) -> real,
    eval: E,
    before: SketchView<T>,
    id: DimensionId,
    shown: T,
    stored: T,
    again: T,
)
    requires
        exact_eval(num, eval),
        before.dimensions.contains_key(id.raw),
        is_stored_value(eval, before.dimensions[id.raw].kind, shown, stored),
        driver_value(with_stored(before, id, stored), id) matches Some(held) ==> is_shown_value(
            eval,
            before.dimensions[id.raw].kind,
            held,
            again,
        ),
    ensures
        ({
            let after = with_stored(before, id, stored);
            let driver = before.dimensions[id.raw].constraint.raw;
            &&& after.vars == before.vars
            &&& after.points == before.points
            &&& after.entities == before.entities
            &&& after.dimensions == before.dimensions
            &&& before.dimensions[id.raw].kind is Diameter ==> 2real * num(stored) == num(shown)
            &&& before.dimensions[id.raw].kind !is Diameter ==> stored == shown
            &&& forall|c: u64| #[trigger]
                after.constraints.contains_key(c) <==> before.constraints.contains_key(c)
            &&& forall|c: u64|
                before.constraints.contains_key(c) && c != driver
                    ==> #[trigger] after.constraints[c] == before.constraints[c]
            &&& before.constraints.contains_key(driver) ==> match before.constraints[driver] {
                Constraint::Distance(p, q, _) => {
                    &&& after.constraints[driver] == Constraint::Distance(p, q, stored)
                    &&& num(again) == num(shown)
                },
                Constraint::Radius(e, _) => {
                    &&& after.constraints[driver] == Constraint::Radius(e, stored)
                    &&& num(again) == num(shown)
                },
                other => after.constraints[driver] == other,
            }
        }),
{
    lemma_halved(num, eval, before.dimensions[id.raw].kind, shown, stored);
    let after = with_stored(before, id, stored);
    if let Some(held) = driver_value(after, id) {
        lemma_doubled(num, eval, before.dimensions[id.raw].kind, held, again);
    }
}

/// Setting a dimension and solving brings the geometry to the value: with exact
/// arithmetic, where that ends as solved, the points are that far apart, the
/// radius is that large, or the diameter is.
pub proof fn lemma_dimension_drives<
    T: Copy,
    E: Fn(&Expr<T>, &Vec<T>) -> T,
    L: Fn(&T, &T) -> bool,
    F: Fn(&Vec<Vec<T>>) -> Option<Factors<T>>,
>(
    num: spec_fn(T) -> real,
    ops: SolverOps<E, L, F>,
    before: SketchView<T>,
    id: DimensionId,
    shown: T,
    stored: T,
    changed: Sketch<T>,
    iterations: usize,
    after: Sketch<T>,
)
    requires
        exact(num, ops.eval, ops.less),
        before.dimensions.contains_key(id.raw),
        before.constraints.contains_key(before.dimensions[id.raw].constraint.raw),
        names_rightly(
            before,
            before.constraints[before.dimensions[id.raw].constraint.raw],
        ),
        is_stored_value(ops.eval, before.dimensions[id.raw].kind, shown, stored),
        changed.wf(),
        changed@ == with_stored(before, id, stored),
        changed@.linked(),
        after@.linked(),
        solves(ops, changed@, Seq::empty(), SolveResult::Solved { iterations }, after@),
    ensures
        ({
            let dimension = before.dimensions[id.raw];
            let v = num(shown);
            let near = |a: real, b: real| magnitude(a - b) < 1real / 1000000000real;
            match before.constraints[dimension.constraint.raw] {
                Constraint::Distance(p, q, _) => dimension.kind is Linear ==> {
                    let (a, b) = (spot_of(num, after@, p), spot_of(num, after@, q));
                    near((a.0 - b.0) * (a.0 - b.0) + (a.1 - b.1) * (a.1 - b.1), v * v)
                },
                Constraint::Radius(e, _) => {
                    let r = num(after@.vars[after@.entities[e.raw]->radius.index as int]);
                    &&& dimension.kind is Radius ==> near(r, v)
                    &&& dimension.kind is Diameter ==> near(r, v / 2real)
                },
                _ => true,
            }
        }),
{
    let k = before.dimensions[id.raw].constraint.raw;
    lemma_halved(num, ops.eval, before.dimensions[id.raw].kind, shown, stored);
    lemma_solved_meets_constraints(num, ops, changed, iterations, after);
    assert(changed@.constraints.contains_key(k));
}

/// The constraint names the element.
pub open spec fn mentions<T>(c: Constraint<T>, element: ConstraintRef) -> bool {
    match element {
        ConstraintRef::Point(x) => match c {
            Constraint::Coincident(p, q) | Constraint::Distance(p, q, _) => x == p || x == q,
            _ => false,
        },
        ConstraintRef::Entity(x) => match c {
            Constraint::Horizontal(e) | Constraint::Vertical(e) | Constraint::Radius(e, _) => x
                == e,
            Constraint::Parallel(l, m)
            | Constraint::Perpendicular(l, m)
            | Constraint::Equal(l, m) => x == l || x == m,
            _ => false,
        },
    }
}

/// The constraints on an element are all that name it, each once, by ascending
/// slots.
pub proof fn lemma_constraints_on<T: Copy>(sketch: Sketch<T>, element: ConstraintRef)
    requires
        sketch.wf(),
    ensures
        forall|k: u64| #[trigger]
            referring(sketch@, element).contains(k) <==> sketch@.constraints.contains_key(k)
                && mentions(sketch@.constraints[k], element),
        forall|i: int, j: int|
            0 <= i < j < referring(sketch@, element).len() ==> slot_index(
                #[trigger] referring(sketch@, element)[i],
            ) < slot_index(#[trigger] referring(sketch@, element)[j]),
{
    let view = sketch@;
    let keys = slot_order(view.constraints.dom());
    let wanted = |k: u64| refs_spec(view.constraints[k]).contains(element);
    sketch.lemma_orders();
    assert forall|k: u64| wanted(k) == mentions(view.constraints[k], element) by {
        lemma_refs(view.constraints[k], element);
    }
    assert forall|k: u64| #[trigger] referring(view, element).contains(k)
        <==> view.constraints.contains_key(k) && mentions(view.constraints[k], element) by {
        if referring(view, element).contains(k) {
            keys.lemma_filter_contains_rev(wanted, k);
            let i = choose|i: int|
                0 <= i < referring(view, element).len() && referring(view, element)[i] == k;
            keys.lemma_filter_pred(wanted, i);
            assert(view.constraints.dom().contains(k));
            assert(wanted(k) == mentions(view.constraints[k], element));
        }
        if view.constraints.contains_key(k) && mentions(view.constraints[k], element) {
            assert(view.constraints.dom().contains(k));
            assert(keys.contains(k));
            let j = choose|j: int| 0 <= j < keys.len() && keys[j] == k;
            assert(wanted(k) == mentions(view.constraints[k], element));
            keys.lemma_filter_contains(wanted, j);
        }
    }
    lemma_filter_ascends(keys, wanted);
}

proof fn lemma_refs<T>(c: Constraint<T>, element: ConstraintRef)
    ensures
        refs_spec(c).contains(element) == mentions(c, element),
{
    let refs = refs_spec(c);
    if refs.contains(element) {
        let i = choose|i: int| 0 <= i < refs.len() && refs[i] == element;
        assert(i == 0 || i == 1);
    }
    if mentions(c, element) {
        assert(refs[0] == element || (refs.len() > 1 && refs[1] == element));
    }
}

proof fn lemma_filter_ascends(keys: Seq<u64>, wanted: spec_fn(u64) -> bool)
    requires
        forall|i: int, j: int|
            0 <= i < j < keys.len() ==> slot_index(#[trigger] keys[i]) < slot_index(
                #[trigger] keys[j],
            ),
    ensures
        forall|i: int, j: int|
            0 <= i < j < keys.filter(wanted).len() ==> slot_index(
                #[trigger] keys.filter(wanted)[i],
            ) < slot_index(#[trigger] keys.filter(wanted)[j]),
    decreases keys.len(),
{
    reveal(Seq::filter);
    if keys.len() > 0 {
        let rest = keys.drop_last();
        let some = rest.filter(wanted);
        assert forall|i: int, j: int| 0 <= i < j < rest.len() implies slot_index(
            #[trigger] rest[i],
        ) < slot_index(#[trigger] rest[j]) by {
            assert(slot_index(keys[i]) < slot_index(keys[j]));
        }
        lemma_filter_ascends(rest, wanted);
        assert forall|i: int, j: int| 0 <= i < j < keys.filter(wanted).len() implies slot_index(
            #[trigger] keys.filter(wanted)[i],
        ) < slot_index(#[trigger] keys.filter(wanted)[j]) by {
            if j < some.len() {
                assert(slot_index(some[i]) < slot_index(some[j]));
            } else {
                assert(some.contains(some[i]));
                rest.lemma_filter_contains_rev(wanted, some[i]);
                let t = choose|t: int| 0 <= t < rest.len() && rest[t] == some[i];
                assert(slot_index(keys[t]) < slot_index(keys[keys.len() - 1]));
            }
        }
    }
}

/// The description of a constraint has its kind, and what it names in the order
/// in which it does.
pub proof fn lemma_description<T>(c: Constraint<T>)
    ensures
        ({
            let refs = refs_spec(c);
            match c {
                Constraint::Coincident(p, q) | Constraint::Distance(p, q, _) => refs.len() == 2
                    && refs[0] == ConstraintRef::Point(p) && refs[1] == ConstraintRef::Point(q),
                Constraint::Horizontal(e) | Constraint::Vertical(e) | Constraint::Radius(e, _) =>
                    refs.len() == 1 && refs[0] == ConstraintRef::Entity(e),
                Constraint::Parallel(l, m)
                | Constraint::Perpendicular(l, m)
                | Constraint::Equal(l, m) => refs.len() == 2 && refs[0] == ConstraintRef::Entity(l)
                    && refs[1] == ConstraintRef::Entity(m),
            }
        }),
        kind_spec(c) is Coincident <==> c is Coincident,
        kind_spec(c) is Horizontal <==> c is Horizontal,
        kind_spec(c) is Vertical <==> c is Vertical,
        kind_spec(c) is Parallel <==> c is Parallel,
        kind_spec(c) is Perpendicular <==> c is Perpendicular,
        kind_spec(c) is Distance <==> c is Distance,
        kind_spec(c) is Radius <==> c is Radius,
        kind_spec(c) is Equal <==> c is Equal,
{
}

/// The points of a sketch are listed each once, by ascending slot, which is the
/// lower half of their keys; and so are its entities, its constraints and its
/// dimensions.
pub proof fn lemma_listing<T: Copy>(sketch: Sketch<T>)
    requires
        sketch.wf(),
    ensures
        is_listing(slot_order(sketch@.points.dom()), sketch@.points.dom()),
        is_listing(slot_order(sketch@.entities.dom()), sketch@.entities.dom()),
        is_listing(slot_order(sketch@.constraints.dom()), sketch@.constraints.dom()),
        is_listing(slot_order(sketch@.dimensions.dom()), sketch@.dimensions.dom()),
{
    sketch.lemma_orders();
}

/// The list holds the keys, by ascending lower half.
pub open spec fn is_listing(keys: Seq<u64>, held: Set<u64>) -> bool {
    &&& forall|i: int, j: int|
        0 <= i < j < keys.len() ==> #[trigger] keys[i] % 0x1_0000_0000 < #[trigger] keys[j]
            % 0x1_0000_0000
    &&& forall|k: u64| #[trigger] keys.contains(k) <==> held.contains(k)
}

} // verus!
