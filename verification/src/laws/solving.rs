//! Laws of the solver.
use vstd::prelude::*;

use crate::arith::{computes, is_reciprocal};
use crate::constraint::{Constraint, Equation, moved, moved_back, residual_of, weighted_residual};
use crate::expr::{Expr, Reading, larger, magnitude};
use crate::ids::{EntityId, PointId, VarId};
use crate::laws::outlines::lemma_filter_distinct;
use crate::laws::reals::lemma_times;
use crate::lowering::{all_equations, equations_of, equations_under};
use crate::sketch::{Sketch, SketchEntity, SketchView, attached};
use crate::slots::{lemma_slot_order_distinct, slot_order};
use crate::solver::{
    Factors, INVERSE_DAMPING, INVERSE_LEAST_DAMPING, MAX_DAMPING_RETRIES, Place, Problem,
    SolveResult, SolverOps, Turn, column_derivative, count_set, damped, dot, ends, exact, gives_up,
    is_dof, is_jacobian, is_jacobian_row, is_largest, is_last_place, is_rank, is_rank_threshold,
    is_residual_value, is_start, largest, lemma_drag_reaches, lemma_moving_vars,
    lemma_solved_within_tolerance, lemma_solving_keeps_structure, moving_vars, norm_squared,
    numbers, placed, point_vars, problem_of, pull, radius_vars, reading, runs, solves, tries_step,
    turns, unit,
};

verus! {

/// Where a point of a sketch is.
pub open spec fn spot_of<T>(num: spec_fn(T) -> real, view: SketchView<T>, p: PointId) -> (
    real,
    real,
) {
    let point = view.points[p.raw];
    (num(view.vars[point.x.index as int]), num(view.vars[point.y.index as int]))
}

/// The way from the first end of a line to its second.
pub open spec fn way_of<T>(num: spec_fn(T) -> real, view: SketchView<T>, l: EntityId) -> (
    real,
    real,
) {
    let line = view.entities[l.raw];
    let (a, b) = (spot_of(num, view, line->p1), spot_of(num, view, line->p2));
    (b.0 - a.0, b.1 - a.1)
}

/// The geometry meets a constraint but for less than `limit`.
pub open spec fn is_met_within<T>(
    num: spec_fn(T) -> real,
    view: SketchView<T>,
    c: Constraint<T>,
    limit: real,
) -> bool {
    match c {
        Constraint::Coincident(p, q) => {
            let (a, b) = (spot_of(num, view, p), spot_of(num, view, q));
            magnitude(a.0 - b.0) < limit && magnitude(a.1 - b.1) < limit
        },
        Constraint::Horizontal(l) => magnitude(way_of(num, view, l).1) < limit,
        Constraint::Vertical(l) => magnitude(way_of(num, view, l).0) < limit,
        Constraint::Parallel(l, m) => {
            let (a, b) = (way_of(num, view, l), way_of(num, view, m));
            magnitude(a.0 * b.1 - a.1 * b.0) < limit
        },
        Constraint::Perpendicular(l, m) => {
            let (a, b) = (way_of(num, view, l), way_of(num, view, m));
            magnitude(a.0 * b.0 + a.1 * b.1) < limit
        },
        Constraint::Distance(p, q, d) => {
            let (a, b) = (spot_of(num, view, p), spot_of(num, view, q));
            magnitude(
                (a.0 - b.0) * (a.0 - b.0) + (a.1 - b.1) * (a.1 - b.1) - num(d) * num(d),
            ) < limit
        },
        Constraint::Radius(e, r) => magnitude(
            num(view.vars[view.entities[e.raw]->radius.index as int]) - num(r),
        ) < limit,
        Constraint::Equal(l, m) => {
            let (a, b) = (way_of(num, view, l), way_of(num, view, m));
            magnitude((a.0 * a.0 + a.1 * a.1) - (b.0 * b.0 + b.1 * b.1)) < limit
        },
    }
}

/// What a constraint names exists and is of the right kind.
pub open spec fn names_rightly<T>(view: SketchView<T>, c: Constraint<T>) -> bool {
    let is_line = |l: EntityId| view.entities.contains_key(l.raw) && view.entities[l.raw] is Line;
    match c {
        Constraint::Coincident(p, q) | Constraint::Distance(p, q, _) => view.points.contains_key(
            p.raw,
        ) && view.points.contains_key(q.raw),
        Constraint::Horizontal(l) | Constraint::Vertical(l) => is_line(l),
        Constraint::Parallel(l, m)
        | Constraint::Perpendicular(l, m)
        | Constraint::Equal(l, m) => is_line(l) && is_line(m),
        Constraint::Radius(e, _) => view.entities.contains_key(e.raw)
            && view.entities[e.raw] is Circle,
    }
}

proof fn lemma_listed<T>(view: SketchView<T>, keys: Seq<u64>, j: int, m: int) -> (i: int)
    requires
        0 <= j < keys.len(),
        0 <= m < equations_of(view.points, view.entities, view.constraints[keys[j]]).len(),
    ensures
        0 <= i < equations_under(view, keys).len(),
        equations_under(view, keys)[i] == equations_of(
            view.points,
            view.entities,
            view.constraints[keys[j]],
        )[m],
    decreases keys.len(),
{
    let rest = equations_under(view, keys.drop_last());
    if j == keys.len() - 1 {
        rest.len() + m
    } else {
        lemma_listed(view, keys.drop_last(), j, m)
    }
}

proof fn lemma_origin<T>(view: SketchView<T>, keys: Seq<u64>, i: int) -> (at: (int, int))
    requires
        0 <= i < equations_under(view, keys).len(),
    ensures
        0 <= at.0 < keys.len(),
        0 <= at.1 < equations_of(view.points, view.entities, view.constraints[keys[at.0]]).len(),
        equations_under(view, keys)[i] == equations_of(
            view.points,
            view.entities,
            view.constraints[keys[at.0]],
        )[at.1],
    decreases keys.len(),
{
    let rest = equations_under(view, keys.drop_last());
    if i < rest.len() {
        let at = lemma_origin(view, keys.drop_last(), i);
        at
    } else {
        (keys.len() - 1, i - rest.len())
    }
}

/// The equations that are solved are those of the constraints: each equation of
/// each constraint is among them, and there is no other.
pub proof fn lemma_every_constraint_counts<T: Copy>(sketch: Sketch<T>)
    requires
        sketch.wf(),
    ensures
        forall|k: u64, e: Equation<T>|
            sketch@.constraints.contains_key(k) && #[trigger] equations_of(
                sketch@.points,
                sketch@.entities,
                sketch@.constraints[k],
            ).contains(e) ==> all_equations(sketch@).contains(e),
        forall|e: Equation<T>| #[trigger]
            all_equations(sketch@).contains(e) ==> exists|k: u64| #[trigger]
                sketch@.constraints.contains_key(k) && equations_of(
                    sketch@.points,
                    sketch@.entities,
                    sketch@.constraints[k],
                ).contains(e),
{
    let view = sketch@;
    let keys = slot_order(view.constraints.dom());
    sketch.lemma_orders();
    assert forall|k: u64, e: Equation<T>|
        view.constraints.contains_key(k) && #[trigger] equations_of(
            view.points,
            view.entities,
            view.constraints[k],
        ).contains(e) implies all_equations(view).contains(e) by {
        let own = equations_of(view.points, view.entities, view.constraints[k]);
        let m = choose|m: int| 0 <= m < own.len() && own[m] == e;
        assert(view.constraints.dom().contains(k));
        assert(keys.contains(k));
        let j = choose|j: int| 0 <= j < keys.len() && keys[j] == k;
        let i = lemma_listed(view, keys, j, m);
        assert(all_equations(view)[i] == e);
    }
    assert forall|e: Equation<T>| #[trigger] all_equations(view).contains(e) implies exists|k: u64|
     #[trigger]
        view.constraints.contains_key(k) && equations_of(
            view.points,
            view.entities,
            view.constraints[k],
        ).contains(e) by {
        let i = choose|i: int| 0 <= i < all_equations(view).len() && all_equations(view)[i] == e;
        let (j, m) = lemma_origin(view, keys, i);
        let k = keys[j];
        assert(keys.contains(k));
        assert(view.constraints.dom().contains(k));
        let own = equations_of(view.points, view.entities, view.constraints[k]);
        assert(own[m] == e);
        assert(own.contains(e));
    }
}

proof fn lemma_square_of_gap(a: real, b: real)
    ensures
        (a - b) * (a - b) == (b - a) * (b - a),
{
    assert((a - b) * (a - b) == (b - a) * (b - a)) by (nonlinear_arith);
}

/// The residuals of a constraint are what is missing to meet it.
proof fn lemma_residuals<T>(
    num: spec_fn(T) -> real,
    view: SketchView<T>,
    c: Constraint<T>,
    limit: real,
)
    requires
        view.linked(),
        names_rightly(view, c),
    ensures
        equations_of(view.points, view.entities, c).len() > 0,
        is_met_within(num, view, c, limit) <==> forall|m: int|
            0 <= m < equations_of(view.points, view.entities, c).len() ==> magnitude(
                weighted_residual(
                    #[trigger] equations_of(view.points, view.entities, c)[m],
                    reading(num, view.vars),
                ),
            ) < limit,
{
    let at = reading(num, view.vars);
    let eqs = equations_of(view.points, view.entities, c);
    assert forall|l: EntityId|
        view.entities.contains_key(l.raw) && #[trigger] view.entities[l.raw] is Line implies {
        let e = view.entities[l.raw];
        view.points.contains_key(e->p1.raw) && view.points.contains_key(e->p2.raw)
    } by {
        let e = view.entities[l.raw];
        assert(attached(e, e->p1));
        assert(attached(e, e->p2));
    }
    assert forall|m: int| 0 <= m < eqs.len() implies weighted_residual(#[trigger] eqs[m], at)
        == residual_of(eqs[m].kind, at) by {
        lemma_times(residual_of(eqs[m].kind, at), 1real);
    }
    assert(eqs.len() > 0);
    let r = |m: int| residual_of(eqs[m].kind, at);
    assert(eqs[0] == eqs[0]);
    match c {
        Constraint::Coincident(p, q) => {
            assert(eqs.len() == 2);
            assert(eqs[1] == eqs[1]);
            let (a, b) = (spot_of(num, view, p), spot_of(num, view, q));
            assert(r(0) == a.0 - b.0);
            assert(r(1) == a.1 - b.1);
        },
        Constraint::Horizontal(l) => {
            assert(r(0) == -way_of(num, view, l).1);
        },
        Constraint::Vertical(l) => {
            assert(r(0) == -way_of(num, view, l).0);
        },
        Constraint::Parallel(l, m) => {
            let (a, b) = (way_of(num, view, l), way_of(num, view, m));
            assert(r(0) == a.0 * b.1 - a.1 * b.0);
        },
        Constraint::Perpendicular(l, m) => {
            let (a, b) = (way_of(num, view, l), way_of(num, view, m));
            assert(r(0) == a.0 * b.0 + a.1 * b.1);
        },
        Constraint::Distance(p, q, d) => {
            let (a, b) = (spot_of(num, view, p), spot_of(num, view, q));
            assert(r(0) == (a.0 - b.0) * (a.0 - b.0) + (a.1 - b.1) * (a.1 - b.1) - num(d) * num(d));
        },
        Constraint::Radius(e, d) => {
            assert(r(0) == num(view.vars[view.entities[e.raw]->radius.index as int]) - num(d));
        },
        Constraint::Equal(l, m) => {
            let (a, b) = (way_of(num, view, l), way_of(num, view, m));
            let (e, f) = (view.entities[l.raw], view.entities[m.raw]);
            let (e1, e2) = (spot_of(num, view, e->p1), spot_of(num, view, e->p2));
            let (f1, f2) = (spot_of(num, view, f->p1), spot_of(num, view, f->p2));
            lemma_square_of_gap(e1.0, e2.0);
            lemma_square_of_gap(e1.1, e2.1);
            lemma_square_of_gap(f1.0, f2.0);
            lemma_square_of_gap(f1.1, f2.1);
            assert(r(0) == (a.0 * a.0 + a.1 * a.1) - (b.0 * b.0 + b.1 * b.1));
        },
    }
}

proof fn lemma_solved<
    T: Copy,
    E: Fn(&Expr<T>, &Vec<T>) -> T,
    L: Fn(&T, &T) -> bool,
    F: Fn(&Vec<Vec<T>>) -> Option<Factors<T>>,
>(
    num: spec_fn(T) -> real,
    ops: SolverOps<E, L, F>,
    sketch: Sketch<T>,
    extra: Seq<Equation<T>>,
    iterations: usize,
    after: SketchView<T>,
    k: u64,
)
    requires
        exact(num, ops.eval, ops.less),
        sketch.wf(),
        sketch@.linked(),
        solves(ops, sketch@, extra, SolveResult::Solved { iterations }, after),
        sketch@.constraints.contains_key(k),
        names_rightly(sketch@, sketch@.constraints[k]),
        after.linked(),
    ensures
        is_met_within(num, after, sketch@.constraints[k], 1real / 1000000000real),
{
    let view = sketch@;
    let c = view.constraints[k];
    let keys = slot_order(view.constraints.dom());
    let own = equations_of(view.points, view.entities, c);
    sketch.lemma_orders();
    lemma_solving_keeps_structure(ops, view, extra, SolveResult::Solved { iterations }, after);
    assert(view.constraints.dom().contains(k));
    assert(keys.contains(k));
    let j = choose|j: int| 0 <= j < keys.len() && keys[j] == k;
    assert forall|m: int| 0 <= m < own.len() implies magnitude(
        weighted_residual(#[trigger] own[m], reading(num, after.vars)),
    ) < 1real / 1000000000real by {
        let i = lemma_listed(view, keys, j, m);
        assert((all_equations(view) + extra)[i] == own[m]);
        lemma_solved_within_tolerance(num, ops, view, extra, iterations, after, i);
    }
    lemma_residuals(num, after, c, 1real / 1000000000real);
}

/// Solving that ends as solved has met every constraint: with exact arithmetic
/// the points of a coincidence lie together, horizontal lines are level,
/// vertical lines upright, parallel lines parallel, perpendicular lines
/// perpendicular, distances and radii as demanded and equal lines equally long,
/// each but for less than the tolerance. The constraints stay as they are, and
/// nothing but variables moves.
pub proof fn lemma_solved_meets_constraints<
    T: Copy,
    E: Fn(&Expr<T>, &Vec<T>) -> T,
    L: Fn(&T, &T) -> bool,
    F: Fn(&Vec<Vec<T>>) -> Option<Factors<T>>,
>(
    num: spec_fn(T) -> real,
    ops: SolverOps<E, L, F>,
    sketch: Sketch<T>,
    iterations: usize,
    after: Sketch<T>,
)
    requires
        exact(num, ops.eval, ops.less),
        sketch.wf(),
        sketch@.linked(),
        after@.linked(),
        solves(ops, sketch@, Seq::empty(), SolveResult::Solved { iterations }, after@),
    ensures
        forall|k: u64| #[trigger]
            sketch@.constraints.contains_key(k) && names_rightly(sketch@, sketch@.constraints[k])
                ==> is_met_within(num, after@, sketch@.constraints[k], 1real / 1000000000real),
        after@.points == sketch@.points,
        after@.entities == sketch@.entities,
        after@.constraints == sketch@.constraints,
        after@.dimensions == sketch@.dimensions,
{
    lemma_solving_keeps_structure(
        ops,
        sketch@,
        Seq::empty(),
        SolveResult::Solved { iterations },
        after@,
    );
    assert forall|k: u64| #[trigger]
        sketch@.constraints.contains_key(k) && names_rightly(
            sketch@,
            sketch@.constraints[k],
        ) implies is_met_within(num, after@, sketch@.constraints[k], 1real / 1000000000real) by {
        lemma_solved(num, ops, sketch, Seq::empty(), iterations, after@, k);
    }
}

/// A drag that ends as solved has met every constraint and has brought the
/// point to the target, but for four tolerances: with exact arithmetic, and
/// horizontally to the first coordinate, vertically to the second.
pub proof fn lemma_drag_meets_constraints<
    T: Copy,
    E: Fn(&Expr<T>, &Vec<T>) -> T,
    L: Fn(&T, &T) -> bool,
    F: Fn(&Vec<Vec<T>>) -> Option<Factors<T>>,
>(
    num: spec_fn(T) -> real,
    ops: SolverOps<E, L, F>,
    sketch: Sketch<T>,
    point: PointId,
    target: [T; 2],
    iterations: usize,
    after: Sketch<T>,
)
    requires
        exact(num, ops.eval, ops.less),
        sketch.wf(),
        sketch@.linked(),
        after@.linked(),
        solves(
            ops,
            sketch@,
            pull(sketch@, point, target),
            SolveResult::Solved { iterations },
            after@,
        ),
    ensures
        forall|k: u64| #[trigger]
            sketch@.constraints.contains_key(k) && names_rightly(sketch@, sketch@.constraints[k])
                ==> is_met_within(num, after@, sketch@.constraints[k], 1real / 1000000000real),
        sketch@.points.contains_key(point.raw) ==> {
            let there = spot_of(num, after@, point);
            &&& magnitude(there.0 - num(target[0])) < 4real / 1000000000real
            &&& magnitude(there.1 - num(target[1])) < 4real / 1000000000real
        },
        after@.points == sketch@.points,
        after@.entities == sketch@.entities,
        after@.constraints == sketch@.constraints,
        after@.dimensions == sketch@.dimensions,
{
    let extra = pull(sketch@, point, target);
    lemma_solving_keeps_structure(ops, sketch@, extra, SolveResult::Solved { iterations }, after@);
    assert forall|k: u64| #[trigger]
        sketch@.constraints.contains_key(k) && names_rightly(
            sketch@,
            sketch@.constraints[k],
        ) implies is_met_within(num, after@, sketch@.constraints[k], 1real / 1000000000real) by {
        lemma_solved(num, ops, sketch, extra, iterations, after@, k);
    }
    if sketch@.points.contains_key(point.raw) {
        lemma_drag_reaches(num, ops, sketch@, point, target, iterations, after@);
        let there = after@.position(point);
        assert(num(there[0]) == spot_of(num, after@, point).0);
        assert(num(there[1]) == spot_of(num, after@, point).1);
    }
}

proof fn lemma_largest_below<T>(num: spec_fn(T) -> real, f: Seq<T>, limit: real)
    requires
        limit > 0real,
        forall|i: int| 0 <= i < f.len() ==> magnitude(num(#[trigger] f[i])) < limit,
    ensures
        largest(num, f) < limit,
    decreases f.len(),
{
    if f.len() > 0 {
        let rest = f.drop_last();
        assert forall|i: int| 0 <= i < rest.len() implies magnitude(num(#[trigger] rest[i]))
            < limit by {
            assert(rest[i] == f[i]);
        }
        lemma_largest_below(num, rest, limit);
        assert(magnitude(num(f[f.len() - 1])) < limit);
    }
}

/// A sketch that meets its constraints stays as it is: with exact arithmetic
/// solving it takes no iteration and moves nothing.
pub proof fn lemma_met_sketch_stays<
    T: Copy,
    E: Fn(&Expr<T>, &Vec<T>) -> T,
    L: Fn(&T, &T) -> bool,
    F: Fn(&Vec<Vec<T>>) -> Option<Factors<T>>,
>(
    num: spec_fn(T) -> real,
    ops: SolverOps<E, L, F>,
    sketch: Sketch<T>,
    result: SolveResult<T>,
    after: SketchView<T>,
)
    requires
        exact(num, ops.eval, ops.less),
        sketch.wf(),
        sketch@.linked(),
        forall|k: u64| #[trigger]
            sketch@.constraints.contains_key(k) ==> names_rightly(sketch@, sketch@.constraints[k])
                && is_met_within(num, sketch@, sketch@.constraints[k], 1real / 1000000000real),
        solves(ops, sketch@, Seq::empty(), result, after),
    ensures
        result == (SolveResult::<T>::Solved { iterations: 0 }),
        after == sketch@,
{
    let view = sketch@;
    let keys = slot_order(view.constraints.dom());
    let problem = problem_of(view, Seq::empty());
    let limit = 1real / 1000000000real;
    sketch.lemma_orders();
    assert(problem.equations =~= all_equations(view));
    if problem.equations.len() > 0 {
        let x = choose|x: Seq<T>| #[trigger]
            ends(ops, problem, result, x) && x.len() == problem.vars.len() && after == (
            SketchView { vars: placed(view.vars, problem.vars, x), ..view });
        let place = choose|place: Place<T>| #[trigger]
            runs(ops, problem, place, 0, result, x) && is_start(ops.eval, problem, place);
        lemma_moving_vars(view);
        lemma_start_placed(view, problem.vars, place.x);
        assert(placed(view.vars, problem.vars, place.x) =~= view.vars);
        assert forall|i: int| 0 <= i < place.f.len() implies magnitude(
            num(#[trigger] place.f[i]),
        ) < limit by {
            let eq = problem.equations[i];
            let (j, m) = lemma_origin(view, keys, i);
            let k = keys[j];
            assert(keys.contains(k));
            assert(view.constraints.dom().contains(k));
            assert(view.constraints.contains_key(k));
            lemma_residuals(num, view, view.constraints[k], limit);
            let own = equations_of(view.points, view.entities, view.constraints[k]);
            assert(own[m] == eq);
            assert(is_residual_value(ops.eval, eq, view.vars, place.f[i]));
            let meaning = |at: Reading<T>| weighted_residual(eq, at);
            assert(computes(ops.eval, meaning, view.vars, place.f[i]));
            assert(num(place.f[i]) == meaning(reading(num, view.vars)));
        }
        lemma_largest_below(num, place.f, limit);
        let turn = choose|turn: Turn<T>| #[trigger]
            turns(ops, problem, place, turn) && match turn {
                Turn::Converged => result == (SolveResult::<T>::Solved { iterations: 0 }) && x
                    == place.x,
                Turn::Stuck => gives_up(ops.eval, place, result, x),
                Turn::Moved(next) => runs(ops, problem, next, 1, result, x),
            };
        let found = turn is Converged;
        let (size, tolerance) = choose|size: T, tolerance: T| #[trigger]
            call_ensures(ops.less, (&size, &tolerance), found) && is_largest(
                ops.eval,
                place.f,
                size,
            ) && is_reciprocal(ops.eval, 1_000_000_000, tolerance);
        let big = |at: Reading<T>| largest(at.num, place.f);
        let over = |at: Reading<T>| 1real / ((1_000_000_000i64 as int) as real);
        assert(computes(ops.eval, big, Seq::empty(), size));
        assert(num(size) == big(reading(num, Seq::empty())));
        assert(computes(ops.eval, over, Seq::empty(), tolerance));
        assert(num(tolerance) == over(reading(num, Seq::empty())));
        assert(found);
    }
}

/// Variables that are set to the values that they have keep them.
proof fn lemma_start_placed<T>(view: SketchView<T>, vars: Seq<VarId>, x: Seq<T>)
    requires
        x == vars.map_values(|v: VarId| view.vars[v.index as int]),
        forall|i: int| 0 <= i < vars.len() ==> (#[trigger] vars[i]).index < view.vars.len(),
    ensures
        placed(view.vars, vars, x) == view.vars,
    decreases vars.len(),
{
    if vars.len() > 0 {
        let less = x.drop_last();
        assert(less =~= vars.drop_last().map_values(|v: VarId| view.vars[v.index as int]));
        assert forall|i: int| 0 <= i < vars.drop_last().len() implies (
        #[trigger] vars.drop_last()[i]).index < view.vars.len() by {
            assert(vars.drop_last()[i] == vars[i]);
        }
        assert(vars[vars.len() - 1].index < view.vars.len());
        lemma_start_placed(view, vars.drop_last(), less);
        assert(x.last() == view.vars[vars.last().index as int]);
        let i = vars.last().index as int;
        assert(view.vars.update(i, view.vars[i]) =~= view.vars);
    }
}

/// The variable belongs to a point, or to a circle as its radius.
pub open spec fn can_move<T>(view: SketchView<T>, v: VarId) -> bool {
    ||| exists|p: u64| #[trigger]
        view.points.contains_key(p) && (view.points[p].x == v || view.points[p].y == v)
    ||| exists|e: u64| #[trigger]
        view.entities.contains_key(e) && (view.entities[e] matches SketchEntity::Circle {
            radius,
            ..
        } && radius == v)
}

proof fn lemma_point_vars<T>(view: SketchView<T>, keys: Seq<u64>)
    ensures
        point_vars(view, keys).len() == 2 * keys.len(),
        forall|v: VarId| #[trigger]
            point_vars(view, keys).contains(v) <==> exists|i: int|
                0 <= i < keys.len() && (view.points[#[trigger] keys[i]].x == v
                    || view.points[keys[i]].y == v),
    decreases keys.len(),
{
    if keys.len() > 0 {
        let shorter = keys.drop_last();
        let rest = point_vars(view, shorter);
        let all = point_vars(view, keys);
        lemma_point_vars(view, shorter);
        let n = rest.len() as int;
        assert(all[n] == view.points[keys.last()].x);
        assert(all[n + 1] == view.points[keys.last()].y);
        assert forall|v: VarId| #[trigger] all.contains(v) <==> exists|i: int|
            0 <= i < keys.len() && (view.points[#[trigger] keys[i]].x == v
                || view.points[keys[i]].y == v) by {
            if all.contains(v) {
                let t = choose|t: int| 0 <= t < all.len() && all[t] == v;
                if t < n {
                    assert(rest[t] == v);
                    assert(rest.contains(v));
                    let i = choose|i: int|
                        0 <= i < shorter.len() && (view.points[#[trigger] shorter[i]].x == v
                            || view.points[shorter[i]].y == v);
                    assert(keys[i] == shorter[i]);
                } else {
                    assert(keys[keys.len() - 1] == keys.last());
                }
            }
            if exists|i: int|
                0 <= i < keys.len() && (view.points[#[trigger] keys[i]].x == v
                    || view.points[keys[i]].y == v) {
                let i = choose|i: int|
                    0 <= i < keys.len() && (view.points[#[trigger] keys[i]].x == v
                        || view.points[keys[i]].y == v);
                if i < shorter.len() {
                    assert(shorter[i] == keys[i]);
                    assert(rest.contains(v));
                    let t = choose|t: int| 0 <= t < rest.len() && rest[t] == v;
                    assert(all[t] == v);
                } else if view.points[keys.last()].x == v {
                    assert(all[n] == v);
                } else {
                    assert(all[n + 1] == v);
                }
            }
        }
    }
}

proof fn lemma_radius_vars<T>(view: SketchView<T>, keys: Seq<u64>)
    ensures
        radius_vars(view, keys).len() == keys.filter(|k: u64| view.entities[k] is Circle).len(),
        forall|v: VarId| #[trigger]
            radius_vars(view, keys).contains(v) <==> exists|i: int|
                0 <= i < keys.len() && view.entities[#[trigger] keys[i]] is Circle
                    && view.entities[keys[i]]->radius == v,
    decreases keys.len(),
{
    reveal(Seq::filter);
    if keys.len() > 0 {
        let shorter = keys.drop_last();
        let rest = radius_vars(view, shorter);
        let all = radius_vars(view, keys);
        lemma_radius_vars(view, shorter);
        let n = rest.len() as int;
        assert forall|v: VarId| #[trigger] all.contains(v) <==> exists|i: int|
            0 <= i < keys.len() && view.entities[#[trigger] keys[i]] is Circle
                && view.entities[keys[i]]->radius == v by {
            if all.contains(v) {
                let t = choose|t: int| 0 <= t < all.len() && all[t] == v;
                if t < n {
                    assert(rest[t] == v);
                    assert(rest.contains(v));
                    let i = choose|i: int|
                        0 <= i < shorter.len() && view.entities[#[trigger] shorter[i]] is Circle
                            && view.entities[shorter[i]]->radius == v;
                    assert(keys[i] == shorter[i]);
                } else {
                    assert(keys[keys.len() - 1] == keys.last());
                }
            }
            if exists|i: int|
                0 <= i < keys.len() && view.entities[#[trigger] keys[i]] is Circle
                    && view.entities[keys[i]]->radius == v {
                let i = choose|i: int|
                    0 <= i < keys.len() && view.entities[#[trigger] keys[i]] is Circle
                        && view.entities[keys[i]]->radius == v;
                if i < shorter.len() {
                    assert(shorter[i] == keys[i]);
                    assert(rest.contains(v));
                    let t = choose|t: int| 0 <= t < rest.len() && rest[t] == v;
                    assert(all[t] == v);
                } else {
                    assert(all[n] == v);
                }
            }
        }
    }
}

/// The solver can move both coordinates of every point and the radius of every
/// circle, and nothing else; there are two variables for each point and one for
/// each circle.
pub proof fn lemma_what_moves<T: Copy>(sketch: Sketch<T>)
    requires
        sketch.wf(),
    ensures
        forall|v: VarId| #[trigger]
            moving_vars(sketch@).contains(v) <==> can_move(sketch@, v),
        moving_vars(sketch@).len() == 2 * sketch@.points.len() + sketch@.entities.dom().filter(
            |e: u64| sketch@.entities[e] is Circle,
        ).len(),
{
    let view = sketch@;
    let pk = slot_order(view.points.dom());
    let ek = slot_order(view.entities.dom());
    let round = |e: u64| view.entities[e] is Circle;
    sketch.lemma_orders();
    sketch.lemma_wf();
    lemma_point_vars(view, pk);
    lemma_radius_vars(view, ek);
    let (a, b) = (point_vars(view, pk), radius_vars(view, ek));
    assert forall|v: VarId| #[trigger] moving_vars(view).contains(v) <==> can_move(view, v) by {
        assert(moving_vars(view).contains(v) <==> a.contains(v) || b.contains(v)) by {
            if a.contains(v) {
                let t = choose|t: int| 0 <= t < a.len() && a[t] == v;
                assert(moving_vars(view)[t] == v);
            }
            if b.contains(v) {
                let t = choose|t: int| 0 <= t < b.len() && b[t] == v;
                assert(moving_vars(view)[a.len() + t] == v);
            }
            if moving_vars(view).contains(v) {
                let t = choose|t: int|
                    0 <= t < moving_vars(view).len() && moving_vars(view)[t] == v;
                if t < a.len() {
                    assert(a[t] == v);
                } else {
                    assert(b[t - a.len()] == v);
                }
            }
        }
        if a.contains(v) {
            let i = choose|i: int|
                0 <= i < pk.len() && (view.points[#[trigger] pk[i]].x == v || view.points[pk[i]].y
                    == v);
            assert(pk.contains(pk[i]));
            assert(view.points.dom().contains(pk[i]));
            assert(view.points.contains_key(pk[i]));
        }
        if b.contains(v) {
            let i = choose|i: int|
                0 <= i < ek.len() && view.entities[#[trigger] ek[i]] is Circle
                    && view.entities[ek[i]]->radius == v;
            assert(ek.contains(ek[i]));
            assert(view.entities.dom().contains(ek[i]));
            assert(view.entities.contains_key(ek[i]));
        }
        if can_move(view, v) {
            if exists|p: u64| #[trigger]
                view.points.contains_key(p) && (view.points[p].x == v || view.points[p].y == v) {
                let p = choose|p: u64| #[trigger]
                    view.points.contains_key(p) && (view.points[p].x == v || view.points[p].y
                        == v);
                assert(view.points.dom().contains(p));
                assert(pk.contains(p));
                let i = choose|i: int| 0 <= i < pk.len() && pk[i] == p;
                assert(view.points[pk[i]].x == v || view.points[pk[i]].y == v);
            } else {
                let e = choose|e: u64| #[trigger]
                    view.entities.contains_key(e) && (
                    view.entities[e] matches SketchEntity::Circle { radius, .. } && radius == v);
                assert(view.entities.dom().contains(e));
                assert(ek.contains(e));
                let i = choose|i: int| 0 <= i < ek.len() && ek[i] == e;
                assert(view.entities[ek[i]] is Circle);
            }
        }
    }
    lemma_slot_order_distinct(pk, view.points.dom());
    lemma_slot_order_distinct(ek, view.entities.dom());
    pk.unique_seq_to_set();
    assert(pk.to_set() =~= view.points.dom());
    let circles = ek.filter(round);
    lemma_filter_distinct(ek, round);
    circles.unique_seq_to_set();
    assert(circles.to_set() =~= view.entities.dom().filter(round)) by {
        assert forall|k: u64| circles.to_set().contains(k) <==> view.entities.dom().filter(
            round,
        ).contains(k) by {
            if circles.contains(k) {
                ek.lemma_filter_contains_rev(round, k);
                let i = choose|i: int| 0 <= i < circles.len() && circles[i] == k;
                ek.lemma_filter_pred(round, i);
            }
            if view.entities.dom().contains(k) && round(k) {
                assert(ek.contains(k));
                let j = choose|j: int| 0 <= j < ek.len() && ek[j] == k;
                ek.lemma_filter_contains(round, j);
            }
        }
    }
}

/// A sketch without constraints has two degrees of freedom for each point and
/// one for each circle.
pub proof fn lemma_free_sketch<
    T: Copy,
    E: Fn(&Expr<T>, &Vec<T>) -> T,
    L: Fn(&T, &T) -> bool,
    G: Fn(&Vec<Vec<T>>) -> Vec<T>,
>(sketch: Sketch<T>, eval: E, less: L, singular: G, dof: nat)
    requires
        sketch.wf(),
        forall|k: u64| !(#[trigger] sketch@.constraints.contains_key(k)),
        is_dof(sketch@, eval, less, singular, dof),
    ensures
        dof == 2 * sketch@.points.len() + sketch@.entities.dom().filter(
            |e: u64| sketch@.entities[e] is Circle,
        ).len(),
{
    let view = sketch@;
    lemma_what_moves(sketch);
    lemma_every_constraint_counts(sketch);
    if all_equations(view).len() > 0 {
        let e = all_equations(view)[0];
        assert(all_equations(view).contains(e));
    }
    assert(problem_of(view, Seq::empty()).equations =~= all_equations(view));
}

/// With exact arithmetic the degrees of freedom are the variables less the
/// singular values that count: those above a fraction of the largest one. The
/// matrix has a row for each equation and a column for each variable.
pub proof fn lemma_degrees_of_freedom<
    T: Copy,
    E: Fn(&Expr<T>, &Vec<T>) -> T,
    L: Fn(&T, &T) -> bool,
    G: Fn(&Vec<Vec<T>>) -> Vec<T>,
>(num: spec_fn(T) -> real, sketch: Sketch<T>, eval: E, less: L, singular: G, dof: nat)
    requires
        exact(num, eval, less),
        sketch.wf(),
        all_equations(sketch@).len() > 0,
        is_dof(sketch@, eval, less, singular, dof),
    ensures
        exists|rows: Vec<Vec<T>>, values: Vec<T>| #[trigger]
            call_ensures(singular, (&rows,), values) && rows@.len() == all_equations(sketch@).len()
                && (forall|r: int|
                0 <= r < rows@.len() ==> (#[trigger] rows@[r])@.len() == moving_vars(sketch@).len())
                && {
                let counted = counting(num, values@).len();
                dof == if counted <= moving_vars(sketch@).len() {
                    (moving_vars(sketch@).len() - counted) as nat
                } else {
                    0
                }
            },
{
    let view = sketch@;
    let problem = problem_of(view, Seq::empty());
    let x = problem.vars.map_values(|v: VarId| view.vars[v.index as int]);
    assert(problem.equations =~= all_equations(view));
    let (rows, values, rank) = choose|rows: Vec<Vec<T>>, values: Vec<T>, rank: nat|
        {
            &&& #[trigger] call_ensures(singular, (&rows,), values)
            &&& is_jacobian(eval, problem, x, rows@)
            &&& #[trigger] is_rank(eval, less, values@, rank)
            &&& dof == if rank <= problem.vars.len() {
                (problem.vars.len() - rank) as nat
            } else {
                0nat
            }
        };
    assert forall|r: int| 0 <= r < rows@.len() implies (#[trigger] rows@[r])@.len() == moving_vars(
        view,
    ).len() by {
        assert(is_jacobian_row(eval, problem, x, problem.equations[r], rows@[r]@));
    }
    lemma_rank(num, eval, less, values@, rank);
}

/// The numbers that are larger than the largest magnitude over ten to the
/// tenth, if that is more than zero.
pub open spec fn counting<T>(num: spec_fn(T) -> real, values: Seq<T>) -> Seq<T> {
    let most = largest(num, values);
    values.filter(|v: T| most > 0real && num(v) > most * (1real / 10000000000real))
}

proof fn lemma_rank<T, E: Fn(&Expr<T>, &Vec<T>) -> T, L: Fn(&T, &T) -> bool>(
    num: spec_fn(T) -> real,
    eval: E,
    less: L,
    values: Seq<T>,
    rank: nat,
)
    requires
        exact(num, eval, less),
        is_rank(eval, less, values, rank),
    ensures
        rank == counting(num, values).len(),
{
    let (zero, most, positive) = choose|zero: T, most: T, positive: bool|
        {
            &&& #[trigger] call_ensures(less, (&zero, &most), positive)
            &&& computes(eval, |at: Reading<T>| 0real, Seq::empty(), zero)
            &&& is_largest(eval, values, most)
            &&& if positive {
                exists|least: T, flags: Seq<bool>|
                    {
                        &&& #[trigger] is_rank_threshold(eval, most, least)
                        &&& #[trigger] flags.len() == values.len()
                        &&& forall|i: int|
                            0 <= i < flags.len() ==> call_ensures(
                                less,
                                (&least, &values[i]),
                                #[trigger] flags[i],
                            )
                        &&& rank == count_set(flags)
                    }
            } else {
                rank == 0
            }
        };
    let here = reading(num, Seq::<T>::empty());
    let nothing = |at: Reading<T>| 0real;
    let big = |at: Reading<T>| largest(at.num, values);
    assert(computes(eval, nothing, Seq::empty(), zero));
    assert(num(zero) == nothing(here));
    assert(computes(eval, big, Seq::empty(), most));
    assert(num(most) == big(here));
    let all = largest(num, values);
    let counts = |v: T| all > 0real && num(v) > all * (1real / 10000000000real);
    if positive {
        let (least, flags) = choose|least: T, flags: Seq<bool>|
            {
                &&& #[trigger] is_rank_threshold(eval, most, least)
                &&& #[trigger] flags.len() == values.len()
                &&& forall|i: int|
                    0 <= i < flags.len() ==> call_ensures(
                        less,
                        (&least, &values[i]),
                        #[trigger] flags[i],
                    )
                &&& rank == count_set(flags)
            };
        let bound = |at: Reading<T>|
            (at.num)(most) * (1real / ((10_000_000_000i64 as int) as real));
        assert(computes(eval, bound, Seq::empty(), least));
        assert(num(least) == bound(here));
        assert forall|i: int| 0 <= i < values.len() implies #[trigger] flags[i] == counts(
            values[i],
        ) by {}
        lemma_count(values, counts, flags);
    } else {
        let none = Seq::new(values.len(), |i: int| false);
        lemma_count(values, counts, none);
        lemma_none(none);
    }
}

proof fn lemma_count<T>(values: Seq<T>, counts: spec_fn(T) -> bool, flags: Seq<bool>)
    requires
        flags.len() == values.len(),
        forall|i: int| 0 <= i < values.len() ==> #[trigger] flags[i] == counts(values[i]),
    ensures
        count_set(flags) == values.filter(counts).len(),
    decreases values.len(),
{
    reveal(Seq::filter);
    if values.len() > 0 {
        let (v, f) = (values.drop_last(), flags.drop_last());
        assert forall|i: int| 0 <= i < v.len() implies #[trigger] f[i] == counts(v[i]) by {
            assert(flags[i] == counts(values[i]));
        }
        lemma_count(v, counts, f);
        assert(flags[flags.len() - 1] == counts(values[values.len() - 1]));
    }
}

proof fn lemma_none(flags: Seq<bool>)
    requires
        forall|i: int| 0 <= i < flags.len() ==> !(#[trigger] flags[i]),
    ensures
        count_set(flags) == 0,
    decreases flags.len(),
{
    if flags.len() > 0 {
        let rest = flags.drop_last();
        assert forall|i: int| 0 <= i < rest.len() implies !(#[trigger] rest[i]) by {
            assert(!flags[i]);
        }
        lemma_none(rest);
        assert(!flags[flags.len() - 1]);
    }
}

/// One variable is elsewhere, and all others are where they were.
pub open spec fn shifted<T>(at: Reading<T>, v: VarId, by: real) -> Reading<T> {
    Reading {
        num: at.num,
        env: |w: VarId|
            if w == v {
                (at.env)(w) + by
            } else {
                (at.env)(w)
            },
    }
}

/// The matrix that is decomposed says how the residuals change: with exact
/// arithmetic, the number in a row and a column is half of the difference that
/// it makes to the residual of that row whether the variable of that column, and
/// no other, is one more or one less.
pub proof fn lemma_matrix<T, E: Fn(&Expr<T>, &Vec<T>) -> T, L: Fn(&T, &T) -> bool>(
    num: spec_fn(T) -> real,
    eval: E,
    less: L,
    problem: Problem<T>,
    x: Seq<T>,
    rows: Seq<Vec<T>>,
    r: int,
    c: int,
)
    requires
        exact(num, eval, less),
        is_jacobian(eval, problem, x, rows),
        0 <= r < rows.len(),
        0 <= c < problem.vars.len(),
        forall|d: int|
            0 <= d < problem.vars.len() && d != c ==> #[trigger] problem.vars[d] != problem.vars[c],
    ensures
        rows.len() == problem.equations.len(),
        rows[r]@.len() == problem.vars.len(),
        ({
            let at = reading(num, placed(problem.base, problem.vars, x));
            let v = problem.vars[c];
            2real * num(rows[r]@[c]) == weighted_residual(
                problem.equations[r],
                shifted(at, v, 1real),
            ) - weighted_residual(problem.equations[r], shifted(at, v, -1real))
        }),
{
    let values = placed(problem.base, problem.vars, x);
    let at = reading(num, values);
    let v = problem.vars[c];
    let eq = problem.equations[r];
    assert(is_jacobian_row(eval, problem, x, eq, rows[r]@));
    let meaning = |at: Reading<T>| column_derivative(eq, problem.vars, c, at);
    assert(computes(eval, meaning, values, rows[r]@[c]));
    assert(num(rows[r]@[c]) == meaning(at));
    assert forall|d: int| c < d < problem.vars.len() implies (#[trigger] problem.vars[d]).index
        != v.index by {
        assert(problem.vars[d] != problem.vars[c]);
    }
    assert(is_last_place(problem.vars, v.index, c));
    assert(moved(at, unit(v)).env =~= shifted(at, v, 1real).env);
    assert(moved_back(at, unit(v)).env =~= shifted(at, v, -1real).env);
    assert(moved(at, unit(v)) == shifted(at, v, 1real));
    assert(moved_back(at, unit(v)) == shifted(at, v, -1real));
}

/// The damping is always more than zero. With exact arithmetic it is ten times as
/// much after a step that is not better; after a better one it is a third, unless
/// it is small already.
pub proof fn lemma_damping<
    T,
    E: Fn(&Expr<T>, &Vec<T>) -> T,
    L: Fn(&T, &T) -> bool,
    F: Fn(&Vec<Vec<T>>) -> Option<Factors<T>>,
>(
    num: spec_fn(T) -> real,
    ops: SolverOps<E, L, F>,
    problem: Problem<T>,
    d: Factors<T>,
    place: Place<T>,
    better: bool,
    next: Place<T>,
)
    requires
        exact(num, ops.eval, ops.less),
        tries_step(ops, problem, d, place, better, next),
        num(place.damping) > 0real,
    ensures
        num(next.damping) > 0real,
        !better ==> num(next.damping) == 10real * num(place.damping) && next.x == place.x && next.f
            == place.f,
        better && num(place.damping) > 1real / 1000000000real ==> 3real * num(next.damping) == num(
            place.damping,
        ),
{
    if better {
        let meaning = |at: Reading<T>|
            larger(
                (at.num)(place.damping) / 3real,
                1real / ((INVERSE_LEAST_DAMPING as int) as real),
            );
        assert(computes(ops.eval, meaning, Seq::empty(), next.damping));
        assert(num(next.damping) == meaning(reading(num, Seq::empty())));
        let least = 1real / ((INVERSE_LEAST_DAMPING as int) as real);
        assert(least == 1real / 1000000000000real);
        let less = num(place.damping) / 3real;
        assert(0real < less && 3real * less == num(place.damping));
        assert(less > least || num(place.damping) <= 1real / 1000000000real);
        assert(num(next.damping) == larger(less, least));
    } else {
        let meaning = |at: Reading<T>| (at.num)(place.damping) * 10real;
        assert(computes(ops.eval, meaning, Seq::empty(), next.damping));
        assert(num(next.damping) == meaning(reading(num, Seq::empty())));
    }
}

/// How good a place is, is measured by the sum of the squares of all residuals.
pub proof fn lemma_measure<T>(num: spec_fn(T) -> real, f: Seq<T>)
    ensures
        norm_squared(num, f) == dot(numbers(num, f), numbers(num, f), f.len() as int),
        forall|i: int|
            0 <= i < f.len() ==> num(#[trigger] f[i]) * num(f[i]) <= norm_squared(num, f),
        norm_squared(num, f) >= 0real,
    decreases f.len(),
{
    if f.len() > 0 {
        let rest = f.drop_last();
        lemma_measure(num, rest);
        lemma_dot_prefix(numbers(num, f), numbers(num, rest), rest.len() as int);
        let last = num(f.last());
        assert(last * last >= 0real) by (nonlinear_arith);
        assert forall|i: int| 0 <= i < f.len() implies num(#[trigger] f[i]) * num(f[i])
            <= norm_squared(num, f) by {
            if i < rest.len() {
                assert(rest[i] == f[i]);
            }
        }
    }
}

proof fn lemma_dot_prefix(a: Seq<real>, b: Seq<real>, n: int)
    requires
        0 <= n <= a.len(),
        n <= b.len(),
        forall|i: int| 0 <= i < n ==> #[trigger] a[i] == b[i],
    ensures
        dot(a, a, n) == dot(b, b, n),
    decreases n,
{
    if n > 0 {
        lemma_dot_prefix(a, b, n - 1);
        assert(a[n - 1] == b[n - 1]);
    }
}

/// A drag pulls the point to the target along both axes, and counts a quarter of
/// what a constraint counts.
pub proof fn lemma_pull<T>(view: SketchView<T>, point: PointId, target: [T; 2], at: Reading<T>)
    ensures
        view.points.contains_key(point.raw) ==> {
            let equations = pull(view, point, target);
            let p = view.points[point.raw];
            &&& equations.len() == 2
            &&& 4real * weighted_residual(equations[0], at) == (at.env)(p.x) - (at.num)(target[0])
            &&& 4real * weighted_residual(equations[1], at) == (at.env)(p.y) - (at.num)(target[1])
        },
        !view.points.contains_key(point.raw) ==> pull(view, point, target).len() == 0,
{
    if view.points.contains_key(point.raw) {
        let p = view.points[point.raw];
        let equations = pull(view, point, target);
        let x = (at.env)(p.x) - (at.num)(target[0]);
        let y = (at.env)(p.y) - (at.num)(target[1]);
        assert(weighted_residual(equations[0], at) == x * (1real / 4real));
        assert(weighted_residual(equations[1], at) == y * (1real / 4real));
        assert(4real * (x * (1real / 4real)) == x) by (nonlinear_arith);
        assert(4real * (y * (1real / 4real)) == y) by (nonlinear_arith);
    }
}

/// Each place of the path is a better one that an iteration found from the one
/// before it.
pub open spec fn is_path<
    T,
    E: Fn(&Expr<T>, &Vec<T>) -> T,
    L: Fn(&T, &T) -> bool,
    F: Fn(&Vec<Vec<T>>) -> Option<Factors<T>>,
>(ops: SolverOps<E, L, F>, problem: Problem<T>, path: Seq<Place<T>>) -> bool {
    &&& path.len() > 0
    &&& forall|i: int|
        0 <= i < path.len() - 1 ==> turns(
            ops,
            problem,
            #[trigger] path[i],
            Turn::Moved(path[i + 1]),
        )
}

proof fn lemma_longer_path<
    T,
    E: Fn(&Expr<T>, &Vec<T>) -> T,
    L: Fn(&T, &T) -> bool,
    F: Fn(&Vec<Vec<T>>) -> Option<Factors<T>>,
>(ops: SolverOps<E, L, F>, problem: Problem<T>, place: Place<T>, rest: Seq<Place<T>>)
    requires
        is_path(ops, problem, rest),
        turns(ops, problem, place, Turn::Moved(rest[0])),
    ensures
        is_path(ops, problem, seq![place] + rest),
{
    let path = seq![place] + rest;
    assert forall|i: int| 0 <= i < path.len() - 1 implies turns(
        ops,
        problem,
        #[trigger] path[i],
        Turn::Moved(path[i + 1]),
    ) by {
        if i > 0 {
            assert(path[i] == rest[i - 1]);
            assert(path[i + 1] == rest[i]);
        } else {
            assert(path[1] == rest[0]);
        }
    }
}

proof fn lemma_path_from<
    T,
    E: Fn(&Expr<T>, &Vec<T>) -> T,
    L: Fn(&T, &T) -> bool,
    F: Fn(&Vec<Vec<T>>) -> Option<Factors<T>>,
>(
    ops: SolverOps<E, L, F>,
    problem: Problem<T>,
    place: Place<T>,
    iteration: nat,
    result: SolveResult<T>,
    x: Seq<T>,
) -> (path: Seq<Place<T>>)
    requires
        runs(ops, problem, place, iteration, result, x),
        iteration <= 50,
    ensures
        is_path(ops, problem, path),
        path[0] == place,
        path.last().x == x,
        iteration + path.len() <= 51,
        result matches SolveResult::Solved { iterations } ==> iterations + 1 == iteration
            + path.len(),
        result is DidNotConverge ==> iteration + path.len() == 51 || turns(
            ops,
            problem,
            path.last(),
            Turn::Stuck,
        ),
    decreases 50 - iteration,
{
    if iteration >= 50 {
        seq![place]
    } else {
        let turn = choose|turn: Turn<T>| #[trigger]
            turns(ops, problem, place, turn) && match turn {
                Turn::Converged => result == (SolveResult::<T>::Solved {
                    iterations: iteration as usize,
                }) && x == place.x,
                Turn::Stuck => gives_up(ops.eval, place, result, x),
                Turn::Moved(next) => runs(ops, problem, next, iteration + 1, result, x),
            };
        match turn {
            Turn::Moved(next) => {
                let rest = lemma_path_from(ops, problem, next, iteration + 1, result, x);
                lemma_longer_path(ops, problem, place, rest);
                let path = seq![place] + rest;
                assert(path.last() == rest.last());
                path
            },
            _ => seq![place],
        }
    }
}

/// A run goes from one better place to the next, and says as solved how many
/// steps that took. It gives up only where no better place is found, or after
/// fifty steps.
pub proof fn lemma_run<
    T,
    E: Fn(&Expr<T>, &Vec<T>) -> T,
    L: Fn(&T, &T) -> bool,
    F: Fn(&Vec<Vec<T>>) -> Option<Factors<T>>,
>(
    ops: SolverOps<E, L, F>,
    problem: Problem<T>,
    place: Place<T>,
    result: SolveResult<T>,
    x: Seq<T>,
)
    requires
        runs(ops, problem, place, 0, result, x),
    ensures
        exists|path: Seq<Place<T>>|
            {
                &&& #[trigger] is_path(ops, problem, path)
                &&& path[0] == place
                &&& path.last().x == x
                &&& result matches SolveResult::Solved { iterations } ==> path.len() == iterations
                    + 1
                &&& result is DidNotConverge ==> path.len() == 51 || turns(
                    ops,
                    problem,
                    path.last(),
                    Turn::Stuck,
                )
            },
{
    let path = lemma_path_from(ops, problem, place, 0, result, x);
    assert(is_path(ops, problem, path));
}

/// Each of the places is where a step that was not better has left the one
/// before it.
pub open spec fn are_tries<
    T,
    E: Fn(&Expr<T>, &Vec<T>) -> T,
    L: Fn(&T, &T) -> bool,
    F: Fn(&Vec<Vec<T>>) -> Option<Factors<T>>,
>(ops: SolverOps<E, L, F>, problem: Problem<T>, d: Factors<T>, tries: Seq<Place<T>>) -> bool {
    &&& tries.len() > 0
    &&& forall|i: int|
        0 <= i < tries.len() - 1 ==> tries_step(
            ops,
            problem,
            d,
            #[trigger] tries[i],
            false,
            tries[i + 1],
        )
}

/// Where none of a number of steps leads to a better place, all of them were
/// tried, one after the other.
pub proof fn lemma_stuck<
    T,
    E: Fn(&Expr<T>, &Vec<T>) -> T,
    L: Fn(&T, &T) -> bool,
    F: Fn(&Vec<Vec<T>>) -> Option<Factors<T>>,
>(
    ops: SolverOps<E, L, F>,
    problem: Problem<T>,
    d: Factors<T>,
    place: Place<T>,
    count: nat,
) -> (tries: Seq<Place<T>>)
    requires
        damped(ops, problem, d, place, count, None),
    ensures
        are_tries(ops, problem, d, tries),
        tries.len() == count + 1,
        tries[0] == place,
    decreases count,
{
    if count == 0 {
        seq![place]
    } else {
        let (better, there) = choose|better: bool, there: Place<T>| #[trigger]
            tries_step(ops, problem, d, place, better, there) && if better {
                None::<Place<T>> == Some(there)
            } else {
                damped(ops, problem, d, there, (count - 1) as nat, None)
            };
        let rest = lemma_stuck(ops, problem, d, there, (count - 1) as nat);
        let tries = seq![place] + rest;
        assert forall|i: int| 0 <= i < tries.len() - 1 implies tries_step(
            ops,
            problem,
            d,
            #[trigger] tries[i],
            false,
            tries[i + 1],
        ) by {
            if i > 0 {
                assert(tries[i] == rest[i - 1]);
                assert(tries[i + 1] == rest[i]);
            } else {
                assert(tries[1] == rest[0]);
            }
        }
        tries
    }
}

/// An iteration that finds no better place has tried twelve steps, where the
/// matrix could be decomposed.
pub proof fn lemma_twelve_tries<
    T,
    E: Fn(&Expr<T>, &Vec<T>) -> T,
    L: Fn(&T, &T) -> bool,
    F: Fn(&Vec<Vec<T>>) -> Option<Factors<T>>,
>(ops: SolverOps<E, L, F>, problem: Problem<T>, place: Place<T>)
    requires
        turns(ops, problem, place, Turn::Stuck),
        forall|rows: &Vec<Vec<T>>, factors: Option<Factors<T>>| #[trigger]
            call_ensures(ops.factor, (rows,), factors) ==> factors is Some,
    ensures
        exists|d: Factors<T>, tries: Seq<Place<T>>| #[trigger]
            are_tries(ops, problem, d, tries) && tries.len() == 13 && tries[0] == place,
{
    let (rows, factors) = choose|rows: Vec<Vec<T>>, factors: Option<Factors<T>>| #[trigger]
        call_ensures(ops.factor, (&rows,), factors) && is_jacobian(
            ops.eval,
            problem,
            place.x,
            rows@,
        ) && match factors {
            Some(d) => damped(ops, problem, d, place, MAX_DAMPING_RETRIES as nat, None),
            None => true,
        };
    let d = factors->Some_0;
    let tries = lemma_stuck(ops, problem, d, place, MAX_DAMPING_RETRIES as nat);
    assert(are_tries(ops, problem, d, tries));
}

/// A run begins where the variables are, with the residuals that they have there
/// and a damping of a ten thousandth. With exact arithmetic.
pub proof fn lemma_start<T, E: Fn(&Expr<T>, &Vec<T>) -> T, L: Fn(&T, &T) -> bool>(
    num: spec_fn(T) -> real,
    eval: E,
    less: L,
    problem: Problem<T>,
    place: Place<T>,
)
    requires
        exact(num, eval, less),
        is_start(eval, problem, place),
    ensures
        place.x.len() == problem.vars.len(),
        forall|c: int|
            0 <= c < place.x.len() ==> #[trigger] place.x[c]
                == problem.base[problem.vars[c].index as int],
        place.f.len() == problem.equations.len(),
        forall|r: int|
            0 <= r < place.f.len() ==> num(#[trigger] place.f[r]) == weighted_residual(
                problem.equations[r],
                reading(num, placed(problem.base, problem.vars, place.x)),
            ),
        num(place.damping) == 1real / 10000real,
{
    let values = placed(problem.base, problem.vars, place.x);
    assert forall|r: int| 0 <= r < place.f.len() implies num(#[trigger] place.f[r])
        == weighted_residual(problem.equations[r], reading(num, values)) by {
        assert(is_residual_value(eval, problem.equations[r], values, place.f[r]));
        let meaning = |at: Reading<T>| weighted_residual(problem.equations[r], at);
        assert(computes(eval, meaning, values, place.f[r]));
        assert(num(place.f[r]) == meaning(reading(num, values)));
    }
    assert(num(place.damping) == 1real / ((INVERSE_DAMPING as int) as real));
}

} // verus!
