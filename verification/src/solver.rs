//! The constraint solver: Levenberg-Marquardt on the variables of a sketch.
//!
//! The formulas, the course of the iteration and what becomes of the sketch
//! are fixed here. The caller supplies the arithmetic: the evaluation of
//! formulas, the comparison of numbers and the singular value decomposition of
//! a matrix.
use std::collections::HashMap;

use vstd::prelude::*;

use crate::arith::{
    compares_alike, compares_all, computes, eval_closed, evaluates_alike, evaluates_all, gives,
    is_reciprocal, means, reciprocal,
};
use crate::constraint::{
    EqKind, Equation, Partial, Weight, is_gradient, moved, moved_back, residual_of, slope_along,
    weighted_residual,
};
use crate::dimension::{is_stored_value, with_stored};
use crate::expr::{Expr, Reading, larger, magnitude};
use crate::ids::{DimensionId, EntityId, PointId, VarId};
use crate::lowering::{all_equations, equations_under};
use crate::sketch::{Sketch, SketchEntity, SketchView};
use crate::slots::{in_slot_order, slot_order};

verus! {

/// Largest number of iterations.
pub const MAX_ITERATIONS: usize = 50;

/// Largest number of dampings that are tried in one iteration.
pub const MAX_DAMPING_RETRIES: usize = 12;

/// The reciprocal of the tolerance: a sketch is solved when every residual is
/// smaller than one over this number.
pub const INVERSE_TOLERANCE: i64 = 1_000_000_000;

/// The reciprocal of the first damping.
pub const INVERSE_DAMPING: i64 = 10_000;

/// The reciprocal of the least damping.
pub const INVERSE_LEAST_DAMPING: i64 = 1_000_000_000_000;

/// How a run of the solver ended.
#[derive(Debug, Clone, Copy, PartialEq)]
pub enum SolveResult<T> {
    /// All residuals are below the tolerance.
    Solved {
        /// Number of iterations that were needed.
        iterations: usize,
    },
    /// The constraints contradict each other, or the iterations did not
    /// suffice. The variables have the best values that were found.
    DidNotConverge {
        /// The largest residual that is left.
        residual: T,
    },
}

/// The singular value decomposition of a matrix: the columns of `u` and the
/// rows of `v_t` belong to the singular values.
#[derive(Debug, Clone)]
pub struct Factors<T> {
    /// The left factor, by rows.
    pub u: Vec<Vec<T>>,
    /// The singular values.
    pub s: Vec<T>,
    /// The right factor, by rows.
    pub v_t: Vec<Vec<T>>,
}

impl<T> Factors<T> {
    /// The factors can be those of a matrix with the given numbers of rows and
    /// columns.
    pub open spec fn fits(&self, rows: int, columns: int) -> bool {
        &&& self.u@.len() == rows
        &&& forall|r: int| 0 <= r < rows ==> (#[trigger] self.u@[r])@.len() == self.s@.len()
        &&& self.v_t@.len() == self.s@.len()
        &&& forall|i: int| 0 <= i < self.s@.len() ==> (#[trigger] self.v_t@[i])@.len() == columns
    }
}

/// The arithmetic that a run of the solver uses.
pub struct SolverOps<E, L, F> {
    /// Evaluates a formula, given the values of the variables.
    pub eval: E,
    /// Whether one number is less than another.
    pub less: L,
    /// Decomposes a matrix, given by its rows.
    pub factor: F,
}

/// The rows all have the same number of columns.
pub open spec fn is_matrix<T>(rows: Seq<Vec<T>>, columns: int) -> bool {
    forall|r: int| 0 <= r < rows.len() ==> (#[trigger] rows[r])@.len() == columns
}

/// Every operation can be used, and the factors of a matrix fit it.
pub open spec fn ops_usable<
    T,
    E: Fn(&Expr<T>, &Vec<T>) -> T,
    L: Fn(&T, &T) -> bool,
    F: Fn(&Vec<Vec<T>>) -> Option<Factors<T>>,
>(ops: SolverOps<E, L, F>) -> bool {
    &&& evaluates_all(ops.eval)
    &&& compares_all(ops.less)
    &&& forall|rows: &Vec<Vec<T>>| #[trigger] call_requires(ops.factor, (rows,))
    &&& forall|rows: &Vec<Vec<T>>, columns: int, d: Factors<T>|
        #![trigger call_ensures(ops.factor, (rows,), Some(d)), is_matrix(rows@, columns)]
        call_ensures(ops.factor, (rows,), Some(d)) && is_matrix(rows@, columns) && rows@.len() > 0
            ==> d.fits(rows@.len() as int, columns)
}

/// What a run of the solver is about: all variables with their first values,
/// the variables that it moves, and the equations.
pub struct Problem<T> {
    /// First value of every variable.
    pub base: Seq<T>,
    /// The variables that are moved.
    pub vars: Seq<VarId>,
    /// The equations.
    pub equations: Seq<Equation<T>>,
}

/// The values of all variables when the given ones are set to `x`.
pub open spec fn placed<T>(base: Seq<T>, vars: Seq<VarId>, x: Seq<T>) -> Seq<T>
    decreases vars.len(),
{
    if vars.len() == 0 {
        base
    } else {
        placed(base, vars.drop_last(), x.drop_last()).update(vars.last().index as int, x.last())
    }
}

/// `f` are the residuals of all equations at `x`.
pub open spec fn are_residuals<T, E: Fn(&Expr<T>, &Vec<T>) -> T>(
    eval: E,
    problem: Problem<T>,
    x: Seq<T>,
    f: Seq<T>,
) -> bool {
    &&& f.len() == problem.equations.len()
    &&& forall|i: int|
        0 <= i < f.len() ==> is_residual_value(
            eval,
            problem.equations[i],
            placed(problem.base, problem.vars, x),
            #[trigger] f[i],
        )
}

/// `r` is the residual of an equation where the variables have the values.
pub open spec fn is_residual_value<T, E: Fn(&Expr<T>, &Vec<T>) -> T>(
    eval: E,
    eq: Equation<T>,
    values: Seq<T>,
    r: T,
) -> bool {
    &&& computes(eval, |at: Reading<T>| weighted_residual(eq, at), values, r)
    &&& gives(eval, eq.formula(), values, r)
}

/// The motion of one variable by one, and of no other.
pub open spec fn unit(v: VarId) -> spec_fn(VarId) -> real {
    |w: VarId|
        if w == v {
            1real
        } else {
            0real
        }
}

/// The derivative of a weighted residual by a variable.
pub open spec fn derivative<T>(eq: Equation<T>, v: VarId, at: Reading<T>) -> real {
    (weighted_residual(eq, moved(at, unit(v))) - weighted_residual(eq, moved_back(at, unit(v))))
        / 2real
}

/// The entry of an equation in a column of the matrix of derivatives: the
/// derivative by the variable of the column. Where the list names a variable
/// more than once, all of it stands in the last of its columns.
pub open spec fn column_derivative<T>(
    eq: Equation<T>,
    vars: Seq<VarId>,
    c: int,
    at: Reading<T>,
) -> real {
    if is_last_place(vars, vars[c].index, c) {
        derivative(eq, vars[c], at)
    } else {
        0real
    }
}

/// `rows` is the matrix of all derivatives at `x`: a row for each equation, a
/// column for each variable that is moved.
pub open spec fn is_jacobian<T, E: Fn(&Expr<T>, &Vec<T>) -> T>(
    eval: E,
    problem: Problem<T>,
    x: Seq<T>,
    rows: Seq<Vec<T>>,
) -> bool {
    &&& rows.len() == problem.equations.len()
    &&& forall|r: int|
        0 <= r < rows.len() ==> is_jacobian_row(
            eval,
            problem,
            x,
            problem.equations[r],
            (#[trigger] rows[r])@,
        )
}

/// `row` holds the derivatives of one equation at `x`.
pub open spec fn is_jacobian_row<T, E: Fn(&Expr<T>, &Vec<T>) -> T>(
    eval: E,
    problem: Problem<T>,
    x: Seq<T>,
    eq: Equation<T>,
    row: Seq<T>,
) -> bool {
    &&& row.len() == problem.vars.len()
    &&& forall|c: int|
        0 <= c < row.len() ==> computes(
            eval,
            |at: Reading<T>| column_derivative(eq, problem.vars, c, at),
            placed(problem.base, problem.vars, x),
            #[trigger] row[c],
        )
}

/// The largest magnitude of the numbers.
pub open spec fn largest<T>(num: spec_fn(T) -> real, f: Seq<T>) -> real
    decreases f.len(),
{
    if f.len() == 0 {
        0real
    } else {
        larger(largest(num, f.drop_last()), magnitude(num(f.last())))
    }
}

/// The sum of the squares of the numbers.
pub open spec fn norm_squared<T>(num: spec_fn(T) -> real, f: Seq<T>) -> real
    decreases f.len(),
{
    if f.len() == 0 {
        0real
    } else {
        norm_squared(num, f.drop_last()) + num(f.last()) * num(f.last())
    }
}

/// The largest magnitude of the numbers, as a formula.
pub open spec fn largest_formula<T>(f: Seq<T>) -> Expr<T>
    decreases f.len(),
{
    if f.len() == 0 {
        Expr::Ratio(0, 1)
    } else {
        Expr::Max(
            Box::new(largest_formula(f.drop_last())),
            Box::new(Expr::Abs(Box::new(Expr::Value(f.last())))),
        )
    }
}

/// `size` is the largest magnitude of the residuals.
pub open spec fn is_largest<T, E: Fn(&Expr<T>, &Vec<T>) -> T>(eval: E, f: Seq<T>, size: T) -> bool {
    &&& computes(eval, |at: Reading<T>| largest(at.num, f), Seq::empty(), size)
    &&& gives(eval, largest_formula(f), Seq::empty(), size)
}

/// `norm` is the sum of the squares of the residuals.
pub open spec fn is_norm<T, E: Fn(&Expr<T>, &Vec<T>) -> T>(eval: E, f: Seq<T>, norm: T) -> bool {
    computes(eval, |at: Reading<T>| norm_squared(at.num, f), Seq::empty(), norm)
}

/// `found` is whether all residuals are found to be below the tolerance.
pub open spec fn within_tolerance<T, E: Fn(&Expr<T>, &Vec<T>) -> T, L: Fn(&T, &T) -> bool>(
    eval: E,
    less: L,
    f: Seq<T>,
    found: bool,
) -> bool {
    exists|size: T, tolerance: T| #[trigger]
        call_ensures(less, (&size, &tolerance), found) && is_largest(eval, f, size)
            && is_reciprocal(eval, INVERSE_TOLERANCE, tolerance)
}

/// `found` is whether the residuals `g` are found to be better than `f`.
pub open spec fn improves<T, E: Fn(&Expr<T>, &Vec<T>) -> T, L: Fn(&T, &T) -> bool>(
    eval: E,
    less: L,
    g: Seq<T>,
    f: Seq<T>,
    found: bool,
) -> bool {
    exists|new_norm: T, norm: T| #[trigger]
        call_ensures(less, (&new_norm, &norm), found) && is_norm(eval, g, new_norm) && is_norm(
            eval,
            f,
            norm,
        )
}

/// `next` is the damping after a step that was kept: a third, but not less
/// than the least damping.
pub open spec fn is_relaxed<T, E: Fn(&Expr<T>, &Vec<T>) -> T>(eval: E, damping: T, next: T) -> bool {
    computes(
        eval,
        |at: Reading<T>|
            larger(
                (at.num)(damping) / 3real,
                1real / ((INVERSE_LEAST_DAMPING as int) as real),
            ),
        Seq::empty(),
        next,
    )
}

/// `next` is the damping after a step that was rejected: ten times as much.
pub open spec fn is_raised<T, E: Fn(&Expr<T>, &Vec<T>) -> T>(eval: E, damping: T, next: T) -> bool {
    computes(eval, |at: Reading<T>| (at.num)(damping) * 10real, Seq::empty(), next)
}

/// The residuals along the direction of a singular value: the first `n` terms
/// of the product of a column of `u` with them.
pub open spec fn along<T>(num: spec_fn(T) -> real, u: Seq<Vec<T>>, f: Seq<T>, i: int, n: int) -> real
    decreases n,
{
    if n <= 0 {
        0real
    } else {
        along(num, u, f, i, n - 1) + num(u[n - 1]@[i]) * num(f[n - 1])
    }
}

/// How far a damped step goes along the direction of a singular value.
pub open spec fn damped_length<T>(
    num: spec_fn(T) -> real,
    d: Factors<T>,
    f: Seq<T>,
    damping: T,
    i: int,
) -> real {
    let s = num(d.s@[i]);
    along(num, d.u@, f, i, f.len() as int) * (s / (s * s + num(damping)))
}

/// One coordinate of a move by the given lengths: the first `n` terms of the
/// product of a column of `v_t` with them.
pub open spec fn across<T>(
    num: spec_fn(T) -> real,
    v_t: Seq<Vec<T>>,
    lengths: Seq<T>,
    c: int,
    n: int,
) -> real
    decreases n,
{
    if n <= 0 {
        0real
    } else {
        across(num, v_t, lengths, c, n - 1) + num(v_t[n - 1]@[c]) * num(lengths[n - 1])
    }
}

/// `lengths` are how far a damped step goes along each direction.
pub open spec fn are_lengths<T, E: Fn(&Expr<T>, &Vec<T>) -> T>(
    eval: E,
    d: Factors<T>,
    f: Seq<T>,
    damping: T,
    lengths: Seq<T>,
) -> bool {
    &&& lengths.len() == d.s@.len()
    &&& forall|i: int|
        0 <= i < lengths.len() ==> computes(
            eval,
            |at: Reading<T>| damped_length(at.num, d, f, damping, i),
            Seq::empty(),
            #[trigger] lengths[i],
        )
}

/// `there` is where a move from `x` by the given lengths leads.
pub open spec fn is_moved<T, E: Fn(&Expr<T>, &Vec<T>) -> T>(
    eval: E,
    d: Factors<T>,
    x: Seq<T>,
    lengths: Seq<T>,
    there: Seq<T>,
) -> bool {
    &&& there.len() == x.len()
    &&& forall|c: int|
        0 <= c < there.len() ==> computes(
            eval,
            |at: Reading<T>|
                (at.num)(x[c]) - across(at.num, d.v_t@, lengths, c, lengths.len() as int),
            Seq::empty(),
            #[trigger] there[c],
        )
}

/// `there` is where the damped step from `x` leads: along each direction, the
/// residuals times the singular value over its square plus the damping.
pub open spec fn proposes<T, E: Fn(&Expr<T>, &Vec<T>) -> T>(
    eval: E,
    d: Factors<T>,
    f: Seq<T>,
    x: Seq<T>,
    damping: T,
    there: Seq<T>,
) -> bool {
    exists|lengths: Seq<T>| #[trigger]
        are_lengths(eval, d, f, damping, lengths) && is_moved(eval, d, x, lengths, there)
}

/// Where the variables stand: their values, the residuals there and the
/// damping.
pub struct Place<T> {
    /// Values of the variables that are moved.
    pub x: Seq<T>,
    /// The residuals.
    pub f: Seq<T>,
    /// The damping.
    pub damping: T,
}

/// One damped step from `place`: to `next` if that is better, else the damping
/// is raised and nothing moves.
pub open spec fn tries_step<
    T,
    E: Fn(&Expr<T>, &Vec<T>) -> T,
    L: Fn(&T, &T) -> bool,
    F: Fn(&Vec<Vec<T>>) -> Option<Factors<T>>,
>(
    ops: SolverOps<E, L, F>,
    problem: Problem<T>,
    d: Factors<T>,
    place: Place<T>,
    better: bool,
    next: Place<T>,
) -> bool {
    exists|x: Seq<T>, f: Seq<T>|
        {
            &&& #[trigger] proposes(ops.eval, d, place.f, place.x, place.damping, x)
            &&& #[trigger] are_residuals(ops.eval, problem, x, f)
            &&& improves(ops.eval, ops.less, f, place.f, better)
            &&& if better {
                &&& next.x == x
                &&& next.f == f
                &&& is_relaxed(ops.eval, place.damping, next.damping)
            } else {
                &&& next.x == place.x
                &&& next.f == place.f
                &&& is_raised(ops.eval, place.damping, next.damping)
            }
        }
}

/// Damped steps from `place`, at most `tries` of them: to `next` as soon as
/// one is better, and nowhere if none is.
pub open spec fn damped<
    T,
    E: Fn(&Expr<T>, &Vec<T>) -> T,
    L: Fn(&T, &T) -> bool,
    F: Fn(&Vec<Vec<T>>) -> Option<Factors<T>>,
>(
    ops: SolverOps<E, L, F>,
    problem: Problem<T>,
    d: Factors<T>,
    place: Place<T>,
    tries: nat,
    next: Option<Place<T>>,
) -> bool
    decreases tries,
{
    if tries == 0 {
        next is None
    } else {
        exists|better: bool, there: Place<T>| #[trigger]
            tries_step(ops, problem, d, place, better, there) && if better {
                next == Some(there)
            } else {
                damped(ops, problem, d, there, (tries - 1) as nat, next)
            }
    }
}

/// What one iteration comes to.
pub enum Turn<T> {
    /// All residuals are below the tolerance.
    Converged,
    /// No step is better.
    Stuck,
    /// A better place was found.
    Moved(Place<T>),
}

/// One iteration from `place` comes to `turn`.
pub open spec fn turns<
    T,
    E: Fn(&Expr<T>, &Vec<T>) -> T,
    L: Fn(&T, &T) -> bool,
    F: Fn(&Vec<Vec<T>>) -> Option<Factors<T>>,
>(
    ops: SolverOps<E, L, F>,
    problem: Problem<T>,
    place: Place<T>,
    turn: Turn<T>,
) -> bool {
    &&& within_tolerance(ops.eval, ops.less, place.f, turn is Converged)
    &&& turn !is Converged ==> exists|rows: Vec<Vec<T>>, factors: Option<Factors<T>>| #[trigger]
        call_ensures(ops.factor, (&rows,), factors) && is_jacobian(
            ops.eval,
            problem,
            place.x,
            rows@,
        ) && match factors {
            Some(d) => damped(
                ops,
                problem,
                d,
                place,
                MAX_DAMPING_RETRIES as nat,
                match turn {
                    Turn::Moved(next) => Some(next),
                    _ => None,
                },
            ),
            None => turn is Stuck,
        }
}

/// The iterations from `place` on, the first of which is number `iteration`,
/// end with `result` and the variables at `x`.
pub open spec fn runs<
    T,
    E: Fn(&Expr<T>, &Vec<T>) -> T,
    L: Fn(&T, &T) -> bool,
    F: Fn(&Vec<Vec<T>>) -> Option<Factors<T>>,
>(
    ops: SolverOps<E, L, F>,
    problem: Problem<T>,
    place: Place<T>,
    iteration: nat,
    result: SolveResult<T>,
    x: Seq<T>,
) -> bool
    decreases MAX_ITERATIONS - iteration,
{
    if iteration >= MAX_ITERATIONS {
        stops(ops.eval, ops.less, place, iteration, result, x)
    } else {
        exists|turn: Turn<T>| #[trigger]
            turns(ops, problem, place, turn) && match turn {
                Turn::Converged => result == (SolveResult::<T>::Solved {
                    iterations: iteration as usize,
                }) && x == place.x,
                Turn::Stuck => gives_up(ops.eval, place, result, x),
                Turn::Moved(next) => runs(ops, problem, next, iteration + 1, result, x),
            }
    }
}

/// No iteration is left: the run ends at `place`, as solved if all residuals
/// are below the tolerance there.
pub open spec fn stops<T, E: Fn(&Expr<T>, &Vec<T>) -> T, L: Fn(&T, &T) -> bool>(
    eval: E,
    less: L,
    place: Place<T>,
    iteration: nat,
    result: SolveResult<T>,
    x: Seq<T>,
) -> bool {
    exists|found: bool| #[trigger]
        within_tolerance(eval, less, place.f, found) && if found {
            result == (SolveResult::<T>::Solved { iterations: iteration as usize }) && x == place.x
        } else {
            gives_up(eval, place, result, x)
        }
}

/// The run ends at `place` without convergence.
pub open spec fn gives_up<T, E: Fn(&Expr<T>, &Vec<T>) -> T>(
    eval: E,
    place: Place<T>,
    result: SolveResult<T>,
    x: Seq<T>,
) -> bool {
    &&& x == place.x
    &&& result matches SolveResult::DidNotConverge { residual } && is_largest(
        eval,
        place.f,
        residual,
    )
}

/// The variables of the points under the given keys.
pub open spec fn point_vars<T>(view: SketchView<T>, keys: Seq<u64>) -> Seq<VarId>
    decreases keys.len(),
{
    if keys.len() == 0 {
        seq![]
    } else {
        let p = view.points[keys.last()];
        point_vars(view, keys.drop_last()).push(p.x).push(p.y)
    }
}

/// The variables of the circles under the given keys.
pub open spec fn radius_vars<T>(view: SketchView<T>, keys: Seq<u64>) -> Seq<VarId>
    decreases keys.len(),
{
    if keys.len() == 0 {
        seq![]
    } else {
        let rest = radius_vars(view, keys.drop_last());
        match view.entities[keys.last()] {
            SketchEntity::Circle { radius, .. } => rest.push(radius),
            SketchEntity::Line { .. } => rest,
        }
    }
}

/// The variables that a run moves: those of all points, then the radii of all
/// circles, in slot order.
pub open spec fn moving_vars<T>(view: SketchView<T>) -> Seq<VarId> {
    point_vars(view, slot_order(view.points.dom())) + radius_vars(
        view,
        slot_order(view.entities.dom()),
    )
}

/// What solving a sketch with additional equations is about.
pub open spec fn problem_of<T>(view: SketchView<T>, extra: Seq<Equation<T>>) -> Problem<T> {
    Problem {
        base: view.vars,
        vars: moving_vars(view),
        equations: all_equations(view) + extra,
    }
}

/// Where a run begins: at the present values of the variables.
pub open spec fn is_start<T, E: Fn(&Expr<T>, &Vec<T>) -> T>(
    eval: E,
    problem: Problem<T>,
    place: Place<T>,
) -> bool {
    &&& place.x == problem.vars.map_values(|v: VarId| problem.base[v.index as int])
    &&& are_residuals(eval, problem, place.x, place.f)
    &&& is_reciprocal(eval, INVERSE_DAMPING, place.damping)
}

/// A run of the solver ends with `result` and the variables at `x`.
pub open spec fn ends<
    T,
    E: Fn(&Expr<T>, &Vec<T>) -> T,
    L: Fn(&T, &T) -> bool,
    F: Fn(&Vec<Vec<T>>) -> Option<Factors<T>>,
>(ops: SolverOps<E, L, F>, problem: Problem<T>, result: SolveResult<T>, x: Seq<T>) -> bool {
    exists|place: Place<T>| #[trigger]
        runs(ops, problem, place, 0, result, x) && is_start(ops.eval, problem, place)
}

/// Solving the sketch with additional equations ends with `result` and the
/// sketch `after`: only variables that points and circles own have moved.
pub open spec fn solves<
    T,
    E: Fn(&Expr<T>, &Vec<T>) -> T,
    L: Fn(&T, &T) -> bool,
    F: Fn(&Vec<Vec<T>>) -> Option<Factors<T>>,
>(
    ops: SolverOps<E, L, F>,
    before: SketchView<T>,
    extra: Seq<Equation<T>>,
    result: SolveResult<T>,
    after: SketchView<T>,
) -> bool {
    let problem = problem_of(before, extra);
    if problem.equations.len() == 0 {
        result == (SolveResult::<T>::Solved { iterations: 0 }) && after == before
    } else {
        exists|x: Seq<T>| #[trigger]
            ends(ops, problem, result, x) && x.len() == problem.vars.len() && after == (SketchView {
                vars: placed(before.vars, problem.vars, x),
                ..before
            })
    }
}

/// A copy of a list of numbers.
fn copied<T: Copy>(list: &Vec<T>) -> (copy: Vec<T>)
    ensures
        copy@ == list@,
{
    let mut copy: Vec<T> = Vec::new();
    let mut i: usize = 0;
    while i < list.len()
        invariant
            i <= list@.len(),
            copy@ == list@.take(i as int),
        decreases list@.len() - i,
    {
        copy.push(list[i]);
        assert(list@.take(i + 1) =~= list@.take(i as int).push(list@[i as int]));
        i = i + 1;
    }
    assert(list@.take(i as int) =~= list@);
    copy
}

/// The largest magnitude of the residuals.
fn largest_of<T: Copy, E: Fn(&Expr<T>, &Vec<T>) -> T>(eval: &E, f: &Vec<T>) -> (size: T)
    requires
        evaluates_all(*eval),
    ensures
        is_largest(*eval, f@, size),
{
    let mut e: Expr<T> = Expr::ratio(0, 1);
    assert((0 as int) as real / (1 as int) as real == 0real);
    let mut i: usize = 0;
    while i < f.len()
        invariant
            i <= f@.len(),
            e == largest_formula(f@.take(i as int)),
            forall|at: Reading<T>| #[trigger] e.eval(at) == largest(at.num, f@.take(i as int)),
        decreases f@.len() - i,
    {
        e = Expr::max_of(e, Expr::abs(Expr::value(f[i])));
        assert(f@.take(i + 1).drop_last() =~= f@.take(i as int));
        i = i + 1;
    }
    assert(f@.take(i as int) =~= f@);
    eval_closed(eval, e, Ghost(|at: Reading<T>| largest(at.num, f@)))
}

/// The sum of the squares of the residuals.
fn norm_of<T: Copy, E: Fn(&Expr<T>, &Vec<T>) -> T>(eval: &E, f: &Vec<T>) -> (norm: T)
    requires
        evaluates_all(*eval),
    ensures
        is_norm(*eval, f@, norm),
{
    let mut e: Expr<T> = Expr::ratio(0, 1);
    assert((0 as int) as real / (1 as int) as real == 0real);
    let mut i: usize = 0;
    while i < f.len()
        invariant
            i <= f@.len(),
            forall|at: Reading<T>| #[trigger] e.eval(at) == norm_squared(at.num, f@.take(i as int)),
        decreases f@.len() - i,
    {
        e = Expr::sum(e, Expr::product(Expr::value(f[i]), Expr::value(f[i])));
        assert(f@.take(i + 1).drop_last() =~= f@.take(i as int));
        i = i + 1;
    }
    assert(f@.take(i as int) =~= f@);
    eval_closed(eval, e, Ghost(|at: Reading<T>| norm_squared(at.num, f@)))
}

fn relaxed<T: Copy, E: Fn(&Expr<T>, &Vec<T>) -> T>(eval: &E, damping: T) -> (next: T)
    requires
        evaluates_all(*eval),
    ensures
        is_relaxed(*eval, damping, next),
{
    assert((3 as int) as real / (1 as int) as real == 3real);
    assert((1 as int) as real == 1real);
    let third = Expr::quotient(Expr::value(damping), Expr::ratio(3, 1));
    let e = Expr::max_of(third, Expr::ratio(1, INVERSE_LEAST_DAMPING));
    eval_closed(
        eval,
        e,
        Ghost(
            |at: Reading<T>|
                larger(
                    (at.num)(damping) / 3real,
                    1real / ((INVERSE_LEAST_DAMPING as int) as real),
                ),
        ),
    )
}

fn raised<T: Copy, E: Fn(&Expr<T>, &Vec<T>) -> T>(eval: &E, damping: T) -> (next: T)
    requires
        evaluates_all(*eval),
    ensures
        is_raised(*eval, damping, next),
{
    assert((10 as int) as real / (1 as int) as real == 10real);
    let e = Expr::product(Expr::value(damping), Expr::ratio(10, 1));
    eval_closed(eval, e, Ghost(|at: Reading<T>| (at.num)(damping) * 10real))
}

/// How far a damped step goes along the direction of a singular value.
fn damped_length_of<T: Copy, E: Fn(&Expr<T>, &Vec<T>) -> T>(
    eval: &E,
    d: &Factors<T>,
    f: &Vec<T>,
    damping: T,
    i: usize,
) -> (length: T)
    requires
        evaluates_all(*eval),
        d.u@.len() == f@.len(),
        forall|r: int| 0 <= r < d.u@.len() ==> (#[trigger] d.u@[r])@.len() == d.s@.len(),
        i < d.s@.len(),
    ensures
        computes(
            *eval,
            |at: Reading<T>| damped_length(at.num, *d, f@, damping, i as int),
            Seq::empty(),
            length,
        ),
{
    let mut sum: Expr<T> = Expr::ratio(0, 1);
    assert((0 as int) as real / (1 as int) as real == 0real);
    let mut r: usize = 0;
    while r < f.len()
        invariant
            d.u@.len() == f@.len(),
            forall|r: int| 0 <= r < d.u@.len() ==> (#[trigger] d.u@[r])@.len() == d.s@.len(),
            i < d.s@.len(),
            r <= f@.len(),
            forall|at: Reading<T>| #[trigger]
                sum.eval(at) == along(at.num, d.u@, f@, i as int, r as int),
        decreases f@.len() - r,
    {
        let ghost before = sum;
        sum = Expr::sum(sum, Expr::product(Expr::value(d.u[r][i]), Expr::value(f[r])));
        r = r + 1;
        assert forall|at: Reading<T>| #[trigger] sum.eval(at) == along(
            at.num,
            d.u@,
            f@,
            i as int,
            r as int,
        ) by {
            assert(before.eval(at) == along(at.num, d.u@, f@, i as int, r - 1));
        }
    }
    let s = d.s[i];
    let e = Expr::product(
        sum,
        Expr::quotient(
            Expr::value(s),
            Expr::sum(Expr::product(Expr::value(s), Expr::value(s)), Expr::value(damping)),
        ),
    );
    assert forall|at: Reading<T>| #[trigger] e.eval(at) == damped_length(
        at.num,
        *d,
        f@,
        damping,
        i as int,
    ) by {
        assert(sum.eval(at) == along(at.num, d.u@, f@, i as int, f@.len() as int));
    }
    eval_closed(
        eval,
        e,
        Ghost(|at: Reading<T>| damped_length(at.num, *d, f@, damping, i as int)),
    )
}

/// One coordinate of where a move leads.
fn moved_coordinate<T: Copy, E: Fn(&Expr<T>, &Vec<T>) -> T>(
    eval: &E,
    d: &Factors<T>,
    x: &Vec<T>,
    lengths: &Vec<T>,
    c: usize,
) -> (there: T)
    requires
        evaluates_all(*eval),
        d.v_t@.len() == lengths@.len(),
        forall|i: int| 0 <= i < d.v_t@.len() ==> (#[trigger] d.v_t@[i])@.len() == x@.len(),
        c < x@.len(),
    ensures
        computes(
            *eval,
            |at: Reading<T>|
                (at.num)(x@[c as int]) - across(
                    at.num,
                    d.v_t@,
                    lengths@,
                    c as int,
                    lengths@.len() as int,
                ),
            Seq::empty(),
            there,
        ),
{
    let mut sum: Expr<T> = Expr::ratio(0, 1);
    assert((0 as int) as real / (1 as int) as real == 0real);
    let mut i: usize = 0;
    while i < lengths.len()
        invariant
            d.v_t@.len() == lengths@.len(),
            forall|i: int| 0 <= i < d.v_t@.len() ==> (#[trigger] d.v_t@[i])@.len() == x@.len(),
            c < x@.len(),
            i <= lengths@.len(),
            forall|at: Reading<T>| #[trigger]
                sum.eval(at) == across(at.num, d.v_t@, lengths@, c as int, i as int),
        decreases lengths@.len() - i,
    {
        let ghost before = sum;
        sum = Expr::sum(sum, Expr::product(Expr::value(d.v_t[i][c]), Expr::value(lengths[i])));
        i = i + 1;
        assert forall|at: Reading<T>| #[trigger] sum.eval(at) == across(
            at.num,
            d.v_t@,
            lengths@,
            c as int,
            i as int,
        ) by {
            assert(before.eval(at) == across(at.num, d.v_t@, lengths@, c as int, i - 1));
        }
    }
    let e = Expr::difference(Expr::value(x[c]), sum);
    let ghost meaning = |at: Reading<T>|
        (at.num)(x@[c as int]) - across(
            at.num,
            d.v_t@,
            lengths@,
            c as int,
            lengths@.len() as int,
        );
    assert forall|at: Reading<T>| #[trigger] e.eval(at) == meaning(at) by {
        assert(sum.eval(at) == across(
            at.num,
            d.v_t@,
            lengths@,
            c as int,
            lengths@.len() as int,
        ));
    }
    eval_closed(eval, e, Ghost(meaning))
}

/// Where the damped step from `x` leads, given the residuals there and the
/// decomposition of the matrix of derivatives.
pub fn damped_step<T: Copy, E: Fn(&Expr<T>, &Vec<T>) -> T>(
    eval: &E,
    d: &Factors<T>,
    f: &Vec<T>,
    x: &Vec<T>,
    damping: T,
) -> (there: Vec<T>)
    requires
        evaluates_all(*eval),
        d.fits(f@.len() as int, x@.len() as int),
    ensures
        proposes(*eval, *d, f@, x@, damping, there@),
        there@.len() == x@.len(),
{
    let mut lengths: Vec<T> = Vec::new();
    let mut i: usize = 0;
    while i < d.s.len()
        invariant
            evaluates_all(*eval),
            d.fits(f@.len() as int, x@.len() as int),
            i <= d.s@.len(),
            lengths@.len() == i,
            forall|k: int|
                0 <= k < i ==> computes(
                    *eval,
                    |at: Reading<T>| damped_length(at.num, *d, f@, damping, k),
                    Seq::empty(),
                    #[trigger] lengths@[k],
                ),
        decreases d.s@.len() - i,
    {
        lengths.push(damped_length_of(eval, d, f, damping, i));
        i = i + 1;
    }
    assert(are_lengths(*eval, *d, f@, damping, lengths@));
    let mut there: Vec<T> = Vec::new();
    let mut c: usize = 0;
    while c < x.len()
        invariant
            evaluates_all(*eval),
            d.fits(f@.len() as int, x@.len() as int),
            lengths@.len() == d.s@.len(),
            c <= x@.len(),
            there@.len() == c,
            forall|k: int|
                0 <= k < c ==> computes(
                    *eval,
                    |at: Reading<T>|
                        (at.num)(x@[k]) - across(
                            at.num,
                            d.v_t@,
                            lengths@,
                            k,
                            lengths@.len() as int,
                        ),
                    Seq::empty(),
                    #[trigger] there@[k],
                ),
        decreases x@.len() - c,
    {
        there.push(moved_coordinate(eval, d, x, &lengths, c));
        c = c + 1;
    }
    assert(is_moved(*eval, *d, x@, lengths@, there@));
    there
}

/// `c` is the last place of a variable in a list.
pub open spec fn is_last_place(vars: Seq<VarId>, v: usize, c: int) -> bool {
    &&& 0 <= c < vars.len()
    &&& vars[c].index == v
    &&& forall|d: int| c < d < vars.len() ==> (#[trigger] vars[d]).index != v
}

/// Column of each variable: the last place where the list names it.
pub fn var_index(vars: &Vec<VarId>) -> (index: HashMap<usize, usize>)
    ensures
        forall|v: usize| #[trigger] index@.contains_key(v) <==> vars@.contains(VarId { index: v }),
        forall|v: usize| #[trigger]
            index@.contains_key(v) ==> is_last_place(vars@, v, index@[v] as int),
{
    broadcast use vstd::std_specs::hash::group_hash_axioms;

    let mut index: HashMap<usize, usize> = HashMap::new();
    let mut i: usize = 0;
    while i < vars.len()
        invariant
            i <= vars@.len(),
            forall|c: int| 0 <= c < i ==> index@.contains_key((#[trigger] vars@[c]).index),
            forall|v: usize| #[trigger]
                index@.contains_key(v) ==> is_last_place(vars@.take(i as int), v, index@[v] as int),
        decreases vars@.len() - i,
    {
        broadcast use vstd::std_specs::hash::group_hash_axioms;

        let ghost before = index@;
        let ghost shorter = vars@.take(i as int);
        index.insert(vars[i].index, i);
        proof {
            let longer = vars@.take(i + 1);
            assert(longer =~= shorter.push(vars@[i as int]));
            assert forall|v: usize| #[trigger] index@.contains_key(v) implies is_last_place(
                longer,
                v,
                index@[v] as int,
            ) by {
                if v != vars@[i as int].index {
                    assert(before.contains_key(v));
                    assert(is_last_place(shorter, v, before[v] as int));
                }
            }
        }
        i = i + 1;
    }
    proof {
        assert(vars@.take(i as int) =~= vars@);
        assert forall|v: usize| #[trigger] index@.contains_key(v) <==> vars@.contains(
            VarId { index: v },
        ) by {
            if index@.contains_key(v) {
                assert(vars@[index@[v] as int] == (VarId { index: v }));
            }
            if vars@.contains(VarId { index: v }) {
                let c = choose|c: int| 0 <= c < vars@.len() && vars@[c] == (VarId { index: v });
                assert(index@.contains_key(vars@[c].index));
            }
        }
    }
    index
}

/// Placing values moves the given variables, each to its own value, and no
/// other.
pub proof fn lemma_placed<T>(base: Seq<T>, vars: Seq<VarId>, x: Seq<T>)
    requires
        vars.len() == x.len(),
        vars.no_duplicates(),
        forall|i: int| 0 <= i < vars.len() ==> (#[trigger] vars[i]).index < base.len(),
    ensures
        placed(base, vars, x).len() == base.len(),
        forall|i: int|
            0 <= i < vars.len() ==> placed(base, vars, x)[(#[trigger] vars[i]).index as int]
                == x[i],
        forall|v: int|
            0 <= v < base.len() && !vars.contains(VarId { index: v as usize })
                ==> #[trigger] placed(base, vars, x)[v] == base[v],
    decreases vars.len(),
{
    if vars.len() > 0 {
        let rest = vars.drop_last();
        let last = vars.last();
        assert(vars[vars.len() - 1] == last);
        assert forall|i: int| 0 <= i < rest.len() implies (#[trigger] rest[i]).index
            < base.len() by {
            assert(rest[i] == vars[i]);
        }
        lemma_placed(base, rest, x.drop_last());
        let p0 = placed(base, rest, x.drop_last());
        assert forall|i: int| 0 <= i < vars.len() implies placed(base, vars, x)[(
        #[trigger] vars[i]).index as int] == x[i] by {
            if i < rest.len() {
                assert(rest[i] == vars[i]);
                assert(vars[i] != last);
                assert(p0[rest[i].index as int] == x.drop_last()[i]);
            }
        }
        assert forall|v: int|
            0 <= v < base.len() && !vars.contains(
                VarId { index: v as usize },
            ) implies #[trigger] placed(base, vars, x)[v] == base[v] by {
            if rest.contains(VarId { index: v as usize }) {
                let k = choose|k: int|
                    0 <= k < rest.len() && rest[k] == (VarId { index: v as usize });
                assert(vars[k] == rest[k]);
            }
            assert(vars.contains(last)) by {
                assert(vars[vars.len() - 1] == last);
            }
            assert(last.index != v as usize);
        }
    }
}

/// The values of all variables when the given ones are set to `x`.
fn place_values<T: Copy>(base: &Vec<T>, vars: &Vec<VarId>, x: &Vec<T>) -> (values: Vec<T>)
    requires
        vars@.len() == x@.len(),
        forall|i: int| 0 <= i < vars@.len() ==> (#[trigger] vars@[i]).index < base@.len(),
    ensures
        values@ == placed(base@, vars@, x@),
{
    let mut values = copied(base);
    let mut i: usize = 0;
    while i < vars.len()
        invariant
            vars@.len() == x@.len(),
            forall|j: int| 0 <= j < vars@.len() ==> (#[trigger] vars@[j]).index < base@.len(),
            i <= vars@.len(),
            values@.len() == base@.len(),
            values@ == placed(base@, vars@.take(i as int), x@.take(i as int)),
        decreases vars@.len() - i,
    {
        values.set(vars[i].index, x[i]);
        assert(vars@.take(i + 1).drop_last() =~= vars@.take(i as int));
        assert(x@.take(i + 1).drop_last() =~= x@.take(i as int));
        i = i + 1;
    }
    assert(vars@.take(i as int) =~= vars@);
    assert(x@.take(i as int) =~= x@);
    values
}

/// Formulas of the derivatives of one equation by the given variables.
fn derivative_formulas<T: Copy>(
    eq: &Equation<T>,
    vars: &Vec<VarId>,
    index: &HashMap<usize, usize>,
) -> (row: Vec<Expr<T>>)
    requires
        forall|v: usize| #[trigger] index@.contains_key(v) <==> vars@.contains(VarId { index: v }),
        forall|v: usize| #[trigger]
            index@.contains_key(v) ==> is_last_place(vars@, v, index@[v] as int),
    ensures
        row@.len() == vars@.len(),
        forall|c: int|
            0 <= c < row@.len() ==> means(
                #[trigger] row@[c],
                |at: Reading<T>| column_derivative(*eq, vars@, c, at),
            ),
{
    broadcast use vstd::std_specs::hash::group_hash_axioms;

    let mut row: Vec<Expr<T>> = Vec::new();
    let mut c: usize = 0;
    assert((0 as int) as real / (1 as int) as real == 0real);
    while c < vars.len()
        invariant
            (0 as int) as real / (1 as int) as real == 0real,
            c <= vars@.len(),
            row@.len() == c,
            forall|k: int, at: Reading<T>|
                #![trigger row@[k].eval(at)]
                0 <= k < c ==> row@[k].eval(at) == 0real,
        decreases vars@.len() - c,
    {
        row.push(Expr::ratio(0, 1));
        c = c + 1;
    }
    let mut partials = eq.jacobian();
    let ghost all = partials@;
    let ghost mut n: int = 0;
    proof {
        assert forall|k: int, at: Reading<T>|
            #![trigger row@[k].eval(at)]
            0 <= k < row@.len() implies row@[k].eval(at) == column_slope(
            all.take(0),
            vars@,
            k,
            at,
        ) by {}
        assert(all.skip(0) =~= all);
    }
    while partials.len() > 0
        invariant
            forall|v: usize| #[trigger]
                index@.contains_key(v) <==> vars@.contains(VarId { index: v }),
            forall|v: usize| #[trigger]
                index@.contains_key(v) ==> is_last_place(vars@, v, index@[v] as int),
            0 <= n <= all.len(),
            partials@ == all.skip(n),
            row@.len() == vars@.len(),
            forall|k: int, at: Reading<T>|
                #![trigger row@[k].eval(at)]
                0 <= k < row@.len() ==> row@[k].eval(at) == column_slope(
                    all.take(n),
                    vars@,
                    k,
                    at,
                ),
        decreases partials@.len(),
    {
        broadcast use vstd::std_specs::hash::group_hash_axioms;

        let ghost before = row@;
        let Partial { var, slope } = partials.remove(0);
        let ghost term = slope;
        let ghost mut hit: int = -1;
        match index.get(&var.index) {
            Some(col) => {
                let col: usize = *col;
                proof {
                    hit = col as int;
                    assert(is_last_place(vars@, var.index, hit));
                    assert(vars@[hit] == var);
                }
                let mut old_sum: Expr<T> = Expr::ratio(0, 1);
                row.set_and_swap(col, &mut old_sum);
                assert(old_sum == before[hit]);
                row.set(col, Expr::sum(old_sum, slope));
            },
            None => {
                assert(!vars@.contains(VarId { index: var.index }));
            },
        }
        proof {
            assert(all.take(n + 1).drop_last() =~= all.take(n));
            assert forall|k: int, at: Reading<T>|
                #![trigger row@[k].eval(at)]
                0 <= k < row@.len() implies row@[k].eval(at) == column_slope(
                all.take(n + 1),
                vars@,
                k,
                at,
            ) by {
                let u = unit(vars@[k]);
                assert(slope_along(all.take(n + 1), at, u) == slope_along(
                    all.take(n),
                    at,
                    u,
                ) + term.eval(at) * u(var));
                assert(before[k].eval(at) == column_slope(all.take(n), vars@, k, at));
                lemma_times_unit(term.eval(at));
                if k == hit {
                } else {
                    assert(row@[k] == before[k]);
                    if is_last_place(vars@, vars@[k].index, k) && vars@[k] == var {
                        assert(vars@.contains(VarId { index: var.index }));
                        assert(is_last_place(vars@, var.index, index@[var.index] as int));
                        assert(hit == index@[var.index]);
                        if hit < k {
                            assert(vars@[k].index != var.index);
                        } else {
                            assert(vars@[hit].index != var.index);
                        }
                    }
                }
            }
            n = n + 1;
        }
    }
    proof {
        assert(all.take(n) =~= all);
        assert forall|c: int| 0 <= c < row@.len() implies means(
            #[trigger] row@[c],
            |at: Reading<T>| column_derivative(*eq, vars@, c, at),
        ) by {
            assert forall|at: Reading<T>| #[trigger] row@[c].eval(at) == column_derivative(
                *eq,
                vars@,
                c,
                at,
            ) by {
                let u = unit(vars@[c]);
                assert(row@[c].eval(at) == column_slope(all, vars@, c, at));
                assert(is_gradient(*eq, all));
            }
        }
    }
    row
}

/// What partial derivatives add up to in a column.
spec fn column_slope<T>(
    partials: Seq<Partial<T>>,
    vars: Seq<VarId>,
    c: int,
    at: Reading<T>,
) -> real {
    if is_last_place(vars, vars[c].index, c) {
        slope_along(partials, at, unit(vars[c]))
    } else {
        0real
    }
}

proof fn lemma_times_unit(a: real)
    ensures
        a * 1real == a,
        a * 0real == 0real,
{
}

/// The variable is a coordinate of a point under one of the keys.
spec fn is_point_var<T>(view: SketchView<T>, keys: Seq<u64>, v: VarId) -> bool {
    exists|i: int|
        0 <= i < keys.len() && (view.points[#[trigger] keys[i]].x == v || view.points[keys[i]].y
            == v)
}

/// The variable is the radius of a circle under one of the keys.
spec fn is_radius_var<T>(view: SketchView<T>, keys: Seq<u64>, v: VarId) -> bool {
    exists|i: int|
        0 <= i < keys.len() && (view.entities[#[trigger] keys[i]] matches SketchEntity::Circle {
            radius,
            ..
        } && radius == v)
}

proof fn lemma_point_vars<T>(view: SketchView<T>, keys: Seq<u64>)
    requires
        view.vars_owned(),
        keys.no_duplicates(),
        forall|i: int| 0 <= i < keys.len() ==> view.points.contains_key(#[trigger] keys[i]),
    ensures
        point_vars(view, keys).no_duplicates(),
        forall|k: int|
            0 <= k < point_vars(view, keys).len() ==> is_point_var(
                view,
                keys,
                #[trigger] point_vars(view, keys)[k],
            ),
        forall|i: int|
            0 <= i < keys.len() ==> point_vars(view, keys).contains(
                view.points[#[trigger] keys[i]].x,
            ) && point_vars(view, keys).contains(view.points[keys[i]].y),
    decreases keys.len(),
{
    if keys.len() > 0 {
        let rest = keys.drop_last();
        let last = keys.last();
        assert(keys[keys.len() - 1] == last);
        assert forall|i: int| 0 <= i < rest.len() implies view.points.contains_key(
            #[trigger] rest[i],
        ) by {
            assert(rest[i] == keys[i]);
        }
        lemma_point_vars(view, rest);
        let some = point_vars(view, rest);
        let all = point_vars(view, keys);
        let p = view.points[last];
        assert forall|k: int| 0 <= k < some.len() implies some[k] != p.x && some[k] != p.y by {
            assert(is_point_var(view, rest, some[k]));
            let i = choose|i: int|
                0 <= i < rest.len() && (view.points[#[trigger] rest[i]].x == some[k]
                    || view.points[rest[i]].y == some[k]);
            assert(rest[i] == keys[i]);
            assert(view.points.contains_key(rest[i]) && view.points.contains_key(last));
        }
        assert forall|k: int| 0 <= k < all.len() implies is_point_var(
            view,
            keys,
            #[trigger] all[k],
        ) by {
            if k < some.len() {
                assert(is_point_var(view, rest, some[k]));
                let i = choose|i: int|
                    0 <= i < rest.len() && (view.points[#[trigger] rest[i]].x == some[k]
                        || view.points[rest[i]].y == some[k]);
                assert(keys[i] == rest[i]);
            }
        }
        assert(all[some.len() as int] == p.x && all[some.len() as int + 1] == p.y);
        assert forall|i: int| 0 <= i < keys.len() implies all.contains(
            view.points[#[trigger] keys[i]].x,
        ) && all.contains(view.points[keys[i]].y) by {
            if i < rest.len() {
                assert(rest[i] == keys[i]);
                let a = choose|a: int| 0 <= a < some.len() && some[a] == view.points[rest[i]].x;
                let b = choose|b: int| 0 <= b < some.len() && some[b] == view.points[rest[i]].y;
                assert(all[a] == some[a] && all[b] == some[b]);
            }
        }
    }
}

proof fn lemma_radius_vars<T>(view: SketchView<T>, keys: Seq<u64>)
    requires
        view.vars_owned(),
        keys.no_duplicates(),
        forall|i: int| 0 <= i < keys.len() ==> view.entities.contains_key(#[trigger] keys[i]),
    ensures
        radius_vars(view, keys).no_duplicates(),
        forall|k: int|
            0 <= k < radius_vars(view, keys).len() ==> is_radius_var(
                view,
                keys,
                #[trigger] radius_vars(view, keys)[k],
            ),
    decreases keys.len(),
{
    if keys.len() > 0 {
        let rest = keys.drop_last();
        let last = keys.last();
        assert(keys[keys.len() - 1] == last);
        assert forall|i: int| 0 <= i < rest.len() implies view.entities.contains_key(
            #[trigger] rest[i],
        ) by {
            assert(rest[i] == keys[i]);
        }
        lemma_radius_vars(view, rest);
        let some = radius_vars(view, rest);
        let all = radius_vars(view, keys);
        assert forall|k: int| 0 <= k < all.len() implies is_radius_var(
            view,
            keys,
            #[trigger] all[k],
        ) by {
            if k < some.len() {
                assert(is_radius_var(view, rest, some[k]));
                let i = choose|i: int|
                    0 <= i < rest.len() && (
                    view.entities[#[trigger] rest[i]] matches SketchEntity::Circle { radius, .. }
                        && radius == some[k]);
                assert(keys[i] == rest[i]);
            }
        }
        assert forall|k: int| 0 <= k < some.len() implies (
        view.entities[last] matches SketchEntity::Circle { radius, .. } ==> #[trigger] some[k]
            != radius) by {
            assert(is_radius_var(view, rest, some[k]));
            let i = choose|i: int|
                0 <= i < rest.len() && (view.entities[#[trigger] rest[i]] matches SketchEntity::Circle {
                    radius,
                    ..
                } && radius == some[k]);
            assert(rest[i] == keys[i]);
            assert(view.entities.contains_key(rest[i]) && view.entities.contains_key(last));
        }
    }
}

proof fn lemma_point_vars_exist<T>(view: SketchView<T>, keys: Seq<u64>)
    requires
        forall|i: int| 0 <= i < keys.len() ==> view.has_place(PointId { raw: #[trigger] keys[i] }),
    ensures
        forall|i: int|
            0 <= i < point_vars(view, keys).len() ==> (#[trigger] point_vars(view, keys)[i]).index
                < view.vars.len(),
    decreases keys.len(),
{
    if keys.len() > 0 {
        let rest = keys.drop_last();
        assert forall|i: int| 0 <= i < rest.len() implies view.has_place(
            PointId { raw: #[trigger] rest[i] },
        ) by {
            assert(view.has_place(PointId { raw: keys[i] }));
        }
        lemma_point_vars_exist(view, rest);
        assert(view.has_place(PointId { raw: keys[keys.len() - 1] }));
        let some = point_vars(view, rest);
        let all = point_vars(view, keys);
        assert forall|i: int| 0 <= i < all.len() implies (#[trigger] all[i]).index
            < view.vars.len() by {
            if i < some.len() {
                assert(all[i] == some[i]);
            }
        }
    }
}

proof fn lemma_radius_vars_exist<T>(view: SketchView<T>, keys: Seq<u64>)
    requires
        forall|i: int|
            0 <= i < keys.len() ==> view.entities.contains_key(keys[i]) && view.has_radius(
                EntityId { raw: #[trigger] keys[i] },
            ),
    ensures
        forall|i: int|
            0 <= i < radius_vars(view, keys).len() ==> (#[trigger] radius_vars(view, keys)[i]).index
                < view.vars.len(),
    decreases keys.len(),
{
    if keys.len() > 0 {
        let rest = keys.drop_last();
        assert forall|i: int| 0 <= i < rest.len() implies view.entities.contains_key(rest[i])
            && view.has_radius(EntityId { raw: #[trigger] rest[i] }) by {
            assert(view.has_radius(EntityId { raw: keys[i] }));
        }
        lemma_radius_vars_exist(view, rest);
        assert(view.has_radius(EntityId { raw: keys[keys.len() - 1] }));
        let some = radius_vars(view, rest);
        let all = radius_vars(view, keys);
        assert forall|i: int| 0 <= i < all.len() implies (#[trigger] all[i]).index
            < view.vars.len() by {
            if i < some.len() {
                assert(all[i] == some[i]);
            }
        }
    }
}

/// The variables that a run moves exist.
pub proof fn lemma_moving_vars<T>(view: SketchView<T>)
    requires
        view.readable(),
        in_slot_order(slot_order(view.points.dom()), view.points.dom()),
        in_slot_order(slot_order(view.entities.dom()), view.entities.dom()),
    ensures
        forall|i: int|
            0 <= i < moving_vars(view).len() ==> (#[trigger] moving_vars(view)[i]).index
                < view.vars.len(),
{
    let pk = slot_order(view.points.dom());
    let ek = slot_order(view.entities.dom());
    assert forall|i: int| 0 <= i < pk.len() implies view.has_place(
        PointId { raw: #[trigger] pk[i] },
    ) by {
        assert(pk.contains(pk[i]));
        assert(view.points.dom().contains(pk[i]));
        assert(view.points.contains_key(pk[i]));
    }
    assert forall|i: int| 0 <= i < ek.len() implies view.entities.contains_key(ek[i])
        && view.has_radius(EntityId { raw: #[trigger] ek[i] }) by {
        assert(ek.contains(ek[i]));
        assert(view.entities.dom().contains(ek[i]));
        assert(view.entities.contains_key(ek[i]));
    }
    lemma_point_vars_exist(view, pk);
    lemma_radius_vars_exist(view, ek);
    let a = point_vars(view, pk);
    let b = radius_vars(view, ek);
    assert forall|i: int| 0 <= i < moving_vars(view).len() implies (
    #[trigger] moving_vars(view)[i]).index < view.vars.len() by {
        if i < a.len() {
            assert(moving_vars(view)[i] == a[i]);
        } else {
            assert(moving_vars(view)[i] == b[i - a.len()]);
        }
    }
}

/// Where no two points or circles share a variable, the variables that a run
/// moves are all different: each column of the matrix of derivatives belongs
/// to a variable of its own.
pub proof fn lemma_moving_vars_distinct<T>(view: SketchView<T>)
    requires
        view.vars_owned(),
        in_slot_order(slot_order(view.points.dom()), view.points.dom()),
        in_slot_order(slot_order(view.entities.dom()), view.entities.dom()),
    ensures
        moving_vars(view).no_duplicates(),
        forall|c: int, eq: Equation<T>, at: Reading<T>|
            #![trigger column_derivative(eq, moving_vars(view), c, at)]
            0 <= c < moving_vars(view).len() ==> column_derivative(eq, moving_vars(view), c, at)
                == derivative(eq, moving_vars(view)[c], at),
{
    let pk = slot_order(view.points.dom());
    let ek = slot_order(view.entities.dom());
    crate::slots::lemma_slot_order_distinct(pk, view.points.dom());
    crate::slots::lemma_slot_order_distinct(ek, view.entities.dom());
    assert forall|i: int| 0 <= i < pk.len() implies view.points.contains_key(#[trigger] pk[i]) by {
        assert(pk.contains(pk[i]));
        assert(view.points.dom().contains(pk[i]));
    }
    assert forall|i: int| 0 <= i < ek.len() implies view.entities.contains_key(
        #[trigger] ek[i],
    ) by {
        assert(ek.contains(ek[i]));
        assert(view.entities.dom().contains(ek[i]));
    }
    lemma_point_vars(view, pk);
    lemma_radius_vars(view, ek);
    let a = point_vars(view, pk);
    let b = radius_vars(view, ek);
    let both = moving_vars(view);
    assert forall|i: int, j: int| 0 <= i < a.len() && 0 <= j < b.len() implies a[i] != b[j] by {
        assert(is_point_var(view, pk, a[i]));
        assert(is_radius_var(view, ek, b[j]));
        let p = choose|p: int|
            0 <= p < pk.len() && (view.points[#[trigger] pk[p]].x == a[i] || view.points[pk[p]].y
                == a[i]);
        let e = choose|e: int|
            0 <= e < ek.len() && (view.entities[#[trigger] ek[e]] matches SketchEntity::Circle {
                radius,
                ..
            } && radius == b[j]);
        assert(view.points.contains_key(pk[p]) && view.entities.contains_key(ek[e]));
    }
    assert forall|i: int, j: int| 0 <= i < both.len() && 0 <= j < both.len() && i != j implies both[i]
        != both[j] by {
        let n = a.len() as int;
        if i < n && j < n {
            assert(both[i] == a[i] && both[j] == a[j]);
        } else if i >= n && j >= n {
            assert(both[i] == b[i - n] && both[j] == b[j - n]);
        } else if i < n {
            assert(both[i] == a[i] && both[j] == b[j - n]);
        } else {
            assert(both[i] == b[i - n] && both[j] == a[j]);
        }
    }
    assert forall|c: int| 0 <= c < both.len() implies #[trigger] is_last_place(
        both,
        both[c].index,
        c,
    ) by {
        assert forall|d: int| c < d < both.len() implies (#[trigger] both[d]).index
            != both[c].index by {
            assert(both[d] != both[c]);
        }
    }
    assert forall|c: int, eq: Equation<T>, at: Reading<T>|
        #![trigger column_derivative(eq, both, c, at)]
        0 <= c < both.len() implies column_derivative(eq, both, c, at) == derivative(
        eq,
        both[c],
        at,
    ) by {
        assert(is_last_place(both, both[c].index, c));
    }
}

impl<T: Copy> Sketch<T> {
    /// The variables that a run moves: those of all points, then the radii of
    /// all circles, in slot order.
    pub fn active_vars(&self) -> (vars: Vec<VarId>)
        requires
            self.wf(),
        ensures
            vars@ == moving_vars(self@),
            self@.readable() ==> forall|i: int|
                0 <= i < vars@.len() ==> (#[trigger] vars@[i]).index < self@.vars.len(),
    {
        let points = self.point_ids();
        let entities = self.entities();
        let ghost pk = slot_order(self@.points.dom());
        let ghost ek = slot_order(self@.entities.dom());
        let mut vars: Vec<VarId> = Vec::new();
        let mut i: usize = 0;
        while i < points.len()
            invariant
                self.wf(),
                pk == slot_order(self@.points.dom()),
                in_slot_order(pk, self@.points.dom()),
                points@.len() == pk.len(),
                forall|j: int| 0 <= j < points@.len() ==> (#[trigger] points@[j]).raw == pk[j],
                i <= points@.len(),
                vars@ == point_vars(self@, pk.take(i as int)),
            decreases points@.len() - i,
        {
            assert(pk.contains(pk[i as int]));
            assert(self@.points.dom().contains(pk[i as int]));
            assert(pk.take(i + 1).drop_last() =~= pk.take(i as int));
            if let Some(p) = self.point(points[i]) {
                vars.push(p.x);
                vars.push(p.y);
            }
            i = i + 1;
        }
        assert(pk.take(i as int) =~= pk);
        let ghost first = vars@;
        let mut j: usize = 0;
        while j < entities.len()
            invariant
                ek == slot_order(self@.entities.dom()),
                in_slot_order(ek, self@.entities.dom()),
                entities@.len() == ek.len(),
                forall|k: int|
                    0 <= k < entities@.len() ==> (#[trigger] entities@[k]).1
                        == self@.entities[ek[k]],
                j <= entities@.len(),
                vars@ == first + radius_vars(self@, ek.take(j as int)),
            decreases entities@.len() - j,
        {
            assert(ek.take(j + 1).drop_last() =~= ek.take(j as int));
            if let SketchEntity::Circle { radius, .. } = entities[j].1 {
                vars.push(radius);
                assert(vars@ =~= first + radius_vars(self@, ek.take(j + 1)));
            }
            j = j + 1;
        }
        assert(ek.take(j as int) =~= ek);
        assert(vars@ =~= moving_vars(self@));
        proof {
            if self@.readable() {
                lemma_moving_vars(self@);
            }
        }
        vars
    }
}

/// A problem with the column of each variable.
struct System<T> {
    base: Vec<T>,
    vars: Vec<VarId>,
    equations: Vec<Equation<T>>,
    index: HashMap<usize, usize>,
}

impl<T: Copy> System<T> {
    spec fn problem(&self) -> Problem<T> {
        Problem { base: self.base@, vars: self.vars@, equations: self.equations@ }
    }

    spec fn wf(&self) -> bool {
        &&& forall|i: int|
            0 <= i < self.vars@.len() ==> (#[trigger] self.vars@[i]).index < self.base@.len()
        &&& forall|v: usize| #[trigger]
            self.index@.contains_key(v) <==> self.vars@.contains(VarId { index: v })
        &&& forall|v: usize| #[trigger]
            self.index@.contains_key(v) ==> is_last_place(self.vars@, v, self.index@[v] as int)
    }

    /// The residuals of all equations at `x`.
    fn residuals<E: Fn(&Expr<T>, &Vec<T>) -> T>(&self, eval: &E, x: &Vec<T>) -> (f: Vec<T>)
        requires
            self.wf(),
            evaluates_all(*eval),
            x@.len() == self.vars@.len(),
        ensures
            are_residuals(*eval, self.problem(), x@, f@),
    {
        let values = place_values(&self.base, &self.vars, x);
        let mut f: Vec<T> = Vec::new();
        let mut i: usize = 0;
        while i < self.equations.len()
            invariant
                evaluates_all(*eval),
                values@ == placed(self.base@, self.vars@, x@),
                i <= self.equations@.len(),
                f@.len() == i,
                forall|k: int|
                    0 <= k < i ==> is_residual_value(
                        *eval,
                        self.equations@[k],
                        values@,
                        #[trigger] f@[k],
                    ),
            decreases self.equations@.len() - i,
        {
            let e = self.equations[i].residual();
            let value = eval(&e, &values);
            assert(means(e, |at: Reading<T>| weighted_residual(self.equations@[i as int], at)));
            f.push(value);
            i = i + 1;
        }
        f
    }

    /// One row of the matrix of derivatives.
    fn jacobian_row<E: Fn(&Expr<T>, &Vec<T>) -> T>(
        &self,
        eval: &E,
        eq: &Equation<T>,
        values: &Vec<T>,
    ) -> (row: Vec<T>)
        requires
            self.wf(),
            evaluates_all(*eval),
        ensures
            row@.len() == self.vars@.len(),
            forall|c: int|
                0 <= c < row@.len() ==> computes(
                    *eval,
                    |at: Reading<T>| column_derivative(*eq, self.vars@, c, at),
                    values@,
                    #[trigger] row@[c],
                ),
    {
        let formulas = derivative_formulas(eq, &self.vars, &self.index);
        let mut row: Vec<T> = Vec::new();
        let mut c: usize = 0;
        while c < formulas.len()
            invariant
                evaluates_all(*eval),
                formulas@.len() == self.vars@.len(),
                forall|k: int|
                    0 <= k < formulas@.len() ==> means(
                        #[trigger] formulas@[k],
                        |at: Reading<T>| column_derivative(*eq, self.vars@, k, at),
                    ),
                c <= formulas@.len(),
                row@.len() == c,
                forall|k: int|
                    0 <= k < c ==> computes(
                        *eval,
                        |at: Reading<T>| column_derivative(*eq, self.vars@, k, at),
                        values@,
                        #[trigger] row@[k],
                    ),
            decreases formulas@.len() - c,
        {
            let value = eval(&formulas[c], values);
            assert(means(
                formulas@[c as int],
                |at: Reading<T>| column_derivative(*eq, self.vars@, c as int, at),
            ));
            row.push(value);
            c = c + 1;
        }
        row
    }

    /// The matrix of all derivatives at `x`.
    fn build_jacobian<E: Fn(&Expr<T>, &Vec<T>) -> T>(&self, eval: &E, x: &Vec<T>) -> (rows: Vec<
        Vec<T>,
    >)
        requires
            self.wf(),
            evaluates_all(*eval),
            x@.len() == self.vars@.len(),
        ensures
            is_jacobian(*eval, self.problem(), x@, rows@),
    {
        let values = place_values(&self.base, &self.vars, x);
        let mut rows: Vec<Vec<T>> = Vec::new();
        let mut i: usize = 0;
        while i < self.equations.len()
            invariant
                self.wf(),
                evaluates_all(*eval),
                values@ == placed(self.base@, self.vars@, x@),
                i <= self.equations@.len(),
                rows@.len() == i,
                forall|r: int|
                    0 <= r < i ==> is_jacobian_row(
                        *eval,
                        self.problem(),
                        x@,
                        self.equations@[r],
                        (#[trigger] rows@[r])@,
                    ),
            decreases self.equations@.len() - i,
        {
            let row = self.jacobian_row(eval, &self.equations[i], &values);
            rows.push(row);
            i = i + 1;
        }
        rows
    }

    /// Whether all residuals are below the tolerance.
    fn converged<E: Fn(&Expr<T>, &Vec<T>) -> T, L: Fn(&T, &T) -> bool>(
        &self,
        eval: &E,
        less: &L,
        f: &Vec<T>,
    ) -> (found: bool)
        requires
            evaluates_all(*eval),
            compares_all(*less),
        ensures
            within_tolerance(*eval, *less, f@, found),
    {
        let size = largest_of(eval, f);
        let tolerance = reciprocal(eval, INVERSE_TOLERANCE);
        less(&size, &tolerance)
    }

    /// Damped steps from `x`, until one is better or none is left to try.
    fn damp<
        E: Fn(&Expr<T>, &Vec<T>) -> T,
        L: Fn(&T, &T) -> bool,
        F: Fn(&Vec<Vec<T>>) -> Option<Factors<T>>,
    >(&self, ops: &SolverOps<E, L, F>, d: &Factors<T>, x: &Vec<T>, f: &Vec<T>, start: T) -> (next: Option<
        (Vec<T>, Vec<T>, T),
    >)
        requires
            self.wf(),
            ops_usable::<T, E, L, F>(*ops),
            x@.len() == self.vars@.len(),
            d.fits(f@.len() as int, x@.len() as int),
        ensures
            damped(
                *ops,
                self.problem(),
                *d,
                Place { x: x@, f: f@, damping: start },
                MAX_DAMPING_RETRIES as nat,
                match next {
                    Some((y, g, damping)) => Some(Place { x: y@, f: g@, damping }),
                    None => None,
                },
            ),
            next matches Some((y, g, damping)) ==> y@.len() == x@.len() && g@.len()
                == self.equations@.len(),
    {
        let norm = norm_of(&ops.eval, f);
        let ghost begin = Place { x: x@, f: f@, damping: start };
        let mut damping = start;
        let mut tries: usize = 0;
        while tries < MAX_DAMPING_RETRIES
            invariant
                self.wf(),
                ops_usable::<T, E, L, F>(*ops),
                x@.len() == self.vars@.len(),
                d.fits(f@.len() as int, x@.len() as int),
                is_norm(ops.eval, f@, norm),
                tries <= MAX_DAMPING_RETRIES,
                begin == (Place { x: x@, f: f@, damping: start }),
                forall|next: Option<Place<T>>|
                    damped(
                        *ops,
                        self.problem(),
                        *d,
                        Place { x: x@, f: f@, damping },
                        (MAX_DAMPING_RETRIES - tries) as nat,
                        next,
                    ) ==> #[trigger] damped(
                        *ops,
                        self.problem(),
                        *d,
                        begin,
                        MAX_DAMPING_RETRIES as nat,
                        next,
                    ),
            decreases MAX_DAMPING_RETRIES - tries,
        {
            let ghost here = Place { x: x@, f: f@, damping };
            let ghost left = (MAX_DAMPING_RETRIES - tries) as nat;
            let y = damped_step(&ops.eval, d, f, x, damping);
            assert(proposes(ops.eval, *d, f@, x@, damping, y@));
            let g = self.residuals(&ops.eval, &y);
            let new_norm = norm_of(&ops.eval, &g);
            let better = (ops.less)(&new_norm, &norm);
            assert(improves(ops.eval, ops.less, g@, f@, better));
            assert(are_residuals(ops.eval, self.problem(), y@, g@));
            assert(proposes(ops.eval, *d, here.f, here.x, here.damping, y@));
            if better {
                let calmer = relaxed(&ops.eval, damping);
                proof {
                    let there = Place { x: y@, f: g@, damping: calmer };
                    assert(tries_step(*ops, self.problem(), *d, here, true, there));
                    assert(damped(*ops, self.problem(), *d, here, left, Some(there)));
                }
                return Some((y, g, calmer));
            }
            let stronger = raised(&ops.eval, damping);
            proof {
                let there = Place { x: x@, f: f@, damping: stronger };
                assert(tries_step(*ops, self.problem(), *d, here, false, there));
                assert forall|next: Option<Place<T>>|
                    damped(
                        *ops,
                        self.problem(),
                        *d,
                        there,
                        (left - 1) as nat,
                        next,
                    ) implies #[trigger] damped(
                    *ops,
                    self.problem(),
                    *d,
                    begin,
                    MAX_DAMPING_RETRIES as nat,
                    next,
                ) by {
                    assert(damped(*ops, self.problem(), *d, here, left, next));
                }
            }
            damping = stronger;
            tries = tries + 1;
        }
        None
    }

    /// The iterations from `x` on.
    fn run<
        E: Fn(&Expr<T>, &Vec<T>) -> T,
        L: Fn(&T, &T) -> bool,
        F: Fn(&Vec<Vec<T>>) -> Option<Factors<T>>,
    >(&self, ops: &SolverOps<E, L, F>, first: Vec<T>) -> (end: (SolveResult<T>, Vec<T>))
        requires
            self.wf(),
            ops_usable::<T, E, L, F>(*ops),
            self.equations@.len() > 0,
            first@ == self.vars@.map_values(|v: VarId| self.base@[v.index as int]),
        ensures
            ends(*ops, self.problem(), end.0, end.1@),
            end.1@.len() == self.vars@.len(),
    {
        let ghost problem = self.problem();
        let mut x = first;
        let mut f = self.residuals(&ops.eval, &x);
        let mut damping = reciprocal(&ops.eval, INVERSE_DAMPING);
        let ghost begin = Place { x: x@, f: f@, damping };
        assert(is_start(ops.eval, problem, begin));
        let mut iteration: usize = 0;
        while iteration < MAX_ITERATIONS
            invariant
                self.wf(),
                problem == self.problem(),
                ops_usable::<T, E, L, F>(*ops),
                self.equations@.len() > 0,
                x@.len() == self.vars@.len(),
                f@.len() == self.equations@.len(),
                iteration <= MAX_ITERATIONS,
                is_start(ops.eval, problem, begin),
                forall|result: SolveResult<T>, at: Seq<T>|
                    runs(
                        *ops,
                        problem,
                        Place { x: x@, f: f@, damping },
                        iteration as nat,
                        result,
                        at,
                    ) ==> #[trigger] runs(*ops, problem, begin, 0, result, at),
            decreases MAX_ITERATIONS - iteration,
        {
            let ghost here = Place { x: x@, f: f@, damping };
            if self.converged(&ops.eval, &ops.less, &f) {
                let result = SolveResult::Solved { iterations: iteration };
                proof {
                    assert(turns(*ops, problem, here, Turn::Converged));
                    assert(runs(*ops, problem, here, iteration as nat, result, x@));
                    assert(runs(*ops, problem, begin, 0, result, x@));
                    assert(ends(*ops, problem, result, x@));
                }
                return (result, x);
            }
            let rows = self.build_jacobian(&ops.eval, &x);
            assert(is_matrix(rows@, x@.len() as int));
            let factors = (ops.factor)(&rows);
            let next = match &factors {
                Some(d) => self.damp(ops, d, &x, &f, damping),
                None => None,
            };
            match next {
                Some((y, g, calmer)) => {
                    proof {
                        let there = Place { x: y@, f: g@, damping: calmer };
                        assert(turns(*ops, problem, here, Turn::Moved(there)));
                        assert forall|result: SolveResult<T>, at: Seq<T>|
                            runs(
                                *ops,
                                problem,
                                there,
                                (iteration + 1) as nat,
                                result,
                                at,
                            ) implies #[trigger] runs(*ops, problem, begin, 0, result, at) by {
                            assert(runs(*ops, problem, here, iteration as nat, result, at));
                        }
                    }
                    x = y;
                    f = g;
                    damping = calmer;
                },
                None => {
                    let residual = largest_of(&ops.eval, &f);
                    let result = SolveResult::DidNotConverge { residual };
                    proof {
                        assert(turns(*ops, problem, here, Turn::Stuck));
                        assert(gives_up(ops.eval, here, result, x@));
                        assert(runs(*ops, problem, here, iteration as nat, result, x@));
                        assert(runs(*ops, problem, begin, 0, result, x@));
                        assert(ends(*ops, problem, result, x@));
                    }
                    return (result, x);
                },
            }
            iteration = iteration + 1;
        }
        let ghost here = Place { x: x@, f: f@, damping };
        let found = self.converged(&ops.eval, &ops.less, &f);
        assert(within_tolerance(ops.eval, ops.less, here.f, found));
        let result = if found {
            SolveResult::Solved { iterations: iteration }
        } else {
            SolveResult::DidNotConverge { residual: largest_of(&ops.eval, &f) }
        };
        proof {
            assert(stops(ops.eval, ops.less, here, iteration as nat, result, x@));
            assert(runs(*ops, problem, here, iteration as nat, result, x@));
            assert(runs(*ops, problem, begin, 0, result, x@));
            assert(ends(*ops, problem, result, x@));
        }
        (result, x)
    }
}

/// The equations that pull a point to a place, softly.
pub open spec fn pull<T>(view: SketchView<T>, point: PointId, target: [T; 2]) -> Seq<Equation<T>> {
    if view.points.contains_key(point.raw) {
        let p = view.points[point.raw];
        seq![
            Equation { kind: EqKind::Value(p.x, target[0]), weight: Weight::Drag },
            Equation { kind: EqKind::Value(p.y, target[1]), weight: Weight::Drag },
        ]
    } else {
        seq![]
    }
}

/// How many of the flags are set.
pub open spec fn count_set(flags: Seq<bool>) -> nat
    decreases flags.len(),
{
    if flags.len() == 0 {
        0
    } else {
        count_set(flags.drop_last()) + if flags.last() {
            1nat
        } else {
            0nat
        }
    }
}

/// The reciprocal of the least singular value that counts, relative to the
/// largest one.
pub const INVERSE_RANK_TOLERANCE: i64 = 10_000_000_000;

/// `rank` is the number of singular values that are found to be larger than a
/// small fraction of the largest one.
pub open spec fn is_rank<T, E: Fn(&Expr<T>, &Vec<T>) -> T, L: Fn(&T, &T) -> bool>(
    eval: E,
    less: L,
    singular: Seq<T>,
    rank: nat,
) -> bool {
    exists|zero: T, most: T, positive: bool|
        {
            &&& #[trigger] call_ensures(less, (&zero, &most), positive)
            &&& computes(eval, |at: Reading<T>| 0real, Seq::empty(), zero)
            &&& is_largest(eval, singular, most)
            &&& if positive {
                exists|least: T, flags: Seq<bool>|
                    {
                        &&& #[trigger] is_rank_threshold(eval, most, least)
                        &&& #[trigger] flags.len() == singular.len()
                        &&& forall|i: int|
                            0 <= i < flags.len() ==> call_ensures(
                                less,
                                (&least, &singular[i]),
                                #[trigger] flags[i],
                            )
                        &&& rank == count_set(flags)
                    }
            } else {
                rank == 0
            }
        }
}

/// `least` is the least singular value that counts.
pub open spec fn is_rank_threshold<T, E: Fn(&Expr<T>, &Vec<T>) -> T>(
    eval: E,
    most: T,
    least: T,
) -> bool {
    computes(
        eval,
        |at: Reading<T>| (at.num)(most) * (1real / ((INVERSE_RANK_TOLERANCE as int) as real)),
        Seq::empty(),
        least,
    )
}

fn rank_of<T: Copy, E: Fn(&Expr<T>, &Vec<T>) -> T, L: Fn(&T, &T) -> bool>(
    eval: &E,
    less: &L,
    singular: &Vec<T>,
) -> (rank: usize)
    requires
        evaluates_all(*eval),
        compares_all(*less),
    ensures
        is_rank(*eval, *less, singular@, rank as nat),
{
    assert((0 as int) as real / (1 as int) as real == 0real);
    let zero = eval_closed(eval, Expr::ratio(0, 1), Ghost(|at: Reading<T>| 0real));
    let most = largest_of(eval, singular);
    if !less(&zero, &most) {
        return 0;
    }
    assert((1 as int) as real == 1real);
    let least = eval_closed(
        eval,
        Expr::product(Expr::value(most), Expr::ratio(1, INVERSE_RANK_TOLERANCE)),
        Ghost(
            |at: Reading<T>| (at.num)(most) * (1real / ((INVERSE_RANK_TOLERANCE as int) as real)),
        ),
    );
    assert(is_rank_threshold(*eval, most, least));
    let ghost mut flags: Seq<bool> = Seq::empty();
    let mut rank: usize = 0;
    let mut i: usize = 0;
    while i < singular.len()
        invariant
            compares_all(*less),
            i <= singular@.len(),
            rank <= i,
            flags.len() == i,
            rank == count_set(flags),
            forall|k: int|
                0 <= k < i ==> call_ensures(less, (&least, &singular@[k]), #[trigger] flags[k]),
        decreases singular@.len() - i,
    {
        let counts = less(&least, &singular[i]);
        proof {
            let longer = flags.push(counts);
            assert(longer.drop_last() =~= flags);
            flags = longer;
        }
        if counts {
            rank = rank + 1;
        }
        i = i + 1;
    }
    assert(flags.len() == singular@.len());
    rank
}

/// `dof` is the number of variables that a run moves, less the rank of the
/// matrix of derivatives.
pub open spec fn is_dof<
    T,
    E: Fn(&Expr<T>, &Vec<T>) -> T,
    L: Fn(&T, &T) -> bool,
    G: Fn(&Vec<Vec<T>>) -> Vec<T>,
>(view: SketchView<T>, eval: E, less: L, singular: G, dof: nat) -> bool {
    let problem = problem_of(view, Seq::empty());
    let x = problem.vars.map_values(|v: VarId| view.vars[v.index as int]);
    let count = problem.vars.len();
    if problem.equations.len() == 0 {
        dof == count
    } else {
        exists|rows: Vec<Vec<T>>, values: Vec<T>, rank: nat|
            {
                &&& #[trigger] call_ensures(singular, (&rows,), values)
                &&& is_jacobian(eval, problem, x, rows@)
                &&& #[trigger] is_rank(eval, less, values@, rank)
                &&& dof == if rank <= count {
                    (count - rank) as nat
                } else {
                    0nat
                }
            }
    }
}

impl<T: Copy> Sketch<T> {
    /// What solving with additional equations is about.
    fn system(&self, equations: Vec<Equation<T>>) -> (system: System<T>)
        requires
            self.wf(),
            self@.readable(),
        ensures
            system.wf(),
            system.problem() == (Problem {
                base: self@.vars,
                vars: moving_vars(self@),
                equations: equations@,
            }),
    {
        let vars = self.active_vars();
        let index = var_index(&vars);
        System { base: self.var_values(), vars, equations, index }
    }

    /// The present values of the given variables.
    fn values_of(&self, vars: &Vec<VarId>) -> (x: Vec<T>)
        requires
            forall|i: int| 0 <= i < vars@.len() ==> (#[trigger] vars@[i]).index < self@.vars.len(),
        ensures
            x@ == vars@.map_values(|v: VarId| self@.vars[v.index as int]),
    {
        let mut x: Vec<T> = Vec::new();
        let mut i: usize = 0;
        while i < vars.len()
            invariant
                forall|k: int|
                    0 <= k < vars@.len() ==> (#[trigger] vars@[k]).index < self@.vars.len(),
                i <= vars@.len(),
                x@.len() == i,
                forall|k: int|
                    0 <= k < i ==> #[trigger] x@[k] == self@.vars[vars@[k].index as int],
            decreases vars@.len() - i,
        {
            x.push(self.var(vars[i]));
            i = i + 1;
        }
        assert(x@ =~= vars@.map_values(|v: VarId| self@.vars[v.index as int]));
        x
    }

    /// Sets the given variables to `x`.
    fn write_back(&mut self, vars: &Vec<VarId>, x: &Vec<T>)
        requires
            old(self).wf(),
            vars@.len() == x@.len(),
            forall|i: int|
                0 <= i < vars@.len() ==> (#[trigger] vars@[i]).index < old(self)@.vars.len(),
        ensures
            final(self).wf(),
            final(self)@ == (SketchView {
                vars: placed(old(self)@.vars, vars@, x@),
                ..old(self)@
            }),
            old(self).keeps_ids(*final(self)),
    {
        let mut i: usize = 0;
        proof {
            self.lemma_keeps_ids_here();
        }
        while i < vars.len()
            invariant
                self.wf(),
                vars@.len() == x@.len(),
                forall|k: int|
                    0 <= k < vars@.len() ==> (#[trigger] vars@[k]).index < old(self)@.vars.len(),
                i <= vars@.len(),
                self@.vars.len() == old(self)@.vars.len(),
                self@ == (SketchView {
                    vars: placed(old(self)@.vars, vars@.take(i as int), x@.take(i as int)),
                    ..old(self)@
                }),
                old(self).keeps_ids(*self),
            decreases vars@.len() - i,
        {
            let ghost earlier = *self;
            self.set_var(vars[i], x[i]);
            proof {
                old(self).lemma_keeps_ids_on(earlier, *self);
            }
            assert(vars@.take(i + 1).drop_last() =~= vars@.take(i as int));
            assert(x@.take(i + 1).drop_last() =~= x@.take(i as int));
            i = i + 1;
        }
        assert(vars@.take(i as int) =~= vars@);
        assert(x@.take(i as int) =~= x@);
    }

    fn solve_with_extra<
        E: Fn(&Expr<T>, &Vec<T>) -> T,
        L: Fn(&T, &T) -> bool,
        F: Fn(&Vec<Vec<T>>) -> Option<Factors<T>>,
    >(&mut self, extra: Vec<Equation<T>>, ops: &SolverOps<E, L, F>) -> (result: SolveResult<T>)
        requires
            old(self).wf(),
            old(self)@.readable() || all_equations(old(self)@).len() + extra@.len() == 0,
            ops_usable::<T, E, L, F>(*ops),
        ensures
            final(self).wf(),
            solves(*ops, old(self)@, extra@, result, final(self)@),
            old(self)@.sound() ==> final(self)@.sound(),
            old(self)@.linked() ==> final(self)@.linked(),
            old(self).keeps_ids(*final(self)),
    {
        proof {
            self.lemma_keeps_ids_here();
        }
        let mut equations = self.lowered_equations();
        let mut extra = extra;
        let ghost added = extra@;
        equations.append(&mut extra);
        assert(equations@ == all_equations(self@) + added);
        if equations.len() == 0 {
            return SolveResult::Solved { iterations: 0 };
        }
        let system = self.system(equations);
        let ghost problem = problem_of(self@, added);
        assert(system.problem() == problem);
        let first = self.values_of(&system.vars);
        assert(first@ =~= system.vars@.map_values(|v: VarId| system.base@[v.index as int]));
        let (result, x) = system.run(ops, first);
        self.write_back(&system.vars, &x);
        assert(ends(*ops, problem, result, x@));
        proof {
            lemma_placed_len(old(self)@.vars, system.vars@, x@);
        }
        result
    }

    /// Solves all constraints, starting at the present values.
    pub fn solve<
        E: Fn(&Expr<T>, &Vec<T>) -> T,
        L: Fn(&T, &T) -> bool,
        F: Fn(&Vec<Vec<T>>) -> Option<Factors<T>>,
    >(&mut self, ops: &SolverOps<E, L, F>) -> (result: SolveResult<T>)
        requires
            old(self).wf(),
            old(self)@.readable() || all_equations(old(self)@).len() == 0,
            ops_usable::<T, E, L, F>(*ops),
        ensures
            final(self).wf(),
            solves(*ops, old(self)@, Seq::empty(), result, final(self)@),
            old(self)@.sound() ==> final(self)@.sound(),
            old(self)@.linked() ==> final(self)@.linked(),
            old(self).keeps_ids(*final(self)),
    {
        let none: Vec<Equation<T>> = Vec::new();
        assert(none@ =~= Seq::<Equation<T>>::empty());
        self.solve_with_extra(none, ops)
    }

    /// Solves all constraints while a point is pulled to a place. The pull is
    /// soft, so that the constraints win. If there is no such point, nothing
    /// is pulled.
    pub fn solve_drag<
        E: Fn(&Expr<T>, &Vec<T>) -> T,
        L: Fn(&T, &T) -> bool,
        F: Fn(&Vec<Vec<T>>) -> Option<Factors<T>>,
    >(&mut self, point: PointId, target: [T; 2], ops: &SolverOps<E, L, F>) -> (result:
        SolveResult<T>)
        requires
            old(self).wf(),
            old(self)@.readable() || all_equations(old(self)@).len() + pull(
                old(self)@,
                point,
                target,
            ).len() == 0,
            ops_usable::<T, E, L, F>(*ops),
        ensures
            final(self).wf(),
            solves(*ops, old(self)@, pull(old(self)@, point, target), result, final(self)@),
            old(self)@.sound() ==> final(self)@.sound(),
            old(self)@.linked() ==> final(self)@.linked(),
            old(self).keeps_ids(*final(self)),
    {
        let mut extra: Vec<Equation<T>> = Vec::new();
        if let Some(p) = self.point(point) {
            extra.push(Equation::weighted(EqKind::Value(p.x, target[0]), Weight::Drag));
            extra.push(Equation::weighted(EqKind::Value(p.y, target[1]), Weight::Drag));
        }
        assert(extra@ =~= pull(self@, point, target));
        self.solve_with_extra(extra, ops)
    }

    /// Gives a dimension another shown value and solves. If there is no such
    /// dimension, the sketch is only solved.
    pub fn set_dimension_value<
        E: Fn(&Expr<T>, &Vec<T>) -> T,
        L: Fn(&T, &T) -> bool,
        F: Fn(&Vec<Vec<T>>) -> Option<Factors<T>>,
    >(&mut self, id: DimensionId, value: T, ops: &SolverOps<E, L, F>) -> (result: SolveResult<T>)
        requires
            old(self).wf(),
            old(self)@.readable(),
            ops_usable::<T, E, L, F>(*ops),
        ensures
            final(self).wf(),
            old(self)@.sound() ==> final(self)@.sound(),
            old(self)@.linked() ==> final(self)@.linked(),
            exists|stored: T|
                (old(self)@.dimensions.contains_key(id.raw) ==> is_stored_value(
                    ops.eval,
                    old(self)@.dimensions[id.raw].kind,
                    value,
                    stored,
                )) && solves(
                    *ops,
                    #[trigger] with_stored(old(self)@, id, stored),
                    Seq::empty(),
                    result,
                    final(self)@,
                ),
            old(self).keeps_ids(*final(self)),
    {
        self.store_dimension_value(id, value, &ops.eval);
        let ghost changed = *self;
        let ghost stored = choose|stored: T|
            (old(self)@.dimensions.contains_key(id.raw) ==> is_stored_value(
                ops.eval,
                old(self)@.dimensions[id.raw].kind,
                value,
                stored,
            )) && self@ == #[trigger] with_stored(old(self)@, id, stored);
        proof {
            if !old(self)@.dimensions.contains_key(id.raw) {
                assert(self@ == with_stored(old(self)@, id, value));
            }
        }
        assert(self@ == with_stored(old(self)@, id, stored));
        let result = self.solve(ops);
        proof {
            old(self).lemma_keeps_ids_on(changed, *self);
        }
        result
    }

    /// The degrees of freedom that the constraints leave, at the present
    /// values. `singular` gives the singular values of a matrix.
    pub fn dof<
        E: Fn(&Expr<T>, &Vec<T>) -> T,
        L: Fn(&T, &T) -> bool,
        G: Fn(&Vec<Vec<T>>) -> Vec<T>,
    >(&self, eval: &E, less: &L, singular: &G) -> (dof: usize)
        requires
            self.wf(),
            self@.readable() || all_equations(self@).len() == 0,
            evaluates_all(*eval),
            compares_all(*less),
            forall|rows: &Vec<Vec<T>>| #[trigger] call_requires(singular, (rows,)),
        ensures
            is_dof(self@, *eval, *less, *singular, dof as nat),
    {
        let equations = self.lowered_equations();
        assert(all_equations(self@) + Seq::<Equation<T>>::empty() =~= all_equations(self@));
        if equations.len() == 0 {
            return self.active_vars().len();
        }
        let system = self.system(equations);
        assert(system.problem() == problem_of(self@, Seq::empty()));
        let x = self.values_of(&system.vars);
        let rows = system.build_jacobian(eval, &x);
        let values = singular(&rows);
        let rank = rank_of(eval, less, &values);
        let count = system.vars.len();
        if rank <= count {
            count - rank
        } else {
            0
        }
    }
}

/// Solving moves variables and nothing else.
pub proof fn lemma_solving_keeps_structure<
    T,
    E: Fn(&Expr<T>, &Vec<T>) -> T,
    L: Fn(&T, &T) -> bool,
    F: Fn(&Vec<Vec<T>>) -> Option<Factors<T>>,
>(
    ops: SolverOps<E, L, F>,
    before: SketchView<T>,
    extra: Seq<Equation<T>>,
    result: SolveResult<T>,
    after: SketchView<T>,
)
    requires
        solves(ops, before, extra, result, after),
    ensures
        after.points == before.points,
        after.entities == before.entities,
        after.constraints == before.constraints,
        after.dimensions == before.dimensions,
{
}

/// A run that ends as solved took no more than the largest number of
/// iterations.
pub proof fn lemma_iterations_bounded<
    T,
    E: Fn(&Expr<T>, &Vec<T>) -> T,
    L: Fn(&T, &T) -> bool,
    F: Fn(&Vec<Vec<T>>) -> Option<Factors<T>>,
>(
    ops: SolverOps<E, L, F>,
    problem: Problem<T>,
    place: Place<T>,
    iteration: nat,
    iterations: usize,
    x: Seq<T>,
)
    requires
        runs(ops, problem, place, iteration, SolveResult::Solved { iterations }, x),
        iteration <= MAX_ITERATIONS,
    ensures
        iteration <= iterations <= MAX_ITERATIONS,
    decreases MAX_ITERATIONS - iteration,
{
    if iteration < MAX_ITERATIONS {
        let result = SolveResult::<T>::Solved { iterations };
        let turn = choose|turn: Turn<T>| #[trigger]
            turns(ops, problem, place, turn) && match turn {
                Turn::Converged => result == (SolveResult::<T>::Solved {
                    iterations: iteration as usize,
                }) && x == place.x,
                Turn::Stuck => gives_up(ops.eval, place, result, x),
                Turn::Moved(next) => runs(ops, problem, next, iteration + 1, result, x),
            };
        if let Turn::Moved(next) = turn {
            lemma_iterations_bounded(ops, problem, next, iteration + 1, iterations, x);
        }
    }
}

proof fn lemma_damped_measured<
    T,
    E: Fn(&Expr<T>, &Vec<T>) -> T,
    L: Fn(&T, &T) -> bool,
    F: Fn(&Vec<Vec<T>>) -> Option<Factors<T>>,
>(
    ops: SolverOps<E, L, F>,
    problem: Problem<T>,
    d: Factors<T>,
    place: Place<T>,
    tries: nat,
    next: Place<T>,
)
    requires
        damped(ops, problem, d, place, tries, Some(next)),
    ensures
        are_residuals(ops.eval, problem, next.x, next.f),
        improves(ops.eval, ops.less, next.f, place.f, true),
    decreases tries,
{
    if tries > 0 {
        let (better, there) = choose|better: bool, there: Place<T>| #[trigger]
            tries_step(ops, problem, d, place, better, there) && if better {
                Some(next) == Some(there)
            } else {
                damped(ops, problem, d, there, (tries - 1) as nat, Some(next))
            };
        if !better {
            lemma_damped_measured(ops, problem, d, there, (tries - 1) as nat, next);
        }
    }
}

/// Where a run ends, the residuals tell the truth: it ends as solved if they
/// are found to be below the tolerance there, and if they are not, the largest
/// of them there is the one that is reported.
pub proof fn lemma_result_is_measured<
    T,
    E: Fn(&Expr<T>, &Vec<T>) -> T,
    L: Fn(&T, &T) -> bool,
    F: Fn(&Vec<Vec<T>>) -> Option<Factors<T>>,
>(
    ops: SolverOps<E, L, F>,
    problem: Problem<T>,
    place: Place<T>,
    iteration: nat,
    result: SolveResult<T>,
    x: Seq<T>,
)
    requires
        are_residuals(ops.eval, problem, place.x, place.f),
        runs(ops, problem, place, iteration, result, x),
    ensures
        exists|f: Seq<T>| #[trigger]
            are_residuals(ops.eval, problem, x, f) && within_tolerance(
                ops.eval,
                ops.less,
                f,
                result is Solved,
            ) && (result matches SolveResult::DidNotConverge { residual } ==> is_largest(
                ops.eval,
                f,
                residual,
            )),
    decreases MAX_ITERATIONS - iteration,
{
    if iteration < MAX_ITERATIONS {
        let turn = choose|turn: Turn<T>| #[trigger]
            turns(ops, problem, place, turn) && match turn {
                Turn::Converged => result == (SolveResult::<T>::Solved {
                    iterations: iteration as usize,
                }) && x == place.x,
                Turn::Stuck => gives_up(ops.eval, place, result, x),
                Turn::Moved(next) => runs(ops, problem, next, iteration + 1, result, x),
            };
        if let Turn::Moved(next) = turn {
            lemma_moved(ops, problem, place, next);
            lemma_result_is_measured(ops, problem, next, iteration + 1, result, x);
        } else {
            assert(are_residuals(ops.eval, problem, x, place.f));
        }
    } else {
        assert(are_residuals(ops.eval, problem, x, place.f));
    }
}

/// An iteration that moves goes to a place whose residuals are measured and
/// found to be better.
proof fn lemma_moved<
    T,
    E: Fn(&Expr<T>, &Vec<T>) -> T,
    L: Fn(&T, &T) -> bool,
    F: Fn(&Vec<Vec<T>>) -> Option<Factors<T>>,
>(ops: SolverOps<E, L, F>, problem: Problem<T>, place: Place<T>, next: Place<T>)
    requires
        turns(ops, problem, place, Turn::Moved(next)),
    ensures
        are_residuals(ops.eval, problem, next.x, next.f),
        improves(ops.eval, ops.less, next.f, place.f, true),
{
    let (rows, factors) = choose|rows: Vec<Vec<T>>, factors: Option<Factors<T>>| #[trigger]
        call_ensures(ops.factor, (&rows,), factors) && is_jacobian(
            ops.eval,
            problem,
            place.x,
            rows@,
        ) && match factors {
            Some(d) => damped(ops, problem, d, place, MAX_DAMPING_RETRIES as nat, Some(next)),
            None => Turn::Moved(next) is Stuck,
        };
    if let Some(d) = factors {
        lemma_damped_measured(ops, problem, d, place, MAX_DAMPING_RETRIES as nat, next);
    }
}

/// The arithmetic computes and compares the sums of squares exactly.
pub open spec fn exact_norms<T, E: Fn(&Expr<T>, &Vec<T>) -> T, L: Fn(&T, &T) -> bool>(
    num: spec_fn(T) -> real,
    eval: E,
    less: L,
) -> bool {
    &&& forall|f: Seq<T>, norm: T| #[trigger]
        is_norm(eval, f, norm) ==> num(norm) == norm_squared(num, f)
    &&& forall|a: &T, b: &T, found: bool| #[trigger]
        call_ensures(less, (a, b), found) ==> found == (num(*a) < num(*b))
}

/// With exact arithmetic a run never ends at a worse place than it began.
pub proof fn lemma_run_never_worsens<
    T,
    E: Fn(&Expr<T>, &Vec<T>) -> T,
    L: Fn(&T, &T) -> bool,
    F: Fn(&Vec<Vec<T>>) -> Option<Factors<T>>,
>(
    num: spec_fn(T) -> real,
    ops: SolverOps<E, L, F>,
    problem: Problem<T>,
    place: Place<T>,
    iteration: nat,
    result: SolveResult<T>,
    x: Seq<T>,
)
    requires
        exact_norms(num, ops.eval, ops.less),
        are_residuals(ops.eval, problem, place.x, place.f),
        runs(ops, problem, place, iteration, result, x),
    ensures
        exists|f: Seq<T>| #[trigger]
            are_residuals(ops.eval, problem, x, f) && norm_squared(num, f) <= norm_squared(
                num,
                place.f,
            ),
    decreases MAX_ITERATIONS - iteration,
{
    if iteration < MAX_ITERATIONS {
        let turn = choose|turn: Turn<T>| #[trigger]
            turns(ops, problem, place, turn) && match turn {
                Turn::Converged => result == (SolveResult::<T>::Solved {
                    iterations: iteration as usize,
                }) && x == place.x,
                Turn::Stuck => gives_up(ops.eval, place, result, x),
                Turn::Moved(next) => runs(ops, problem, next, iteration + 1, result, x),
            };
        if let Turn::Moved(next) = turn {
            lemma_moved(ops, problem, place, next);
            lemma_run_never_worsens(num, ops, problem, next, iteration + 1, result, x);
            assert(norm_squared(num, next.f) < norm_squared(num, place.f));
        } else {
            assert(are_residuals(ops.eval, problem, x, place.f));
        }
    } else {
        assert(are_residuals(ops.eval, problem, x, place.f));
    }
}

proof fn lemma_placed_beside<T>(base: Seq<T>, vars: Seq<VarId>, x: Seq<T>, v: int)
    requires
        vars.len() == x.len(),
        0 <= v < base.len(),
        forall|i: int| 0 <= i < vars.len() ==> (#[trigger] vars[i]).index < base.len(),
        forall|i: int| 0 <= i < vars.len() ==> (#[trigger] vars[i]).index != v,
    ensures
        placed(base, vars, x).len() == base.len(),
        placed(base, vars, x)[v] == base[v],
    decreases vars.len(),
{
    if vars.len() > 0 {
        let rest = vars.drop_last();
        assert forall|i: int| 0 <= i < rest.len() implies (#[trigger] rest[i]).index < base.len()
            && rest[i].index != v by {
            assert(rest[i] == vars[i]);
        }
        lemma_placed_beside(base, rest, x.drop_last(), v);
        assert(vars[vars.len() - 1] == vars.last());
    }
}

/// Values that are in place are put there without a change.
proof fn lemma_placed_again<T>(there: Seq<T>, vars: Seq<VarId>)
    requires
        forall|i: int| 0 <= i < vars.len() ==> (#[trigger] vars[i]).index < there.len(),
    ensures
        placed(there, vars, vars.map_values(|v: VarId| there[v.index as int])) == there,
    decreases vars.len(),
{
    let read = vars.map_values(|v: VarId| there[v.index as int]);
    if vars.len() > 0 {
        let rest = vars.drop_last();
        assert forall|i: int| 0 <= i < rest.len() implies (#[trigger] rest[i]).index
            < there.len() by {
            assert(rest[i] == vars[i]);
        }
        lemma_placed_again(there, rest);
        assert(read.drop_last() =~= rest.map_values(|v: VarId| there[v.index as int]));
        assert(vars[vars.len() - 1] == vars.last());
        assert(placed(there, vars, read) =~= there);
    }
}

proof fn lemma_placed_len<T>(base: Seq<T>, vars: Seq<VarId>, x: Seq<T>)
    requires
        vars.len() == x.len(),
        forall|i: int| 0 <= i < vars.len() ==> (#[trigger] vars[i]).index < base.len(),
    ensures
        placed(base, vars, x).len() == base.len(),
    decreases vars.len(),
{
    if vars.len() > 0 {
        let rest = vars.drop_last();
        assert forall|i: int| 0 <= i < rest.len() implies (#[trigger] rest[i]).index
            < base.len() by {
            assert(rest[i] == vars[i]);
        }
        lemma_placed_len(base, rest, x.drop_last());
        assert(vars[vars.len() - 1] == vars.last());
    }
}

proof fn lemma_equations_alike<T>(a: SketchView<T>, b: SketchView<T>, keys: Seq<u64>)
    requires
        a.points == b.points,
        a.entities == b.entities,
        a.constraints == b.constraints,
    ensures
        equations_under(a, keys) == equations_under(b, keys),
    decreases keys.len(),
{
    if keys.len() > 0 {
        lemma_equations_alike(a, b, keys.drop_last());
    }
}

proof fn lemma_vars_alike<T>(a: SketchView<T>, b: SketchView<T>, keys: Seq<u64>)
    requires
        a.points == b.points,
        a.entities == b.entities,
    ensures
        point_vars(a, keys) == point_vars(b, keys),
        radius_vars(a, keys) == radius_vars(b, keys),
    decreases keys.len(),
{
    if keys.len() > 0 {
        lemma_vars_alike(a, b, keys.drop_last());
    }
}

/// The same residuals are found to be below the tolerance, or not, each time.
proof fn lemma_verdict_alike<T, E: Fn(&Expr<T>, &Vec<T>) -> T, L: Fn(&T, &T) -> bool>(
    eval: E,
    less: L,
    f: Seq<T>,
    a: bool,
    b: bool,
)
    requires
        evaluates_alike(eval),
        compares_alike(less),
        within_tolerance(eval, less, f, a),
        within_tolerance(eval, less, f, b),
    ensures
        a == b,
{
    let (s, t) = choose|size: T, tolerance: T| #[trigger]
        call_ensures(less, (&size, &tolerance), a) && is_largest(eval, f, size) && is_reciprocal(
            eval,
            INVERSE_TOLERANCE,
            tolerance,
        );
    let (u, v) = choose|size: T, tolerance: T| #[trigger]
        call_ensures(less, (&size, &tolerance), b) && is_largest(eval, f, size) && is_reciprocal(
            eval,
            INVERSE_TOLERANCE,
            tolerance,
        );
    assert(s == u && t == v);
}

/// A solved sketch does not move: solving it again takes no iteration and
/// changes nothing, if evaluating and comparing the same has one result each
/// time.
pub proof fn lemma_solved_stays<
    T,
    E: Fn(&Expr<T>, &Vec<T>) -> T,
    L: Fn(&T, &T) -> bool,
    F: Fn(&Vec<Vec<T>>) -> Option<Factors<T>>,
>(
    ops: SolverOps<E, L, F>,
    before: SketchView<T>,
    solved: SketchView<T>,
    iterations: usize,
    result: SolveResult<T>,
    after: SketchView<T>,
)
    requires
        before.readable(),
        in_slot_order(slot_order(before.points.dom()), before.points.dom()),
        in_slot_order(slot_order(before.entities.dom()), before.entities.dom()),
        evaluates_alike(ops.eval),
        compares_alike(ops.less),
        solves(ops, before, Seq::empty(), SolveResult::Solved { iterations }, solved),
        solves(ops, solved, Seq::empty(), result, after),
    ensures
        result == (SolveResult::<T>::Solved { iterations: 0 }),
        after == solved,
{
    let first = problem_of(before, Seq::empty());
    let second = problem_of(solved, Seq::empty());
    lemma_solving_keeps_structure(
        ops,
        before,
        Seq::empty(),
        SolveResult::Solved { iterations },
        solved,
    );
    lemma_equations_alike(before, solved, slot_order(before.constraints.dom()));
    lemma_vars_alike(before, solved, slot_order(before.points.dom()));
    lemma_vars_alike(before, solved, slot_order(before.entities.dom()));
    assert(second.equations == first.equations);
    assert(second.vars == first.vars);
    if first.equations.len() > 0 {
        let x = choose|x: Seq<T>| #[trigger]
            ends(ops, first, SolveResult::Solved { iterations }, x) && x.len() == first.vars.len()
                && solved == (SketchView { vars: placed(before.vars, first.vars, x), ..before });
        let begin = choose|place: Place<T>| #[trigger]
            runs(ops, first, place, 0, SolveResult::Solved { iterations }, x) && is_start(
                ops.eval,
                first,
                place,
            );
        lemma_result_is_measured(ops, first, begin, 0, SolveResult::Solved { iterations }, x);
        let f = choose|f: Seq<T>| #[trigger]
            are_residuals(ops.eval, first, x, f) && within_tolerance(ops.eval, ops.less, f, true);
        lemma_moving_vars(before);
        lemma_placed_len(before.vars, first.vars, x);
        lemma_placed_again(solved.vars, first.vars);
        let y = choose|y: Seq<T>| #[trigger]
            ends(ops, second, result, y) && y.len() == second.vars.len() && after == (SketchView {
                vars: placed(solved.vars, second.vars, y),
                ..solved
            });
        let again = choose|place: Place<T>| #[trigger]
            runs(ops, second, place, 0, result, y) && is_start(ops.eval, second, place);
        assert forall|i: int| 0 <= i < f.len() implies again.f[i] == f[i] by {
            assert(is_residual_value(ops.eval, first.equations[i], solved.vars, f[i]));
            assert(is_residual_value(ops.eval, first.equations[i], solved.vars, again.f[i]));
        }
        assert(again.f =~= f);
        let turn = choose|turn: Turn<T>| #[trigger]
            turns(ops, second, again, turn) && match turn {
                Turn::Converged => result == (SolveResult::<T>::Solved { iterations: 0 }) && y
                    == again.x,
                Turn::Stuck => gives_up(ops.eval, again, result, y),
                Turn::Moved(next) => runs(ops, second, next, 1, result, y),
            };
        lemma_verdict_alike(ops.eval, ops.less, f, true, turn is Converged);
    }
}

/// After solving, the result tells the truth of the sketch as it is then:
/// solved within the largest number of iterations if the residuals of all
/// equations are found to be below the tolerance, and else with the largest
/// of them.
pub proof fn lemma_solving_is_measured<
    T,
    E: Fn(&Expr<T>, &Vec<T>) -> T,
    L: Fn(&T, &T) -> bool,
    F: Fn(&Vec<Vec<T>>) -> Option<Factors<T>>,
>(
    ops: SolverOps<E, L, F>,
    before: SketchView<T>,
    extra: Seq<Equation<T>>,
    result: SolveResult<T>,
    after: SketchView<T>,
)
    requires
        solves(ops, before, extra, result, after),
        all_equations(before).len() + extra.len() > 0,
    ensures
        exists|f: Seq<T>| #[trigger]
            are_values(ops.eval, all_equations(before) + extra, after.vars, f) && within_tolerance(
                ops.eval,
                ops.less,
                f,
                result is Solved,
            ) && match result {
                SolveResult::Solved { iterations } => iterations <= MAX_ITERATIONS,
                SolveResult::DidNotConverge { residual } => is_largest(ops.eval, f, residual),
            },
{
    let problem = problem_of(before, extra);
    let x = choose|x: Seq<T>| #[trigger]
        ends(ops, problem, result, x) && x.len() == problem.vars.len() && after == (SketchView {
            vars: placed(before.vars, problem.vars, x),
            ..before
        });
    let begin = choose|place: Place<T>| #[trigger]
        runs(ops, problem, place, 0, result, x) && is_start(ops.eval, problem, place);
    lemma_result_is_measured(ops, problem, begin, 0, result, x);
    let f = choose|f: Seq<T>| #[trigger]
        are_residuals(ops.eval, problem, x, f) && within_tolerance(
            ops.eval,
            ops.less,
            f,
            result is Solved,
        ) && (result matches SolveResult::DidNotConverge { residual } ==> is_largest(
            ops.eval,
            f,
            residual,
        ));
    assert(are_values(ops.eval, all_equations(before) + extra, after.vars, f));
    if let SolveResult::Solved { iterations } = result {
        lemma_iterations_bounded(ops, problem, begin, 0, iterations, x);
    }
}

/// `f` are the residuals of the equations where the variables have the values.
pub open spec fn are_values<T, E: Fn(&Expr<T>, &Vec<T>) -> T>(
    eval: E,
    equations: Seq<Equation<T>>,
    values: Seq<T>,
    f: Seq<T>,
) -> bool {
    &&& f.len() == equations.len()
    &&& forall|i: int|
        0 <= i < f.len() ==> is_residual_value(eval, equations[i], values, #[trigger] f[i])
}

/// What numbers and variables stand for where the variables have the values.
pub open spec fn reading<T>(num: spec_fn(T) -> real, values: Seq<T>) -> Reading<T> {
    Reading { num, env: |v: VarId| num(values[v.index as int]) }
}

/// The arithmetic computes and compares exactly.
pub open spec fn exact<T, E: Fn(&Expr<T>, &Vec<T>) -> T, L: Fn(&T, &T) -> bool>(
    num: spec_fn(T) -> real,
    eval: E,
    less: L,
) -> bool {
    &&& forall|meaning: spec_fn(Reading<T>) -> real, values: Seq<T>, r: T| #[trigger]
        computes(eval, meaning, values, r) ==> num(r) == meaning(reading(num, values))
    &&& forall|a: &T, b: &T, found: bool| #[trigger]
        call_ensures(less, (a, b), found) ==> found == (num(*a) < num(*b))
}

proof fn lemma_largest<T>(num: spec_fn(T) -> real, f: Seq<T>, i: int)
    requires
        0 <= i < f.len(),
    ensures
        magnitude(num(f[i])) <= largest(num, f),
    decreases f.len(),
{
    if i < f.len() - 1 {
        lemma_largest(num, f.drop_last(), i);
        assert(f.drop_last()[i] == f[i]);
    }
}

/// With exact arithmetic, after solving has ended as solved every residual is
/// below the tolerance.
pub proof fn lemma_solved_within_tolerance<
    T,
    E: Fn(&Expr<T>, &Vec<T>) -> T,
    L: Fn(&T, &T) -> bool,
    F: Fn(&Vec<Vec<T>>) -> Option<Factors<T>>,
>(
    num: spec_fn(T) -> real,
    ops: SolverOps<E, L, F>,
    before: SketchView<T>,
    extra: Seq<Equation<T>>,
    iterations: usize,
    after: SketchView<T>,
    i: int,
)
    requires
        exact(num, ops.eval, ops.less),
        solves(ops, before, extra, SolveResult::Solved { iterations }, after),
        0 <= i < (all_equations(before) + extra).len(),
    ensures
        magnitude(
            weighted_residual((all_equations(before) + extra)[i], reading(num, after.vars)),
        ) < 1real / ((INVERSE_TOLERANCE as int) as real),
{
    let equations = all_equations(before) + extra;
    let result = SolveResult::<T>::Solved { iterations };
    lemma_solving_is_measured(ops, before, extra, result, after);
    let f = choose|f: Seq<T>| #[trigger]
        are_values(ops.eval, equations, after.vars, f) && within_tolerance(
            ops.eval,
            ops.less,
            f,
            true,
        ) && iterations <= MAX_ITERATIONS;
    let (size, tolerance) = choose|size: T, tolerance: T| #[trigger]
        call_ensures(ops.less, (&size, &tolerance), true) && is_largest(ops.eval, f, size)
            && is_reciprocal(ops.eval, INVERSE_TOLERANCE, tolerance);
    assert(num(size) < num(tolerance));
    assert(num(size) == largest(num, f));
    assert(num(tolerance) == 1real / ((INVERSE_TOLERANCE as int) as real));
    lemma_largest(num, f, i);
    assert(is_residual_value(ops.eval, equations[i], after.vars, f[i]));
    assert(num(f[i]) == weighted_residual(equations[i], reading(num, after.vars)));
}

proof fn lemma_full_weights<T>(view: SketchView<T>, keys: Seq<u64>)
    ensures
        forall|i: int|
            0 <= i < equations_under(view, keys).len() ==> (#[trigger] equations_under(
                view,
                keys,
            )[i]).weight is Full,
    decreases keys.len(),
{
    if keys.len() > 0 {
        lemma_full_weights(view, keys.drop_last());
    }
}

proof fn lemma_quarter(x: real, limit: real)
    requires
        magnitude(x * (1real / 4real)) < limit,
    ensures
        magnitude(x) < 4real * limit,
{
    assert(x * (1real / 4real) == x / 4real) by (nonlinear_arith);
}

/// With exact arithmetic, a drag that ends as solved leaves every constraint
/// below the tolerance, and the point within four tolerances of the target on
/// each axis. The list of constraints stays as it was.
pub proof fn lemma_drag_reaches<
    T,
    E: Fn(&Expr<T>, &Vec<T>) -> T,
    L: Fn(&T, &T) -> bool,
    F: Fn(&Vec<Vec<T>>) -> Option<Factors<T>>,
>(
    num: spec_fn(T) -> real,
    ops: SolverOps<E, L, F>,
    before: SketchView<T>,
    point: PointId,
    target: [T; 2],
    iterations: usize,
    after: SketchView<T>,
)
    requires
        exact(num, ops.eval, ops.less),
        before.points.contains_key(point.raw),
        solves(
            ops,
            before,
            pull(before, point, target),
            SolveResult::Solved { iterations },
            after,
        ),
    ensures
        after.constraints == before.constraints,
        forall|i: int|
            0 <= i < all_equations(before).len() ==> magnitude(
                residual_of((#[trigger] all_equations(before)[i]).kind, reading(num, after.vars)),
            ) < 1real / ((INVERSE_TOLERANCE as int) as real),
        forall|k: int|
            0 <= k < 2 ==> magnitude(num(#[trigger] after.position(point)[k]) - num(target[k]))
                < 4real / ((INVERSE_TOLERANCE as int) as real),
{
    let extra = pull(before, point, target);
    let equations = all_equations(before) + extra;
    let n = all_equations(before).len() as int;
    let limit = 1real / ((INVERSE_TOLERANCE as int) as real);
    let at = reading(num, after.vars);
    lemma_solving_keeps_structure(
        ops,
        before,
        extra,
        SolveResult::Solved { iterations },
        after,
    );
    lemma_full_weights(before, slot_order(before.constraints.dom()));
    assert forall|i: int| 0 <= i < n implies magnitude(
        residual_of((#[trigger] all_equations(before)[i]).kind, at),
    ) < limit by {
        lemma_solved_within_tolerance(num, ops, before, extra, iterations, after, i);
        assert(equations[i] == all_equations(before)[i]);
        let r = residual_of(equations[i].kind, at);
        assert(r * 1real == r) by (nonlinear_arith);
    }
    let p = before.points[point.raw];
    assert forall|k: int| 0 <= k < 2 implies magnitude(
        num(#[trigger] after.position(point)[k]) - num(target[k]),
    ) < 4real / ((INVERSE_TOLERANCE as int) as real) by {
        lemma_solved_within_tolerance(num, ops, before, extra, iterations, after, n + k);
        assert(equations[n + k] == extra[k]);
        let v = if k == 0 {
            p.x
        } else {
            p.y
        };
        assert(extra[k] == (Equation { kind: EqKind::Value(v, target[k]), weight: Weight::Drag }));
        let r = residual_of(extra[k].kind, at);
        assert(r == num(after.vars[v.index as int]) - num(target[k]));
        assert(after.position(point)[k] == after.vars[v.index as int]);
        lemma_quarter(r, limit);
        let whole = (INVERSE_TOLERANCE as int) as real;
        assert(4real * (1real / whole) == 4real / whole) by (nonlinear_arith)
            requires
                whole > 0real,
        ;
    }
}

/// The first `n` terms of the product of two lists.
pub open spec fn dot(a: Seq<real>, b: Seq<real>, n: int) -> real
    decreases n,
{
    if n <= 0 {
        0real
    } else {
        dot(a, b, n - 1) + a[n - 1] * b[n - 1]
    }
}

/// What the numbers of a list stand for.
pub open spec fn numbers<T>(num: spec_fn(T) -> real, list: Seq<T>) -> Seq<real> {
    list.map_values(num)
}

/// How far each coordinate moves.
pub open spec fn motion<T>(num: spec_fn(T) -> real, x: Seq<T>, there: Seq<T>) -> Seq<real> {
    Seq::new(x.len(), |c: int| num(there[c]) - num(x[c]))
}

/// The direction is at right angles to every direction of the decomposition:
/// to first order no residual changes along it.
pub open spec fn is_free<T>(num: spec_fn(T) -> real, d: Factors<T>, w: Seq<real>) -> bool {
    forall|i: int|
        0 <= i < d.v_t@.len() ==> dot(
            numbers(num, (#[trigger] d.v_t@[i])@),
            w,
            w.len() as int,
        ) == 0real
}

/// The first `n` terms of the product of a move, given by its first `j`
/// lengths, with a direction.
spec fn swept<T>(
    num: spec_fn(T) -> real,
    v_t: Seq<Vec<T>>,
    lengths: Seq<T>,
    w: Seq<real>,
    j: int,
    n: int,
) -> real
    decreases n,
{
    if n <= 0 {
        0real
    } else {
        swept(num, v_t, lengths, w, j, n - 1) + across(num, v_t, lengths, n - 1, j) * w[n - 1]
    }
}

proof fn lemma_product_of_sum(p: real, v: real, l: real, w: real)
    ensures
        (p + v * l) * w == p * w + l * (v * w),
{
    assert((p + v * l) * w == p * w + l * (v * w)) by (nonlinear_arith);
}

proof fn lemma_sum_of_products(l: real, a: real, b: real)
    ensures
        l * (a + b) == l * a + l * b,
{
    assert(l * (a + b) == l * a + l * b) by (nonlinear_arith);
}

proof fn lemma_swept_on<T>(
    num: spec_fn(T) -> real,
    v_t: Seq<Vec<T>>,
    lengths: Seq<T>,
    w: Seq<real>,
    j: int,
    n: int,
)
    requires
        0 < j <= v_t.len(),
        0 <= n <= v_t[j - 1]@.len(),
    ensures
        swept(num, v_t, lengths, w, j, n) == swept(num, v_t, lengths, w, j - 1, n) + num(
            lengths[j - 1],
        ) * dot(numbers(num, v_t[j - 1]@), w, n),
    decreases n,
{
    let l = num(lengths[j - 1]);
    let row = numbers(num, v_t[j - 1]@);
    if n > 0 {
        lemma_swept_on(num, v_t, lengths, w, j, n - 1);
        let p = across(num, v_t, lengths, n - 1, j - 1);
        lemma_product_of_sum(p, row[n - 1], l, w[n - 1]);
        lemma_sum_of_products(l, dot(row, w, n - 1), row[n - 1] * w[n - 1]);
        assert(across(num, v_t, lengths, n - 1, j) == p + row[n - 1] * l);
    } else {
        assert(l * 0real == 0real) by (nonlinear_arith);
    }
}

proof fn lemma_swept_none<T>(
    num: spec_fn(T) -> real,
    d: Factors<T>,
    lengths: Seq<T>,
    w: Seq<real>,
    j: int,
    n: int,
)
    requires
        is_free(num, d, w),
        0 <= j <= d.v_t@.len(),
        n == w.len(),
        forall|i: int| 0 <= i < d.v_t@.len() ==> (#[trigger] d.v_t@[i])@.len() == n,
    ensures
        swept(num, d.v_t@, lengths, w, j, n) == 0real,
    decreases j,
{
    if j > 0 {
        lemma_swept_none(num, d, lengths, w, j - 1, n);
        assert(d.v_t@[j - 1]@.len() == n);
        lemma_swept_on(num, d.v_t@, lengths, w, j, n);
        let l = num(lengths[j - 1]);
        assert(l * 0real == 0real) by (nonlinear_arith);
    } else {
        lemma_swept_start(num, d.v_t@, lengths, w, n);
    }
}

proof fn lemma_swept_start<T>(
    num: spec_fn(T) -> real,
    v_t: Seq<Vec<T>>,
    lengths: Seq<T>,
    w: Seq<real>,
    n: int,
)
    requires
        0 <= n,
    ensures
        swept(num, v_t, lengths, w, 0, n) == 0real,
    decreases n,
{
    if n > 0 {
        lemma_swept_start(num, v_t, lengths, w, n - 1);
        let last = w[n - 1];
        assert(0real * last == 0real) by (nonlinear_arith);
    }
}

proof fn lemma_motion_swept<T>(
    num: spec_fn(T) -> real,
    v_t: Seq<Vec<T>>,
    lengths: Seq<T>,
    m: Seq<real>,
    w: Seq<real>,
    n: int,
)
    requires
        0 <= n <= m.len(),
        forall|c: int|
            0 <= c < n ==> #[trigger] m[c] == -across(num, v_t, lengths, c, lengths.len() as int),
    ensures
        dot(m, w, n) == -swept(num, v_t, lengths, w, lengths.len() as int, n),
    decreases n,
{
    if n > 0 {
        lemma_motion_swept(num, v_t, lengths, m, w, n - 1);
        let a = across(num, v_t, lengths, n - 1, lengths.len() as int);
        let last = w[n - 1];
        assert(m[n - 1] == -a);
        assert((-a) * last == -(a * last)) by (nonlinear_arith);
    }
}

/// The squares of two lists and of their sum.
proof fn lemma_dot_of_sum(a: Seq<real>, b: Seq<real>, sum: Seq<real>, n: int)
    requires
        0 <= n,
        forall|c: int| 0 <= c < n ==> #[trigger] sum[c] == a[c] + b[c],
    ensures
        dot(sum, sum, n) == dot(a, a, n) + 2real * dot(a, b, n) + dot(b, b, n),
        dot(b, b, n) >= 0real,
    decreases n,
{
    if n > 0 {
        lemma_dot_of_sum(a, b, sum, n - 1);
        let p = a[n - 1];
        let q = b[n - 1];
        assert(sum[n - 1] == p + q);
        assert((p + q) * (p + q) == p * p + 2real * (p * q) + q * q) by (nonlinear_arith);
        assert(q * q >= 0real) by (nonlinear_arith);
    }
}

/// Least motion: with exact arithmetic a damped step has no part in a
/// direction along which no residual changes, so that no other way to the same
/// change is shorter.
pub proof fn lemma_least_motion<
    T,
    E: Fn(&Expr<T>, &Vec<T>) -> T,
    L: Fn(&T, &T) -> bool,
>(
    num: spec_fn(T) -> real,
    eval: E,
    less: L,
    d: Factors<T>,
    f: Seq<T>,
    x: Seq<T>,
    damping: T,
    there: Seq<T>,
    w: Seq<real>,
)
    requires
        exact(num, eval, less),
        d.fits(f.len() as int, x.len() as int),
        proposes(eval, d, f, x, damping, there),
        w.len() == x.len(),
        is_free(num, d, w),
    ensures
        dot(motion(num, x, there), w, x.len() as int) == 0real,
        ({
            let m = motion(num, x, there);
            let other = Seq::new(x.len(), |c: int| m[c] + w[c]);
            dot(m, m, x.len() as int) <= dot(other, other, x.len() as int)
        }),
{
    let n = x.len() as int;
    let lengths = choose|lengths: Seq<T>| #[trigger]
        are_lengths(eval, d, f, damping, lengths) && is_moved(eval, d, x, lengths, there);
    let m = motion(num, x, there);
    assert forall|c: int| 0 <= c < n implies #[trigger] m[c] == -across(
        num,
        d.v_t@,
        lengths,
        c,
        lengths.len() as int,
    ) by {
        let meaning = |at: Reading<T>|
            (at.num)(x[c]) - across(at.num, d.v_t@, lengths, c, lengths.len() as int);
        assert(computes(eval, meaning, Seq::empty(), there[c]));
        assert(num(there[c]) == meaning(reading(num, Seq::empty())));
    }
    lemma_motion_swept(num, d.v_t@, lengths, m, w, n);
    lemma_swept_none(num, d, lengths, w, lengths.len() as int, n);
    let other = Seq::new(x.len(), |c: int| m[c] + w[c]);
    lemma_dot_of_sum(m, w, other, n);
}

/// The directions of the decomposition have length one and stand at right
/// angles to each other.
pub open spec fn is_orthonormal<T>(num: spec_fn(T) -> real, rows: Seq<Vec<T>>) -> bool {
    forall|i: int, j: int|
        0 <= i < rows.len() && 0 <= j < rows.len() ==> dot(
            numbers(num, (#[trigger] rows[i])@),
            numbers(num, (#[trigger] rows[j])@),
            rows[j]@.len() as int,
        ) == if i == j {
            1real
        } else {
            0real
        }
}

proof fn lemma_swept_one<T>(
    num: spec_fn(T) -> real,
    d: Factors<T>,
    lengths: Seq<T>,
    k: int,
    j: int,
    n: int,
)
    requires
        is_orthonormal(num, d.v_t@),
        0 <= k < d.v_t@.len(),
        0 <= j <= d.v_t@.len(),
        0 <= n,
        forall|i: int| 0 <= i < d.v_t@.len() ==> (#[trigger] d.v_t@[i])@.len() == n,
    ensures
        swept(num, d.v_t@, lengths, numbers(num, d.v_t@[k]@), j, n) == if j > k {
            num(lengths[k])
        } else {
            0real
        },
    decreases j,
{
    let w = numbers(num, d.v_t@[k]@);
    assert(d.v_t@[k]@.len() == n);
    if j > 0 {
        lemma_swept_one(num, d, lengths, k, j - 1, n);
        assert(d.v_t@[j - 1]@.len() == n);
        lemma_swept_on(num, d.v_t@, lengths, w, j, n);
        let l = num(lengths[j - 1]);
        assert(l * 0real == 0real) by (nonlinear_arith);
        assert(l * 1real == l) by (nonlinear_arith);
    } else {
        lemma_swept_start(num, d.v_t@, lengths, w, n);
    }
}

/// A column of a matrix.
pub open spec fn column_of<T>(num: spec_fn(T) -> real, rows: Seq<Vec<T>>, i: int) -> Seq<real> {
    Seq::new(rows.len(), |r: int| num(rows[r]@[i]))
}

proof fn lemma_along<T>(num: spec_fn(T) -> real, u: Seq<Vec<T>>, f: Seq<T>, i: int, n: int)
    requires
        0 <= n <= u.len(),
        n <= f.len(),
    ensures
        along(num, u, f, i, n) == dot(column_of(num, u, i), numbers(num, f), n),
    decreases n,
{
    if n > 0 {
        lemma_along(num, u, f, i, n - 1);
    }
}

/// A damped step is what it should be: with exact arithmetic, its part along
/// each direction of the decomposition solves the damped equation of that
/// direction. With a singular value of `s` and the damping that is the square of
/// `s` plus the damping, times the part of the step, plus `s` times the part of
/// the residuals, is zero.
pub proof fn lemma_damped_step<T, E: Fn(&Expr<T>, &Vec<T>) -> T, L: Fn(&T, &T) -> bool>(
    num: spec_fn(T) -> real,
    eval: E,
    less: L,
    d: Factors<T>,
    f: Seq<T>,
    x: Seq<T>,
    damping: T,
    there: Seq<T>,
    k: int,
)
    requires
        exact(num, eval, less),
        d.fits(f.len() as int, x.len() as int),
        is_orthonormal(num, d.v_t@),
        proposes(eval, d, f, x, damping, there),
        num(damping) > 0real,
        0 <= k < d.s@.len(),
    ensures
        ({
            let s = num(d.s@[k]);
            let step = dot(motion(num, x, there), numbers(num, d.v_t@[k]@), x.len() as int);
            let gap = dot(column_of(num, d.u@, k), numbers(num, f), f.len() as int);
            (s * s + num(damping)) * step + s * gap == 0real
        }),
{
    let n = x.len() as int;
    let lengths = choose|lengths: Seq<T>| #[trigger]
        are_lengths(eval, d, f, damping, lengths) && is_moved(eval, d, x, lengths, there);
    let m = motion(num, x, there);
    let w = numbers(num, d.v_t@[k]@);
    assert forall|c: int| 0 <= c < n implies #[trigger] m[c] == -across(
        num,
        d.v_t@,
        lengths,
        c,
        lengths.len() as int,
    ) by {
        let meaning = |at: Reading<T>|
            (at.num)(x[c]) - across(at.num, d.v_t@, lengths, c, lengths.len() as int);
        assert(computes(eval, meaning, Seq::empty(), there[c]));
        assert(num(there[c]) == meaning(reading(num, Seq::empty())));
    }
    lemma_motion_swept(num, d.v_t@, lengths, m, w, n);
    lemma_swept_one(num, d, lengths, k, lengths.len() as int, n);
    let l = num(lengths[k]);
    let far = |at: Reading<T>| damped_length(at.num, d, f, damping, k);
    assert(computes(eval, far, Seq::empty(), lengths[k]));
    assert(num(lengths[k]) == far(reading(num, Seq::empty())));
    lemma_along(num, d.u@, f, k, f.len() as int);
    let s = num(d.s@[k]);
    let gap = along(num, d.u@, f, k, f.len() as int);
    let whole = s * s + num(damping);
    assert(s * s >= 0real) by (nonlinear_arith);
    let part = s / whole;
    assert(whole * part == s) by (nonlinear_arith)
        requires
            whole > 0real,
            part == s / whole,
    ;
    assert(l == gap * part);
    assert(whole * l == s * gap) by (nonlinear_arith)
        requires
            l == gap * part,
            whole * part == s,
    ;
    assert(whole * (-l) == -(whole * l)) by (nonlinear_arith);
}

} // verus!
