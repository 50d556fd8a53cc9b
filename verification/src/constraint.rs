//! Constraints and the scalar equations that they stand for.
use vstd::prelude::*;

use crate::expr::{Expr, Reading};
use crate::ids::{EntityId, PointId, VarId};

verus! {

/// A geometric constraint.
#[derive(Debug, Clone, Copy, PartialEq)]
pub enum Constraint<T> {
    /// Two points coincide.
    Coincident(PointId, PointId),
    /// A line is horizontal.
    Horizontal(EntityId),
    /// A line is vertical.
    Vertical(EntityId),
    /// Two lines are parallel.
    Parallel(EntityId, EntityId),
    /// Two lines are perpendicular.
    Perpendicular(EntityId, EntityId),
    /// Distance of two points.
    Distance(PointId, PointId, T),
    /// Radius of a circle.
    Radius(EntityId, T),
    /// Two lines have the same length.
    Equal(EntityId, EntityId),
}

/// Why a constraint cannot be added.
#[derive(Debug, Clone, Copy, PartialEq, Eq, Structural)]
pub enum ConstraintError {
    /// The entity is no line.
    NotALine,
    /// The entity is no circle.
    NotACircle,
    /// The point or entity does not exist (any more).
    UnknownRef,
}

/// Kinds of scalar equations. A line is given by the variables
/// `[ax, ay, bx, by]` of its end points, a pair of lines by
/// `[ax, ay, bx, by, cx, cy, ex, ey]`, with directions `b - a` and `e - c`.
#[derive(Debug, Clone, Copy, PartialEq)]
pub enum EqKind<T> {
    /// `a - b = 0`
    Diff(VarId, VarId),
    /// `v - value = 0`
    Value(VarId, T),
    /// `|p - q|^2 - d^2 = 0`, over `[px, py, qx, qy]`
    DistSq([VarId; 4], T),
    /// The cross product of the directions is 0.
    Cross([VarId; 8]),
    /// The dot product of the directions is 0.
    Dot([VarId; 8]),
    /// The squared lengths of the directions are equal.
    EqualLenSq([VarId; 8]),
}

/// How strongly an equation counts.
#[derive(Debug, Clone, Copy, PartialEq, Eq, Structural)]
pub enum Weight {
    /// A hard constraint: weight 1.
    Full,
    /// The pull on a dragged point: weight 1/4, low enough for hard
    /// constraints to win.
    Drag,
}

impl Weight {
    /// The real number that the weight is.
    pub open spec fn value(self) -> real {
        match self {
            Weight::Full => 1real,
            Weight::Drag => 1real / 4real,
        }
    }

    /// The weight as a formula.
    pub open spec fn formula<T>(self) -> Expr<T> {
        match self {
            Weight::Full => Expr::Ratio(1, 1),
            Weight::Drag => Expr::Ratio(1, 4),
        }
    }

    /// The weight as a formula.
    fn factor<T>(self) -> (e: Expr<T>)
        ensures
            e == self.formula::<T>(),
            forall|at: Reading<T>| #[trigger] e.eval(at) == self.value(),
    {
        match self {
            Weight::Full => one(),
            Weight::Drag => {
                assert((1 as int) as real / (4 as int) as real == 1real / 4real);
                Expr::ratio(1, 4)
            },
        }
    }
}

/// A scalar equation `r(x) = 0` over the variables, with a weight.
#[derive(Debug, Clone, Copy, PartialEq)]
pub struct Equation<T> {
    /// The equation.
    pub kind: EqKind<T>,
    /// Its weight.
    pub weight: Weight,
}

/// The cross product of the directions `b - a` and `e - c`.
pub open spec fn cross_of(v: [VarId; 8], env: spec_fn(VarId) -> real) -> real {
    (env(v[2]) - env(v[0])) * (env(v[7]) - env(v[5])) - (env(v[3]) - env(v[1])) * (env(v[6]) - env(
        v[4],
    ))
}

/// The dot product of the directions `b - a` and `e - c`.
pub open spec fn dot_of(v: [VarId; 8], env: spec_fn(VarId) -> real) -> real {
    (env(v[2]) - env(v[0])) * (env(v[6]) - env(v[4])) + (env(v[3]) - env(v[1])) * (env(v[7]) - env(
        v[5],
    ))
}

/// `|p - q|^2` for the points `[px, py]` and `[qx, qy]`.
pub open spec fn dist_sq(px: real, py: real, qx: real, qy: real) -> real {
    (px - qx) * (px - qx) + (py - qy) * (py - qy)
}

/// How far the variables are from meeting an equation.
pub open spec fn residual_of<T>(kind: EqKind<T>, at: Reading<T>) -> real {
    let env = at.env;
    match kind {
        EqKind::Diff(a, b) => env(a) - env(b),
        EqKind::Value(v, value) => env(v) - (at.num)(value),
        EqKind::DistSq(v, d) => dist_sq(env(v[0]), env(v[1]), env(v[2]), env(v[3])) - (at.num)(d)
            * (at.num)(d),
        EqKind::Cross(v) => cross_of(v, env),
        EqKind::Dot(v) => dot_of(v, env),
        EqKind::EqualLenSq(v) => dist_sq(env(v[0]), env(v[1]), env(v[2]), env(v[3])) - dist_sq(
            env(v[4]),
            env(v[5]),
            env(v[6]),
            env(v[7]),
        ),
    }
}

/// One partial derivative: the variable and the formula of the derivative.
pub struct Partial<T> {
    /// The variable by which the residual is differentiated.
    pub var: VarId,
    /// The derivative.
    pub slope: Expr<T>,
}

/// Change of the residual to first order when the variables move along
/// `dir`: the sum of all partial derivatives, each times the motion of its
/// variable.
pub open spec fn slope_along<T>(
    partials: Seq<Partial<T>>,
    at: Reading<T>,
    dir: spec_fn(VarId) -> real,
) -> real
    decreases partials.len(),
{
    if partials.len() == 0 {
        0real
    } else {
        slope_along(partials.drop_last(), at, dir) + partials.last().slope.eval(at) * dir(
            partials.last().var,
        )
    }
}

/// The variables moved along `dir`.
pub open spec fn moved<T>(at: Reading<T>, dir: spec_fn(VarId) -> real) -> Reading<T> {
    Reading { num: at.num, env: |v: VarId| (at.env)(v) + dir(v) }
}

/// The variables moved against `dir`.
pub open spec fn moved_back<T>(at: Reading<T>, dir: spec_fn(VarId) -> real) -> Reading<T> {
    Reading { num: at.num, env: |v: VarId| (at.env)(v) - dir(v) }
}

/// How far the variables are from meeting a weighted equation.
pub open spec fn weighted_residual<T>(eq: Equation<T>, at: Reading<T>) -> real {
    residual_of(eq.kind, at) * eq.weight.value()
}

/// `partials` is the exact derivative of the residual of `kind`: at every
/// place and along every direction the central difference is twice the slope.
pub open spec fn is_derivative<T>(kind: EqKind<T>, partials: Seq<Partial<T>>) -> bool {
    forall|at: Reading<T>, dir: spec_fn(VarId) -> real|
        residual_of(kind, moved(at, dir)) - residual_of(kind, moved_back(at, dir)) == 2real
            * #[trigger] slope_along(partials, at, dir)
}

/// `e` is a formula of the weighted residual.
pub open spec fn is_residual<T>(eq: Equation<T>, e: Expr<T>) -> bool {
    forall|at: Reading<T>| #[trigger] e.eval(at) == weighted_residual(eq, at)
}

/// `partials` is the exact derivative of the weighted residual.
pub open spec fn is_gradient<T>(eq: Equation<T>, partials: Seq<Partial<T>>) -> bool {
    forall|at: Reading<T>, dir: spec_fn(VarId) -> real|
        weighted_residual(eq, moved(at, dir)) - weighted_residual(eq, moved_back(at, dir)) == 2real
            * #[trigger] slope_along(partials, at, dir)
}

/// The equation mentions the variable.
pub open spec fn equation_uses<T>(kind: EqKind<T>, v: VarId) -> bool {
    match kind {
        EqKind::Diff(a, b) => v == a || v == b,
        EqKind::Value(a, _) => v == a,
        EqKind::DistSq(vs, _) => vs@.contains(v),
        EqKind::Cross(vs) | EqKind::Dot(vs) | EqKind::EqualLenSq(vs) => vs@.contains(v),
    }
}

/// `a - b`, as a formula.
pub open spec fn gap_formula<T>(a: VarId, b: VarId) -> Expr<T> {
    Expr::Sub(Box::new(Expr::Var(a)), Box::new(Expr::Var(b)))
}

/// `(a - b) * (c - d)`, as a formula.
pub open spec fn gaps_formula<T>(a: VarId, b: VarId, c: VarId, d: VarId) -> Expr<T> {
    Expr::Mul(Box::new(gap_formula(a, b)), Box::new(gap_formula(c, d)))
}

/// The sum of two such products, as a formula.
pub open spec fn gaps_sum_formula<T>(
    a: (VarId, VarId, VarId, VarId),
    b: (VarId, VarId, VarId, VarId),
) -> Expr<T> {
    Expr::Add(
        Box::new(gaps_formula(a.0, a.1, a.2, a.3)),
        Box::new(gaps_formula(b.0, b.1, b.2, b.3)),
    )
}

/// The residual of an equation, as a formula.
pub open spec fn residual_formula<T>(kind: EqKind<T>) -> Expr<T> {
    match kind {
        EqKind::Diff(a, b) => gap_formula(a, b),
        EqKind::Value(v, value) => Expr::Sub(
            Box::new(Expr::Var(v)),
            Box::new(Expr::Value(value)),
        ),
        EqKind::DistSq(v, d) => Expr::Sub(
            Box::new(
                gaps_sum_formula((v[0], v[2], v[0], v[2]), (v[1], v[3], v[1], v[3])),
            ),
            Box::new(Expr::Mul(Box::new(Expr::Value(d)), Box::new(Expr::Value(d)))),
        ),
        EqKind::Cross(v) => Expr::Sub(
            Box::new(gaps_formula(v[2], v[0], v[7], v[5])),
            Box::new(gaps_formula(v[3], v[1], v[6], v[4])),
        ),
        EqKind::Dot(v) => gaps_sum_formula((v[2], v[0], v[6], v[4]), (v[3], v[1], v[7], v[5])),
        EqKind::EqualLenSq(v) => Expr::Sub(
            Box::new(
                Expr::Sub(
                    Box::new(
                        gaps_sum_formula((v[2], v[0], v[2], v[0]), (v[3], v[1], v[3], v[1])),
                    ),
                    Box::new(gaps_formula(v[6], v[4], v[6], v[4])),
                ),
            ),
            Box::new(gaps_formula(v[7], v[5], v[7], v[5])),
        ),
    }
}

/// `a - b`.
fn gap<T>(a: VarId, b: VarId) -> (e: Expr<T>)
    ensures
        e == gap_formula::<T>(a, b),
        forall|at: Reading<T>| #[trigger] e.eval(at) == (at.env)(a) - (at.env)(b),
{
    Expr::difference(Expr::var(a), Expr::var(b))
}

/// The number 1.
fn one<T>() -> (e: Expr<T>)
    ensures
        e == Expr::<T>::Ratio(1, 1),
        forall|at: Reading<T>| #[trigger] e.eval(at) == 1real,
{
    assert((1 as int) as real / (1 as int) as real == 1real);
    Expr::ratio(1, 1)
}

/// The number -1.
fn minus_one<T>() -> (e: Expr<T>)
    ensures
        forall|at: Reading<T>| #[trigger] e.eval(at) == -1real,
{
    assert((-1 as int) as real / (1 as int) as real == -1real);
    Expr::ratio(-1, 1)
}

/// `2 * (a - b)`.
fn double_gap<T>(a: VarId, b: VarId) -> (e: Expr<T>)
    ensures
        forall|at: Reading<T>| #[trigger] e.eval(at) == 2real * ((at.env)(a) - (at.env)(b)),
{
    let e = Expr::product(Expr::ratio(2, 1), gap(a, b));
    assert((2 as int) as real / (1 as int) as real == 2real);
    e
}

/// `-2 * (a - b)`.
fn minus_double_gap<T>(a: VarId, b: VarId) -> (e: Expr<T>)
    ensures
        forall|at: Reading<T>| #[trigger] e.eval(at) == -2real * ((at.env)(a) - (at.env)(b)),
{
    let e = Expr::product(Expr::ratio(-2, 1), gap(a, b));
    assert((-2 as int) as real / (1 as int) as real == -2real);
    e
}

/// `(a - b) * (c - d)`.
fn gap_product<T>(a: VarId, b: VarId, c: VarId, d: VarId) -> (e: Expr<T>)
    ensures
        e == gaps_formula::<T>(a, b, c, d),
        forall|at: Reading<T>| #[trigger]
            e.eval(at) == ((at.env)(a) - (at.env)(b)) * ((at.env)(c) - (at.env)(d)),
{
    Expr::product(gap(a, b), gap(c, d))
}

/// Adds a partial derivative to the list.
fn record<T>(out: &mut Vec<Partial<T>>, var: VarId, slope: Expr<T>)
    ensures
        final(out)@ == old(out)@.push(Partial { var, slope }),
        forall|at: Reading<T>, dir: spec_fn(VarId) -> real| #[trigger]
            slope_along(final(out)@, at, dir) == slope_along(old(out)@, at, dir) + slope.eval(at)
                * dir(var),
{
    let ghost before = out@;
    out.push(Partial { var, slope });
    assert(out@.drop_last() =~= before);
}

impl<T: Copy> EqKind<T> {
    /// The formula of the residual.
    fn residual(&self) -> (e: Expr<T>)
        ensures
            e == residual_formula(*self),
            forall|at: Reading<T>| #[trigger] e.eval(at) == residual_of(*self, at),
    {
        match *self {
            EqKind::Diff(a, b) => gap(a, b),
            EqKind::Value(v, value) => Expr::difference(Expr::var(v), Expr::value(value)),
            EqKind::DistSq(v, d) => Expr::difference(
                Expr::sum(
                    gap_product(v[0], v[2], v[0], v[2]),
                    gap_product(v[1], v[3], v[1], v[3]),
                ),
                Expr::product(Expr::value(d), Expr::value(d)),
            ),
            EqKind::Cross(v) => Expr::difference(
                gap_product(v[2], v[0], v[7], v[5]),
                gap_product(v[3], v[1], v[6], v[4]),
            ),
            EqKind::Dot(v) => Expr::sum(
                gap_product(v[2], v[0], v[6], v[4]),
                gap_product(v[3], v[1], v[7], v[5]),
            ),
            EqKind::EqualLenSq(v) => {
                let first = Expr::sum(
                    gap_product(v[2], v[0], v[2], v[0]),
                    gap_product(v[3], v[1], v[3], v[1]),
                );
                let e = Expr::difference(
                    Expr::difference(first, gap_product(v[6], v[4], v[6], v[4])),
                    gap_product(v[7], v[5], v[7], v[5]),
                );
                assert forall|at: Reading<T>| #[trigger] e.eval(at) == residual_of(*self, at) by {
                    let env = at.env;
                    let (ax, ay, bx, by) = (env(v[0]), env(v[1]), env(v[2]), env(v[3]));
                    let (cx, cy, ex, ey) = (env(v[4]), env(v[5]), env(v[6]), env(v[7]));
                    lemma_square_of_gap(bx, ax);
                    lemma_square_of_gap(by, ay);
                    lemma_square_of_gap(ex, cx);
                    lemma_square_of_gap(ey, cy);
                }
                e
            },
        }
    }
}

impl<T> Equation<T> {
    /// The weighted residual, as a formula.
    pub open spec fn formula(self) -> Expr<T> {
        Expr::Mul(Box::new(residual_formula(self.kind)), Box::new(self.weight.formula()))
    }
}

impl<T: Copy> Equation<T> {
    /// An equation of full weight.
    pub fn new(kind: EqKind<T>) -> (eq: Self)
        ensures
            eq == (Equation { kind, weight: Weight::Full }),
    {
        Equation { kind, weight: Weight::Full }
    }

    /// An equation of a given weight.
    pub fn weighted(kind: EqKind<T>, weight: Weight) -> (eq: Self)
        ensures
            eq == (Equation { kind, weight }),
    {
        Equation { kind, weight }
    }

    /// The formula of the weighted residual.
    pub fn residual(&self) -> (e: Expr<T>)
        ensures
            e == self.formula(),
            is_residual(*self, e),
    {
        let e = Expr::product(self.kind.residual(), self.weight.factor());
        e
    }

    /// The partial derivatives of the weighted residual. A variable may occur
    /// more than once; its derivatives add up.
    pub fn jacobian(&self) -> (partials: Vec<Partial<T>>)
        ensures
            is_gradient(*self, partials@),
            forall|i: int|
                0 <= i < partials@.len() ==> equation_uses(self.kind, #[trigger] partials@[i].var),
    {
        let mut plain = self.kind.jacobian();
        let ghost all = plain@;
        let mut partials: Vec<Partial<T>> = Vec::new();
        proof {
            assert forall|at: Reading<T>, dir: spec_fn(VarId) -> real| #[trigger]
                slope_along(partials@, at, dir) == slope_along(all.take(0), at, dir)
                    * self.weight.value() by {
                assert(all.take(0).len() == 0);
                assert(0real * self.weight.value() == 0real) by (nonlinear_arith);
            }
        }
        while plain.len() > 0
            invariant
                partials@.len() <= all.len(),
                plain@ == all.skip(partials@.len() as int),
                forall|at: Reading<T>, dir: spec_fn(VarId) -> real| #[trigger]
                    slope_along(partials@, at, dir) == slope_along(
                        all.take(partials@.len() as int),
                        at,
                        dir,
                    ) * self.weight.value(),
                forall|i: int|
                    0 <= i < partials@.len() ==> (#[trigger] partials@[i]).var == all[i].var,
            decreases plain@.len(),
        {
            let ghost n = partials@.len() as int;
            let ghost before = partials@;
            let Partial { var, slope } = plain.remove(0);
            let ghost plain_slope = slope;
            record(&mut partials, var, Expr::product(slope, self.weight.factor()));
            proof {
                let w = self.weight.value();
                assert(all.take(n + 1).drop_last() =~= all.take(n));
                assert forall|at: Reading<T>, dir: spec_fn(VarId) -> real| #[trigger]
                    slope_along(partials@, at, dir) == slope_along(all.take(n + 1), at, dir) * w by {
                    let s0 = slope_along(before, at, dir);
                    let s = slope_along(all.take(n), at, dir);
                    let g = plain_slope.eval(at);
                    let d = dir(var);
                    assert(s0 == s * w);
                    lemma_distribute(w, s, g * d);
                    assert((g * w) * d == (g * d) * w) by (nonlinear_arith);
                }
            }
        }
        proof {
            let w = self.weight.value();
            assert(all.take(all.len() as int) =~= all);
            assert forall|at: Reading<T>, dir: spec_fn(VarId) -> real|
                weighted_residual(*self, moved(at, dir)) - weighted_residual(
                    *self,
                    moved_back(at, dir),
                ) == 2real * #[trigger] slope_along(partials@, at, dir) by {
                let up = residual_of(self.kind, moved(at, dir));
                let down = residual_of(self.kind, moved_back(at, dir));
                let s = slope_along(all, at, dir);
                assert(up - down == 2real * s);
                lemma_distribute(w, up, down);
                assert((2real * s) * w == 2real * (s * w)) by (nonlinear_arith);
            }
        }
        partials
    }
}

impl<T: Copy> EqKind<T> {
    /// The partial derivatives of the residual. A variable may occur more
    /// than once; its derivatives add up.
    fn jacobian(&self) -> (partials: Vec<Partial<T>>)
        ensures
            is_derivative(*self, partials@),
            forall|i: int|
                0 <= i < partials@.len() ==> equation_uses(*self, #[trigger] partials@[i].var),
    {
        let mut out: Vec<Partial<T>> = Vec::new();
        match *self {
            EqKind::Diff(a, b) => {
                record(&mut out, a, one());
                record(&mut out, b, minus_one());
            },
            EqKind::Value(v, _) => {
                record(&mut out, v, one());
            },
            EqKind::DistSq(v, _) => {
                record(&mut out, v[0], double_gap(v[0], v[2]));
                record(&mut out, v[2], minus_double_gap(v[0], v[2]));
                record(&mut out, v[1], double_gap(v[1], v[3]));
                record(&mut out, v[3], minus_double_gap(v[1], v[3]));
            },
            EqKind::Cross(v) => {
                record(&mut out, v[0], Expr::negated(gap(v[7], v[5])));
                record(&mut out, v[2], gap(v[7], v[5]));
                record(&mut out, v[1], gap(v[6], v[4]));
                record(&mut out, v[3], Expr::negated(gap(v[6], v[4])));
                record(&mut out, v[4], gap(v[3], v[1]));
                record(&mut out, v[6], Expr::negated(gap(v[3], v[1])));
                record(&mut out, v[5], Expr::negated(gap(v[2], v[0])));
                record(&mut out, v[7], gap(v[2], v[0]));
            },
            EqKind::Dot(v) => {
                record(&mut out, v[0], Expr::negated(gap(v[6], v[4])));
                record(&mut out, v[2], gap(v[6], v[4]));
                record(&mut out, v[1], Expr::negated(gap(v[7], v[5])));
                record(&mut out, v[3], gap(v[7], v[5]));
                record(&mut out, v[4], Expr::negated(gap(v[2], v[0])));
                record(&mut out, v[6], gap(v[2], v[0]));
                record(&mut out, v[5], Expr::negated(gap(v[3], v[1])));
                record(&mut out, v[7], gap(v[3], v[1]));
            },
            EqKind::EqualLenSq(v) => {
                record(&mut out, v[0], minus_double_gap(v[2], v[0]));
                record(&mut out, v[2], double_gap(v[2], v[0]));
                record(&mut out, v[1], minus_double_gap(v[3], v[1]));
                record(&mut out, v[3], double_gap(v[3], v[1]));
                record(&mut out, v[4], double_gap(v[6], v[4]));
                record(&mut out, v[6], minus_double_gap(v[6], v[4]));
                record(&mut out, v[5], double_gap(v[7], v[5]));
                record(&mut out, v[7], minus_double_gap(v[7], v[5]));
            },
        }
        proof {
            let kind = *self;
            assert forall|at: Reading<T>, dir: spec_fn(VarId) -> real|
                residual_of(kind, moved(at, dir)) - residual_of(kind, moved_back(at, dir))
                    == 2real * #[trigger] slope_along(out@, at, dir) by {
                match kind {
                    EqKind::Diff(a, b) => {
                        lemma_minus_one(out@[1].slope.eval(at), dir(b));
                    },
                    EqKind::Value(v, _) => {},
                    EqKind::DistSq(v, d) => {
                        lemma_gaps(v[0], v[2], v[0], v[2], at, dir);
                        lemma_gaps(v[1], v[3], v[1], v[3], at, dir);
                    },
                    EqKind::Cross(v) => {
                        lemma_gaps(v[2], v[0], v[7], v[5], at, dir);
                        lemma_gaps(v[3], v[1], v[6], v[4], at, dir);
                    },
                    EqKind::Dot(v) => {
                        lemma_gaps(v[2], v[0], v[6], v[4], at, dir);
                        lemma_gaps(v[3], v[1], v[7], v[5], at, dir);
                    },
                    EqKind::EqualLenSq(v) => {
                        lemma_gaps(v[0], v[2], v[0], v[2], at, dir);
                        lemma_gaps(v[1], v[3], v[1], v[3], at, dir);
                        lemma_gaps(v[4], v[6], v[4], v[6], at, dir);
                        lemma_gaps(v[5], v[7], v[5], v[7], at, dir);
                    },
                }
            }
        }
        out
    }
}

proof fn lemma_distribute(a: real, b: real, c: real)
    ensures
        a * (b + c) == a * b + a * c,
        (b + c) * a == a * b + a * c,
        a * (b - c) == a * b - a * c,
        (b - c) * a == a * b - a * c,
        a * b == b * a,
        (-b) * a == -(a * b),
{
    assert(a * (b + c) == a * b + a * c) by (nonlinear_arith);
    assert((b + c) * a == a * b + a * c) by (nonlinear_arith);
    assert(a * (b - c) == a * b - a * c) by (nonlinear_arith);
    assert((b - c) * a == a * b - a * c) by (nonlinear_arith);
    assert(a * b == b * a) by (nonlinear_arith);
    assert((-b) * a == -(a * b)) by (nonlinear_arith);
}

proof fn lemma_central(p: real, q: real, dp: real, dq: real)
    ensures
        (p + dp) * (q + dq) - (p - dp) * (q - dq) == 2real * (p * dq + q * dp),
{
    lemma_distribute(p + dp, q, dq);
    lemma_distribute(p - dp, q, dq);
    lemma_distribute(q, p, dp);
    lemma_distribute(dq, p, dp);
    assert((p + dp) * q == q * (p + dp)) by (nonlinear_arith);
}

/// The central difference of a product of two gaps.
proof fn lemma_central_gaps(
    u: real,
    v: real,
    w: real,
    z: real,
    du: real,
    dv: real,
    dw: real,
    dz: real,
)
    ensures
        ((u + du) - (v + dv)) * ((w + dw) - (z + dz)) - ((u - du) - (v - dv)) * ((w - dw) - (z
            - dz)) == 2real * ((u - v) * dw - (u - v) * dz + (w - z) * du - (w - z) * dv),
{
    let (p, q, dp, dq) = (u - v, w - z, du - dv, dw - dz);
    assert((u + du) - (v + dv) == p + dp);
    assert((w + dw) - (z + dz) == q + dq);
    assert((u - du) - (v - dv) == p - dp);
    assert((w - dw) - (z - dz) == q - dq);
    lemma_central(p, q, dp, dq);
    lemma_distribute(p, dw, dz);
    lemma_distribute(q, du, dv);
}

proof fn lemma_scaled(k: real, g: real, d: real)
    ensures
        (k * g) * d == k * (g * d),
        (-g) * d == -(g * d),
{
    assert((k * g) * d == k * (g * d)) by (nonlinear_arith);
    assert((-g) * d == -(g * d)) by (nonlinear_arith);
}

/// The central difference of the product of `a - b` and `c - e`, in terms of
/// the slopes that the partial derivatives use.
proof fn lemma_gaps<T>(
    a: VarId,
    b: VarId,
    c: VarId,
    e: VarId,
    at: Reading<T>,
    dir: spec_fn(VarId) -> real,
)
    ensures
        ({
            let (up, down, env) = (moved(at, dir).env, moved_back(at, dir).env, at.env);
            let (p, q) = (env(a) - env(b), env(c) - env(e));
            &&& (up(a) - up(b)) * (up(c) - up(e)) - (down(a) - down(b)) * (down(c) - down(e))
                == 2real * (p * dir(c) - p * dir(e) + q * dir(a) - q * dir(b))
            &&& forall|v: VarId| #![trigger dir(v)]
                (-p) * dir(v) == -(p * dir(v)) && (-q) * dir(v) == -(q * dir(v)) && (2real * p)
                    * dir(v) == 2real * (p * dir(v)) && (-2real * p) * dir(v) == -2real
                    * (p * dir(v)) && (2real * (env(b) - env(a))) * dir(v) == -2real * (p
                    * dir(v)) && (-2real * (env(b) - env(a))) * dir(v) == 2real * (p * dir(
                    v,
                ))
        }),
{
    let env = at.env;
    let (p, q) = (env(a) - env(b), env(c) - env(e));
    lemma_central_gaps(env(a), env(b), env(c), env(e), dir(a), dir(b), dir(c), dir(e));
    assert forall|v: VarId| #![trigger dir(v)]
        (-p) * dir(v) == -(p * dir(v)) && (-q) * dir(v) == -(q * dir(v)) && (2real * p) * dir(v)
            == 2real * (p * dir(v)) && (-2real * p) * dir(v) == -2real * (p * dir(v))
            && (2real * (env(b) - env(a))) * dir(v) == -2real * (p * dir(v)) && (-2real
            * (env(b) - env(a))) * dir(v) == 2real * (p * dir(v)) by {
        lemma_scaled(2real, p, dir(v));
        lemma_scaled(-2real, p, dir(v));
        lemma_scaled(2real, q, dir(v));
        assert(2real * (env(b) - env(a)) == -2real * p);
        assert(-2real * (env(b) - env(a)) == 2real * p);
    }
}

proof fn lemma_minus_one(k: real, d: real)
    requires
        k == -1real,
    ensures
        k * d == -d,
{
    assert(k * d == -d) by (nonlinear_arith)
        requires
            k == -1real,
    ;
}

proof fn lemma_square_of_gap(a: real, b: real)
    ensures
        (a - b) * (a - b) == (b - a) * (b - a),
{
    assert((a - b) * (a - b) == (b - a) * (b - a)) by (nonlinear_arith);
}

} // verus!
