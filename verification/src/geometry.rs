//! From profiles to solids: which wire is to be built and how it is swept.
//!
//! The modelling kernel that builds solids stands outside. What it is to build
//! is a [`SolidPlan`].
use vstd::prelude::*;

use crate::arith::{
    compares_alike, compares_all, computes, eval_closed, evaluates_alike, evaluates_all, gives,
    is_reciprocal, is_zero, nothing, reciprocal,
};
use crate::expr::{Expr, Reading, magnitude, root};
use crate::rings::after;

verus! {

/// Why a solid cannot be built.
pub enum GeomError {
    /// The profile has too few points or no extent.
    DegenerateProfile,
    /// The kernel made no plane face of the profile; its message.
    FaceCreation(String),
}

impl GeomError {
    /// The message for the user.
    pub open spec fn message_spec(self) -> Seq<char> {
        match self {
            GeomError::DegenerateProfile => "Profil ist degeneriert"@,
            GeomError::FaceCreation(cause) => "Fläche nicht erzeugbar: "@ + cause@,
        }
    }

    /// The message for the user.
    pub fn message(&self) -> (text: String)
        ensures
            text@ == self.message_spec(),
    {
        match self {
            GeomError::DegenerateProfile => String::from_str("Profil ist degeneriert"),
            GeomError::FaceCreation(cause) => {
                let mut text = String::from_str("Fläche nicht erzeugbar: ");
                text.append(cause.as_str());
                text
            },
        }
    }
}

/// A closed profile in the coordinates of its plane.
#[derive(Debug, Clone, PartialEq)]
pub enum Profile2D<T> {
    /// A closed polygon, without its first point repeated.
    Polygon(Vec<[T; 2]>),
    /// A full circle.
    Circle {
        /// The centre.
        center: [T; 2],
        /// The radius.
        radius: T,
    },
}

/// A plane in space; its normal is `u` cross `v`.
#[derive(Debug, Clone, Copy, PartialEq)]
pub struct Plane<T> {
    /// The origin of the plane.
    pub origin: [T; 3],
    /// The first axis.
    pub u: [T; 3],
    /// The second axis.
    pub v: [T; 3],
}

/// An axis in the coordinates of a plane.
#[derive(Debug, Clone, Copy, PartialEq)]
pub struct Axis2D<T> {
    /// A point on the axis.
    pub origin: [T; 2],
    /// Its direction.
    pub dir: [T; 2],
}

/// An edge of a wire, between two of its vertices.
#[derive(Debug, Clone, Copy, PartialEq)]
pub enum WireEdge<T> {
    /// A straight edge.
    Line {
        /// Index of the first vertex.
        from: usize,
        /// Index of the second vertex.
        to: usize,
    },
    /// An arc through a third point.
    Arc {
        /// Index of the first vertex.
        from: usize,
        /// Index of the second vertex.
        to: usize,
        /// A point on the arc between them.
        via: [T; 3],
    },
}

/// A closed wire in space.
#[derive(Debug, Clone, PartialEq)]
pub struct WirePlan<T> {
    /// The vertices.
    pub vertices: Vec<[T; 3]>,
    /// The edges, each beginning where the one before ends.
    pub edges: Vec<WireEdge<T>>,
}

/// How a face is swept to a solid.
#[derive(Debug, Clone, Copy, PartialEq)]
pub enum Sweep<T> {
    /// Along a vector.
    Along([T; 3]),
    /// Around an axis.
    Around {
        /// A point on the axis.
        origin: [T; 3],
        /// Its direction, of length one.
        direction: [T; 3],
        /// The angle in radians.
        angle: T,
    },
}

/// A solid: the wire round its face, and the sweep of that face.
#[derive(Debug, Clone, PartialEq)]
pub struct SolidPlan<T> {
    /// The wire.
    pub wire: WirePlan<T>,
    /// The sweep.
    pub sweep: Sweep<T>,
}

/// One coordinate of the point `(x, y)` of a plane, in space.
pub open spec fn world<T>(
    plane: Plane<T>,
    num: spec_fn(T) -> real,
    x: real,
    y: real,
    i: int,
) -> real {
    num(plane.origin[i]) + num(plane.u[i]) * x + num(plane.v[i]) * y
}

/// One coordinate of the direction `u` cross `v`.
pub open spec fn cross_coordinate<T>(
    num: spec_fn(T) -> real,
    u: [T; 3],
    v: [T; 3],
    i: int,
) -> real {
    let (j, k) = (after(3, i), after(3, after(3, i)));
    num(u[j]) * num(v[k]) - num(u[k]) * num(v[j])
}

/// The length of a vector with the given coordinates.
pub open spec fn length(x: real, y: real, z: real) -> real {
    root(x * x + y * y + z * z)
}

/// One coordinate of the normal of a plane, of length one.
pub open spec fn normal_coordinate<T>(num: spec_fn(T) -> real, plane: Plane<T>, i: int) -> real {
    let n = |k: int| cross_coordinate(num, plane.u, plane.v, k);
    n(i) * (1real / length(n(0), n(1), n(2)))
}

/// One coordinate of a direction of the plane in space, before it is brought
/// to length one.
pub open spec fn slant<T>(num: spec_fn(T) -> real, plane: Plane<T>, dir: [T; 2], i: int) -> real {
    num(plane.u[i]) * num(dir[0]) + num(plane.v[i]) * num(dir[1])
}

/// One coordinate of a direction of the plane in space, of length one.
pub open spec fn direction_coordinate<T>(
    num: spec_fn(T) -> real,
    plane: Plane<T>,
    dir: [T; 2],
    i: int,
) -> real {
    let d = |k: int| slant(num, plane, dir, k);
    d(i) * (1real / length(d(0), d(1), d(2)))
}

/// `p` is what `eval` gives for a point or vector whose coordinates have the
/// given meaning.
pub open spec fn computes_point<T, E: Fn(&Expr<T>, &Vec<T>) -> T>(
    eval: E,
    meaning: spec_fn(int, Reading<T>) -> real,
    p: [T; 3],
) -> bool {
    forall|i: int|
        0 <= i < 3 ==> computes(eval, |at: Reading<T>| meaning(i, at), Seq::empty(), #[trigger] p[i])
}

/// `p` is what `eval` gives for a point or vector with the given formula for
/// each coordinate.
pub open spec fn gives_point<T, E: Fn(&Expr<T>, &Vec<T>) -> T>(
    eval: E,
    formula: spec_fn(int) -> Expr<T>,
    p: [T; 3],
) -> bool {
    forall|i: int| 0 <= i < 3 ==> gives(eval, formula(i), Seq::empty(), #[trigger] p[i])
}

/// One coordinate in space of the point of a plane that two formulas give, as
/// a formula.
pub open spec fn world_expr<T>(plane: Plane<T>, x: Expr<T>, y: Expr<T>, i: int) -> Expr<T> {
    Expr::Add(
        Box::new(
            Expr::Add(
                Box::new(Expr::Value(plane.origin[i])),
                Box::new(Expr::Mul(Box::new(Expr::Value(plane.u[i])), Box::new(x))),
            ),
        ),
        Box::new(Expr::Mul(Box::new(Expr::Value(plane.v[i])), Box::new(y))),
    )
}

/// `p` is the point of a plane whose coordinates there two formulas give.
pub open spec fn computes_world<T, E: Fn(&Expr<T>, &Vec<T>) -> T>(
    eval: E,
    plane: Plane<T>,
    x: Expr<T>,
    y: Expr<T>,
    p: [T; 3],
) -> bool {
    &&& computes_point(
        eval,
        |i: int, at: Reading<T>| world(plane, at.num, x.eval(at), y.eval(at), i),
        p,
    )
    &&& gives_point(eval, |i: int| world_expr(plane, x, y, i), p)
}

/// The sum of two numbers, as a formula.
pub open spec fn plus<T>(a: T, b: T) -> Expr<T> {
    Expr::Add(Box::new(Expr::Value(a)), Box::new(Expr::Value(b)))
}

/// The difference of two numbers, as a formula.
pub open spec fn minus<T>(a: T, b: T) -> Expr<T> {
    Expr::Sub(Box::new(Expr::Value(a)), Box::new(Expr::Value(b)))
}

/// `wire` is the closed wire of a profile: a polygon's points joined one to
/// the next, or two half circles.
pub open spec fn is_wire<T, E: Fn(&Expr<T>, &Vec<T>) -> T>(
    eval: E,
    profile: Profile2D<T>,
    plane: Plane<T>,
    wire: WirePlan<T>,
) -> bool {
    match profile {
        Profile2D::Polygon(points) => {
            let n = points@.len() as int;
            &&& wire.vertices@.len() == n
            &&& wire.edges@.len() == n
            &&& forall|i: int|
                0 <= i < n ==> computes_world(
                    eval,
                    plane,
                    Expr::Value(points@[i][0]),
                    Expr::Value(points@[i][1]),
                    #[trigger] wire.vertices@[i],
                )
            &&& forall|i: int|
                0 <= i < n ==> #[trigger] wire.edges@[i] == (WireEdge::<T>::Line {
                    from: i as usize,
                    to: after(n, i) as usize,
                })
        },
        Profile2D::Circle { center, radius } => {
            let x = Expr::Value(center[0]);
            let y = Expr::Value(center[1]);
            let (right, left) = (plus(center[0], radius), minus(center[0], radius));
            let (top, bottom) = (plus(center[1], radius), minus(center[1], radius));
            &&& wire.vertices@.len() == 2
            &&& wire.edges@.len() == 2
            &&& computes_world(eval, plane, right, y, wire.vertices@[0])
            &&& computes_world(eval, plane, left, y, wire.vertices@[1])
            &&& wire.edges@[0] matches WireEdge::Arc { from, to, via } && from == 0 && to == 1
                && computes_world(eval, plane, x, top, via)
            &&& wire.edges@[1] matches WireEdge::Arc { from, to, via } && from == 1 && to == 0
                && computes_world(eval, plane, x, bottom, via)
        },
    }
}

/// `flat` is whether a profile is found to have no extent: fewer than three
/// points, or a radius that is at most zero.
pub open spec fn finds_flat<
    T,
    E: Fn(&Expr<T>, &Vec<T>) -> T,
    M: Fn(&T, &T) -> bool,
>(eval: E, at_most: M, profile: Profile2D<T>, flat: bool) -> bool {
    match profile {
        Profile2D::Polygon(points) => flat == (points@.len() < 3),
        Profile2D::Circle { radius, .. } => exists|zero: T| #[trigger]
            call_ensures(at_most, (&radius, &zero), flat) && is_zero(eval, zero),
    }
}

/// `small` is whether the magnitude of `x` is found to be less than one over
/// `n`.
pub open spec fn finds_small<T, E: Fn(&Expr<T>, &Vec<T>) -> T, L: Fn(&T, &T) -> bool>(
    eval: E,
    less: L,
    x: T,
    n: i64,
    small: bool,
) -> bool {
    exists|size: T, limit: T| #[trigger]
        call_ensures(less, (&size, &limit), small) && computes(
            eval,
            |at: Reading<T>| magnitude((at.num)(x)),
            Seq::empty(),
            size,
        ) && gives(eval, Expr::Abs(Box::new(Expr::Value(x))), Seq::empty(), size) && is_reciprocal(
            eval,
            n,
            limit,
        )
}

/// The reciprocal of the least distance of an extrusion.
pub const INVERSE_LEAST_DISTANCE: i64 = 1_000_000_000;

/// The reciprocal of the least angle of a revolution.
pub const INVERSE_LEAST_ANGLE: i64 = 1_000_000;

/// The outcome of planning a solid whose sweep has some extent: degenerate
/// where the profile is found to be flat, else the wire and the sweep.
pub open spec fn is_swept<T, E: Fn(&Expr<T>, &Vec<T>) -> T, M: Fn(&T, &T) -> bool>(
    eval: E,
    at_most: M,
    profile: Profile2D<T>,
    plane: Plane<T>,
    sweeps: spec_fn(Sweep<T>) -> bool,
    result: Result<SolidPlan<T>, GeomError>,
) -> bool {
    exists|flat: bool| #[trigger]
        finds_flat(eval, at_most, profile, flat) && match result {
            Ok(plan) => !flat && is_wire(eval, profile, plane, plan.wire) && sweeps(plan.sweep),
            Err(e) => flat && e is DegenerateProfile,
        }
}

/// The outcome of planning a solid: degenerate where the extent of the sweep
/// is found to be small.
pub open spec fn is_plan<
    T,
    E: Fn(&Expr<T>, &Vec<T>) -> T,
    L: Fn(&T, &T) -> bool,
    M: Fn(&T, &T) -> bool,
>(
    eval: E,
    less: L,
    at_most: M,
    profile: Profile2D<T>,
    plane: Plane<T>,
    extent: T,
    least: i64,
    sweeps: spec_fn(Sweep<T>) -> bool,
    result: Result<SolidPlan<T>, GeomError>,
) -> bool {
    exists|small: bool| #[trigger]
        finds_small(eval, less, extent, least, small) && if small {
            result matches Err(e) && e is DegenerateProfile
        } else {
            is_swept(eval, at_most, profile, plane, sweeps, result)
        }
}

/// Extruding along the normal of the plane by `distance`.
pub open spec fn extrudes<T, E: Fn(&Expr<T>, &Vec<T>) -> T>(
    eval: E,
    plane: Plane<T>,
    distance: T,
) -> spec_fn(Sweep<T>) -> bool {
    |sweep: Sweep<T>|
        sweep matches Sweep::Along(vector) && computes_point(
            eval,
            |i: int, at: Reading<T>| normal_coordinate(at.num, plane, i) * (at.num)(distance),
            vector,
        ) && gives_point(eval, |i: int| normal_expr(plane, i, distance), vector)
}

/// One coordinate of `u` cross `v`, as a formula.
pub open spec fn cross_expr<T>(u: [T; 3], v: [T; 3], i: int) -> Expr<T> {
    let (j, k) = (after(3, i), after(3, after(3, i)));
    Expr::Sub(
        Box::new(Expr::Mul(Box::new(Expr::Value(u[j])), Box::new(Expr::Value(v[k])))),
        Box::new(Expr::Mul(Box::new(Expr::Value(u[k])), Box::new(Expr::Value(v[j])))),
    )
}

/// One coordinate of a vector brought to length one, as a formula, given the
/// formulas of all its coordinates and of that one.
pub open spec fn unit_expr<T>(x: Expr<T>, y: Expr<T>, z: Expr<T>, coordinate: Expr<T>) -> Expr<T> {
    let square = |e: Expr<T>| Expr::Mul(Box::new(e), Box::new(e));
    let size = Expr::Sqrt(
        Box::new(
            Expr::Add(
                Box::new(Expr::Add(Box::new(square(x)), Box::new(square(y)))),
                Box::new(square(z)),
            ),
        ),
    );
    Expr::Mul(
        Box::new(coordinate),
        Box::new(Expr::Div(Box::new(Expr::Ratio(1, 1)), Box::new(size))),
    )
}

/// One coordinate of the normal of a plane, times a number, as a formula.
pub open spec fn normal_expr<T>(plane: Plane<T>, i: int, times: T) -> Expr<T> {
    let n = |k: int| cross_expr(plane.u, plane.v, k);
    Expr::Mul(Box::new(unit_expr(n(0), n(1), n(2), n(i))), Box::new(Expr::Value(times)))
}

/// One coordinate of a direction of the plane in space, as a formula.
pub open spec fn slant_expr<T>(plane: Plane<T>, dir: [T; 2], i: int) -> Expr<T> {
    Expr::Add(
        Box::new(Expr::Mul(Box::new(Expr::Value(plane.u[i])), Box::new(Expr::Value(dir[0])))),
        Box::new(Expr::Mul(Box::new(Expr::Value(plane.v[i])), Box::new(Expr::Value(dir[1])))),
    )
}

/// One coordinate of a direction of the plane in space, of length one, as a
/// formula.
pub open spec fn direction_expr<T>(plane: Plane<T>, dir: [T; 2], i: int) -> Expr<T> {
    let d = |k: int| slant_expr(plane, dir, k);
    unit_expr(d(0), d(1), d(2), d(i))
}

/// Revolving around an axis of the plane by `angle`.
pub open spec fn revolves<T, E: Fn(&Expr<T>, &Vec<T>) -> T>(
    eval: E,
    plane: Plane<T>,
    axis: Axis2D<T>,
    angle: T,
) -> spec_fn(Sweep<T>) -> bool {
    |sweep: Sweep<T>|
        sweep matches Sweep::Around { origin, direction, angle: turn } && turn == angle
            && computes_world(
            eval,
            plane,
            Expr::Value(axis.origin[0]),
            Expr::Value(axis.origin[1]),
            origin,
        ) && computes_point(
            eval,
            |i: int, at: Reading<T>| direction_coordinate(at.num, plane, axis.dir, i),
            direction,
        ) && gives_point(eval, |i: int| direction_expr(plane, axis.dir, i), direction)
}

/// One coordinate in space of the point of a plane that two formulas give.
fn world_formula<T: Copy>(plane: &Plane<T>, x: Expr<T>, y: Expr<T>, i: usize) -> (e: Expr<T>)
    requires
        i < 3,
    ensures
        e == world_expr(*plane, x, y, i as int),
        forall|at: Reading<T>| #[trigger]
            e.eval(at) == world(*plane, at.num, x.eval(at), y.eval(at), i as int),
{
    Expr::sum(
        Expr::sum(Expr::value(plane.origin[i]), Expr::product(Expr::value(plane.u[i]), x)),
        Expr::product(Expr::value(plane.v[i]), y),
    )
}

/// A number plus or minus another.
enum Shift {
    Zero,
    Plus,
    Minus,
}

/// The formula of a shifted number.
spec fn shifted<T>(base: T, shift: Shift, by: T) -> Expr<T> {
    match shift {
        Shift::Zero => Expr::Value(base),
        Shift::Plus => plus(base, by),
        Shift::Minus => minus(base, by),
    }
}

fn shift_formula<T: Copy>(base: T, shift: &Shift, by: T) -> (e: Expr<T>)
    ensures
        e == shifted(base, *shift, by),
{
    match shift {
        Shift::Zero => Expr::value(base),
        Shift::Plus => Expr::sum(Expr::value(base), Expr::value(by)),
        Shift::Minus => Expr::difference(Expr::value(base), Expr::value(by)),
    }
}

/// A point of a plane in space, with its coordinates shifted by `r`.
fn world_point<T: Copy, E: Fn(&Expr<T>, &Vec<T>) -> T>(
    eval: &E,
    plane: &Plane<T>,
    p: [T; 2],
    sx: Shift,
    sy: Shift,
    r: T,
) -> (point: [T; 3])
    requires
        evaluates_all(*eval),
    ensures
        computes_world(*eval, *plane, shifted(p[0], sx, r), shifted(p[1], sy, r), point),
{
    let ghost (fx, fy) = (shifted(p[0], sx, r), shifted(p[1], sy, r));
    let ghost meaning = |i: int, at: Reading<T>|
        world(*plane, at.num, fx.eval(at), fy.eval(at), i);
    let x = eval_closed(
        eval,
        world_formula(plane, shift_formula(p[0], &sx, r), shift_formula(p[1], &sy, r), 0),
        Ghost(|at: Reading<T>| meaning(0, at)),
    );
    let y = eval_closed(
        eval,
        world_formula(plane, shift_formula(p[0], &sx, r), shift_formula(p[1], &sy, r), 1),
        Ghost(|at: Reading<T>| meaning(1, at)),
    );
    let z = eval_closed(
        eval,
        world_formula(plane, shift_formula(p[0], &sx, r), shift_formula(p[1], &sy, r), 2),
        Ghost(|at: Reading<T>| meaning(2, at)),
    );
    let point = [x, y, z];
    proof {
        lemma_three(
            *eval,
            meaning,
            |i: int| world_expr(*plane, fx, fy, i),
            x,
            y,
            z,
            point,
        );
    }
    point
}

/// One coordinate of `u` cross `v`.
fn cross_formula<T: Copy>(u: &[T; 3], v: &[T; 3], i: usize) -> (e: Expr<T>)
    requires
        i < 3,
    ensures
        e == cross_expr(*u, *v, i as int),
        forall|at: Reading<T>| #[trigger] e.eval(at) == cross_coordinate(at.num, *u, *v, i as int),
{
    let j: usize = if i + 1 < 3 {
        i + 1
    } else {
        0
    };
    let k: usize = if j + 1 < 3 {
        j + 1
    } else {
        0
    };
    Expr::difference(
        Expr::product(Expr::value(u[j]), Expr::value(v[k])),
        Expr::product(Expr::value(u[k]), Expr::value(v[j])),
    )
}

/// Length of a vector whose coordinates are given twice by formulas.
fn length_formula<T>(
    x: Expr<T>,
    x_again: Expr<T>,
    y: Expr<T>,
    y_again: Expr<T>,
    z: Expr<T>,
    z_again: Expr<T>,
) -> (e: Expr<T>)
    requires
        x == x_again,
        y == y_again,
        z == z_again,
    ensures
        forall|coordinate: Expr<T>| #[trigger]
            unit_expr(x, y, z, coordinate) == Expr::Mul(
                Box::new(coordinate),
                Box::new(Expr::Div(Box::new(Expr::Ratio(1, 1)), Box::new(e))),
            ),
        forall|at: Reading<T>| #[trigger]
            e.eval(at) == length(x.eval(at), y.eval(at), z.eval(at)),
{
    Expr::sqrt(
        Expr::sum(
            Expr::sum(Expr::product(x, x_again), Expr::product(y, y_again)),
            Expr::product(z, z_again),
        ),
    )
}

/// The number one divided by a formula.
fn inverse_formula<T>(e: Expr<T>) -> (inverse: Expr<T>)
    ensures
        inverse == Expr::Div(Box::new(Expr::Ratio(1, 1)), Box::new(e)),
        forall|at: Reading<T>| #[trigger] inverse.eval(at) == 1real / e.eval(at),
{
    assert((1 as int) as real / (1 as int) as real == 1real);
    Expr::quotient(Expr::ratio(1, 1), e)
}

/// One coordinate of the normal of a plane, times a number.
fn normal_formula<T: Copy>(plane: &Plane<T>, i: usize, times: T) -> (e: Expr<T>)
    requires
        i < 3,
    ensures
        e == normal_expr(*plane, i as int, times),
        forall|at: Reading<T>| #[trigger]
            e.eval(at) == normal_coordinate(at.num, *plane, i as int) * (at.num)(times),
{
    let size = length_formula(
        cross_formula(&plane.u, &plane.v, 0),
        cross_formula(&plane.u, &plane.v, 0),
        cross_formula(&plane.u, &plane.v, 1),
        cross_formula(&plane.u, &plane.v, 1),
        cross_formula(&plane.u, &plane.v, 2),
        cross_formula(&plane.u, &plane.v, 2),
    );
    let unit = Expr::product(cross_formula(&plane.u, &plane.v, i), inverse_formula(size));
    Expr::product(unit, Expr::value(times))
}

fn slant_formula<T: Copy>(plane: &Plane<T>, dir: [T; 2], i: usize) -> (e: Expr<T>)
    requires
        i < 3,
    ensures
        e == slant_expr(*plane, dir, i as int),
        forall|at: Reading<T>| #[trigger] e.eval(at) == slant(at.num, *plane, dir, i as int),
{
    Expr::sum(
        Expr::product(Expr::value(plane.u[i]), Expr::value(dir[0])),
        Expr::product(Expr::value(plane.v[i]), Expr::value(dir[1])),
    )
}

/// One coordinate of a direction of the plane, in space and of length one.
fn direction_formula<T: Copy>(plane: &Plane<T>, dir: [T; 2], i: usize) -> (e: Expr<T>)
    requires
        i < 3,
    ensures
        e == direction_expr(*plane, dir, i as int),
        forall|at: Reading<T>| #[trigger]
            e.eval(at) == direction_coordinate(at.num, *plane, dir, i as int),
{
    let size = length_formula(
        slant_formula(plane, dir, 0),
        slant_formula(plane, dir, 0),
        slant_formula(plane, dir, 1),
        slant_formula(plane, dir, 1),
        slant_formula(plane, dir, 2),
        slant_formula(plane, dir, 2),
    );
    Expr::product(slant_formula(plane, dir, i), inverse_formula(size))
}

/// The wire of a profile in space.
pub fn profile_face<
    T: Copy,
    E: Fn(&Expr<T>, &Vec<T>) -> T,
    M: Fn(&T, &T) -> bool,
>(profile: &Profile2D<T>, plane: &Plane<T>, eval: &E, at_most: &M) -> (result: Result<
    WirePlan<T>,
    GeomError,
>)
    requires
        evaluates_all(*eval),
        compares_all(*at_most),
    ensures
        exists|flat: bool| #[trigger]
            finds_flat(*eval, *at_most, *profile, flat) && match result {
                Ok(wire) => !flat && is_wire(*eval, *profile, *plane, wire),
                Err(e) => flat && e is DegenerateProfile,
            },
{
    match profile {
        Profile2D::Polygon(points) => {
            let flat = points.len() < 3;
            assert(finds_flat(*eval, *at_most, *profile, flat));
            if flat {
                return Err(GeomError::DegenerateProfile);
            }
            let mut vertices: Vec<[T; 3]> = Vec::new();
            let mut edges: Vec<WireEdge<T>> = Vec::new();
            let n: usize = points.len();
            let mut i: usize = 0;
            while i < n
                invariant
                    evaluates_all(*eval),
                    n == points@.len(),
                    i <= n,
                    vertices@.len() == i,
                    edges@.len() == i,
                    forall|k: int|
                        0 <= k < i ==> computes_world(
                            *eval,
                            *plane,
                            Expr::Value(points@[k][0]),
                            Expr::Value(points@[k][1]),
                            #[trigger] vertices@[k],
                        ),
                    forall|k: int|
                        0 <= k < i ==> #[trigger] edges@[k] == (WireEdge::<T>::Line {
                            from: k as usize,
                            to: after(n as int, k) as usize,
                        }),
                decreases n - i,
            {
                let p = points[i];
                let vertex = world_point(eval, plane, p, Shift::Zero, Shift::Zero, p[0]);
                vertices.push(vertex);
                let to = if i + 1 < n {
                    i + 1
                } else {
                    0
                };
                edges.push(WireEdge::Line { from: i, to });
                i = i + 1;
            }
            let wire = WirePlan { vertices, edges };
            assert(is_wire(*eval, *profile, *plane, wire));
            Ok(wire)
        },
        Profile2D::Circle { center, radius } => {
            let (c, r) = (*center, *radius);
            let zero = nothing(eval);
            let flat = at_most(&r, &zero);
            assert(finds_flat(*eval, *at_most, *profile, flat));
            if flat {
                return Err(GeomError::DegenerateProfile);
            }
            let right = world_point(eval, plane, c, Shift::Plus, Shift::Zero, r);
            let left = world_point(eval, plane, c, Shift::Minus, Shift::Zero, r);
            let top = world_point(eval, plane, c, Shift::Zero, Shift::Plus, r);
            let bottom = world_point(eval, plane, c, Shift::Zero, Shift::Minus, r);
            let mut vertices: Vec<[T; 3]> = Vec::new();
            vertices.push(right);
            vertices.push(left);
            let mut edges: Vec<WireEdge<T>> = Vec::new();
            edges.push(WireEdge::Arc { from: 0, to: 1, via: top });
            edges.push(WireEdge::Arc { from: 1, to: 0, via: bottom });
            let wire = WirePlan { vertices, edges };
            assert(is_wire(*eval, *profile, *plane, wire));
            Ok(wire)
        },
    }
}

/// Whether the magnitude of a number is less than one over `n`.
fn is_small<T: Copy, E: Fn(&Expr<T>, &Vec<T>) -> T, L: Fn(&T, &T) -> bool>(
    eval: &E,
    less: &L,
    x: T,
    n: i64,
) -> (small: bool)
    requires
        evaluates_all(*eval),
        compares_all(*less),
    ensures
        finds_small(*eval, *less, x, n, small),
{
    let size = eval_closed(
        eval,
        Expr::abs(Expr::value(x)),
        Ghost(|at: Reading<T>| magnitude((at.num)(x))),
    );
    let limit = reciprocal(eval, n);
    less(&size, &limit)
}

/// Plans the extrusion of a profile along the normal of its plane; against the
/// normal where `distance` is negative.
pub fn extrude<
    T: Copy,
    E: Fn(&Expr<T>, &Vec<T>) -> T,
    L: Fn(&T, &T) -> bool,
    M: Fn(&T, &T) -> bool,
>(
    profile: &Profile2D<T>,
    plane: &Plane<T>,
    distance: T,
    eval: &E,
    less: &L,
    at_most: &M,
) -> (result: Result<SolidPlan<T>, GeomError>)
    requires
        evaluates_all(*eval),
        compares_all(*less),
        compares_all(*at_most),
    ensures
        is_plan(
            *eval,
            *less,
            *at_most,
            *profile,
            *plane,
            distance,
            INVERSE_LEAST_DISTANCE,
            extrudes(*eval, *plane, distance),
            result,
        ),
{
    let small = is_small(eval, less, distance, INVERSE_LEAST_DISTANCE);
    assert(finds_small(*eval, *less, distance, INVERSE_LEAST_DISTANCE, small));
    if small {
        return Err(GeomError::DegenerateProfile);
    }
    match profile_face(profile, plane, eval, at_most) {
        Ok(wire) => {
            let ghost meaning = |i: int, at: Reading<T>|
                normal_coordinate(at.num, *plane, i) * (at.num)(distance);
            let x = eval_closed(
                eval,
                normal_formula(plane, 0, distance),
                Ghost(|at: Reading<T>| meaning(0, at)),
            );
            let y = eval_closed(
                eval,
                normal_formula(plane, 1, distance),
                Ghost(|at: Reading<T>| meaning(1, at)),
            );
            let z = eval_closed(
                eval,
                normal_formula(plane, 2, distance),
                Ghost(|at: Reading<T>| meaning(2, at)),
            );
            let vector = [x, y, z];
            let sweep = Sweep::Along(vector);
            proof {
                lemma_three(
                    *eval,
                    meaning,
                    |i: int| normal_expr(*plane, i, distance),
                    x,
                    y,
                    z,
                    vector,
                );
                assert((extrudes(*eval, *plane, distance))(sweep));
            }
            Ok(SolidPlan { wire, sweep })
        },
        Err(e) => Err(e),
    }
}

proof fn lemma_three<T, E: Fn(&Expr<T>, &Vec<T>) -> T>(
    eval: E,
    meaning: spec_fn(int, Reading<T>) -> real,
    formula: spec_fn(int) -> Expr<T>,
    x: T,
    y: T,
    z: T,
    point: [T; 3],
)
    requires
        gives(eval, formula(0), Seq::empty(), x),
        gives(eval, formula(1), Seq::empty(), y),
        gives(eval, formula(2), Seq::empty(), z),
        computes(eval, |at: Reading<T>| meaning(0, at), Seq::empty(), x),
        computes(eval, |at: Reading<T>| meaning(1, at), Seq::empty(), y),
        computes(eval, |at: Reading<T>| meaning(2, at), Seq::empty(), z),
        point[0] == x,
        point[1] == y,
        point[2] == z,
    ensures
        computes_point(eval, meaning, point),
        gives_point(eval, formula, point),
{
    assert forall|i: int| 0 <= i < 3 implies computes(
        eval,
        |at: Reading<T>| meaning(i, at),
        Seq::empty(),
        #[trigger] point[i],
    ) && gives(eval, formula(i), Seq::empty(), point[i]) by {
        if i == 0 {
            assert(point[i] == x);
        } else if i == 1 {
            assert(point[i] == y);
        } else {
            assert(i == 2);
            assert(point[i] == z);
        }
    }
}

/// Plans the revolution of a profile around an axis of its plane.
pub fn revolve<
    T: Copy,
    E: Fn(&Expr<T>, &Vec<T>) -> T,
    L: Fn(&T, &T) -> bool,
    M: Fn(&T, &T) -> bool,
>(
    profile: &Profile2D<T>,
    plane: &Plane<T>,
    axis: &Axis2D<T>,
    angle: T,
    eval: &E,
    less: &L,
    at_most: &M,
) -> (result: Result<SolidPlan<T>, GeomError>)
    requires
        evaluates_all(*eval),
        compares_all(*less),
        compares_all(*at_most),
    ensures
        is_plan(
            *eval,
            *less,
            *at_most,
            *profile,
            *plane,
            angle,
            INVERSE_LEAST_ANGLE,
            revolves(*eval, *plane, *axis, angle),
            result,
        ),
{
    let small = is_small(eval, less, angle, INVERSE_LEAST_ANGLE);
    assert(finds_small(*eval, *less, angle, INVERSE_LEAST_ANGLE, small));
    if small {
        return Err(GeomError::DegenerateProfile);
    }
    match profile_face(profile, plane, eval, at_most) {
        Ok(wire) => {
            let p = axis.origin;
            let origin = world_point(eval, plane, p, Shift::Zero, Shift::Zero, p[0]);
            let ghost meaning = |i: int, at: Reading<T>|
                direction_coordinate(at.num, *plane, axis.dir, i);
            let x = eval_closed(
                eval,
                direction_formula(plane, axis.dir, 0),
                Ghost(|at: Reading<T>| meaning(0, at)),
            );
            let y = eval_closed(
                eval,
                direction_formula(plane, axis.dir, 1),
                Ghost(|at: Reading<T>| meaning(1, at)),
            );
            let z = eval_closed(
                eval,
                direction_formula(plane, axis.dir, 2),
                Ghost(|at: Reading<T>| meaning(2, at)),
            );
            let direction = [x, y, z];
            let sweep = Sweep::Around { origin, direction, angle };
            proof {
                lemma_three(
                    *eval,
                    meaning,
                    |i: int| direction_expr(*plane, axis.dir, i),
                    x,
                    y,
                    z,
                    direction,
                );
                assert((revolves(*eval, *plane, *axis, angle))(sweep));
            }
            Ok(SolidPlan { wire, sweep })
        },
        Err(e) => Err(e),
    }
}

/// The profiles are the same.
pub open spec fn same_profile2d<T>(a: Profile2D<T>, b: Profile2D<T>) -> bool {
    match a {
        Profile2D::Polygon(points) => b matches Profile2D::Polygon(others) && points@ == others@,
        Profile2D::Circle { .. } => a == b,
    }
}

/// The plans are the same.
pub open spec fn same_plan<T>(a: SolidPlan<T>, b: SolidPlan<T>) -> bool {
    &&& a.wire.vertices@ == b.wire.vertices@
    &&& a.wire.edges@ == b.wire.edges@
    &&& a.sweep == b.sweep
}

proof fn lemma_point_alike<T, E: Fn(&Expr<T>, &Vec<T>) -> T>(
    eval: E,
    formula: spec_fn(int) -> Expr<T>,
    p: [T; 3],
    q: [T; 3],
)
    requires
        evaluates_alike(eval),
        gives_point(eval, formula, p),
        gives_point(eval, formula, q),
    ensures
        p == q,
{
    assert forall|i: int| 0 <= i < 3 implies p[i] == q[i] by {
        assert(gives(eval, formula(i), Seq::empty(), p[i]));
        assert(gives(eval, formula(i), Seq::empty(), q[i]));
    }
    assert(p =~= q);
}

proof fn lemma_wire_alike<T, E: Fn(&Expr<T>, &Vec<T>) -> T>(
    eval: E,
    a: Profile2D<T>,
    b: Profile2D<T>,
    plane: Plane<T>,
    v: WirePlan<T>,
    w: WirePlan<T>,
)
    requires
        evaluates_alike(eval),
        same_profile2d(a, b),
        is_wire(eval, a, plane, v),
        is_wire(eval, b, plane, w),
    ensures
        v.vertices@ == w.vertices@,
        v.edges@ == w.edges@,
{
    match a {
        Profile2D::Polygon(points) => {
            assert forall|i: int| 0 <= i < points@.len() implies v.vertices@[i]
                == w.vertices@[i] by {
                let (x, y) = (Expr::Value(points@[i][0]), Expr::Value(points@[i][1]));
                lemma_point_alike(
                    eval,
                    |k: int| world_expr(plane, x, y, k),
                    v.vertices@[i],
                    w.vertices@[i],
                );
            }
            assert forall|i: int| 0 <= i < points@.len() implies v.edges@[i] == w.edges@[i] by {}
        },
        Profile2D::Circle { center, radius } => {
            let x = Expr::Value(center[0]);
            let y = Expr::Value(center[1]);
            let (right, left) = (plus(center[0], radius), minus(center[0], radius));
            let (top, bottom) = (plus(center[1], radius), minus(center[1], radius));
            lemma_point_alike(
                eval,
                |k: int| world_expr(plane, right, y, k),
                v.vertices@[0],
                w.vertices@[0],
            );
            lemma_point_alike(
                eval,
                |k: int| world_expr(plane, left, y, k),
                v.vertices@[1],
                w.vertices@[1],
            );
            lemma_point_alike(
                eval,
                |k: int| world_expr(plane, x, top, k),
                v.edges@[0]->via,
                w.edges@[0]->via,
            );
            lemma_point_alike(
                eval,
                |k: int| world_expr(plane, x, bottom, k),
                v.edges@[1]->via,
                w.edges@[1]->via,
            );
        },
    }
    assert(v.vertices@ =~= w.vertices@);
    assert(v.edges@ =~= w.edges@);
}

/// An extrusion has one sweep.
pub proof fn lemma_extrudes_alike<T, E: Fn(&Expr<T>, &Vec<T>) -> T>(
    eval: E,
    plane: Plane<T>,
    distance: T,
    a: Sweep<T>,
    b: Sweep<T>,
)
    requires
        evaluates_alike(eval),
        extrudes(eval, plane, distance)(a),
        extrudes(eval, plane, distance)(b),
    ensures
        a == b,
{
    if let (Sweep::Along(p), Sweep::Along(q)) = (a, b) {
        lemma_point_alike(eval, |i: int| normal_expr(plane, i, distance), p, q);
    }
}

/// A revolution has one sweep.
pub proof fn lemma_revolves_alike<T, E: Fn(&Expr<T>, &Vec<T>) -> T>(
    eval: E,
    plane: Plane<T>,
    axis: Axis2D<T>,
    angle: T,
    a: Sweep<T>,
    b: Sweep<T>,
)
    requires
        evaluates_alike(eval),
        revolves(eval, plane, axis, angle)(a),
        revolves(eval, plane, axis, angle)(b),
    ensures
        a == b,
{
    let (x, y) = (Expr::Value(axis.origin[0]), Expr::Value(axis.origin[1]));
    if let (
        Sweep::Around { origin: o, direction: d, .. },
        Sweep::Around { origin: p, direction: e, .. },
    ) = (a, b) {
        lemma_point_alike(eval, |i: int| world_expr(plane, x, y, i), o, p);
        lemma_point_alike(eval, |i: int| direction_expr(plane, axis.dir, i), d, e);
    }
}

/// The outcomes of planning are the same.
pub open spec fn same_outcome<T>(
    a: Result<SolidPlan<T>, GeomError>,
    b: Result<SolidPlan<T>, GeomError>,
) -> bool {
    match (a, b) {
        (Ok(p), Ok(q)) => same_plan(p, q),
        (Err(_), Err(_)) => a == b,
        _ => false,
    }
}

/// Planning the same solid has one outcome, if evaluating and comparing the
/// same has one result each time.
pub proof fn lemma_plan_alike<
    T,
    E: Fn(&Expr<T>, &Vec<T>) -> T,
    L: Fn(&T, &T) -> bool,
    M: Fn(&T, &T) -> bool,
>(
    eval: E,
    less: L,
    at_most: M,
    a: Profile2D<T>,
    b: Profile2D<T>,
    plane: Plane<T>,
    extent: T,
    least: i64,
    sweeps: spec_fn(Sweep<T>) -> bool,
    p: Result<SolidPlan<T>, GeomError>,
    q: Result<SolidPlan<T>, GeomError>,
)
    requires
        evaluates_alike(eval),
        compares_alike(less),
        compares_alike(at_most),
        same_profile2d(a, b),
        forall|s: Sweep<T>, t: Sweep<T>| #[trigger]
            sweeps(s) && #[trigger] sweeps(t) ==> s == t,
        is_plan(eval, less, at_most, a, plane, extent, least, sweeps, p),
        is_plan(eval, less, at_most, b, plane, extent, least, sweeps, q),
    ensures
        same_outcome(p, q),
{
    let s = choose|small: bool| #[trigger]
        finds_small(eval, less, extent, least, small) && if small {
            p matches Err(e) && e is DegenerateProfile
        } else {
            is_swept(eval, at_most, a, plane, sweeps, p)
        };
    let t = choose|small: bool| #[trigger]
        finds_small(eval, less, extent, least, small) && if small {
            q matches Err(e) && e is DegenerateProfile
        } else {
            is_swept(eval, at_most, b, plane, sweeps, q)
        };
    lemma_small_alike(eval, less, extent, least, s, t);
    if !s {
        let f = choose|flat: bool| #[trigger]
            finds_flat(eval, at_most, a, flat) && match p {
                Ok(plan) => !flat && is_wire(eval, a, plane, plan.wire) && sweeps(plan.sweep),
                Err(e) => flat && e is DegenerateProfile,
            };
        let g = choose|flat: bool| #[trigger]
            finds_flat(eval, at_most, b, flat) && match q {
                Ok(plan) => !flat && is_wire(eval, b, plane, plan.wire) && sweeps(plan.sweep),
                Err(e) => flat && e is DegenerateProfile,
            };
        lemma_flat_alike(eval, at_most, a, b, f, g);
        if let (Ok(v), Ok(w)) = (p, q) {
            lemma_wire_alike(eval, a, b, plane, v.wire, w.wire);
        }
    }
}

proof fn lemma_small_alike<T, E: Fn(&Expr<T>, &Vec<T>) -> T, L: Fn(&T, &T) -> bool>(
    eval: E,
    less: L,
    x: T,
    n: i64,
    a: bool,
    b: bool,
)
    requires
        evaluates_alike(eval),
        compares_alike(less),
        finds_small(eval, less, x, n, a),
        finds_small(eval, less, x, n, b),
    ensures
        a == b,
{
    let (s, l) = choose|size: T, limit: T| #[trigger]
        call_ensures(less, (&size, &limit), a) && computes(
            eval,
            |at: Reading<T>| magnitude((at.num)(x)),
            Seq::empty(),
            size,
        ) && gives(eval, Expr::Abs(Box::new(Expr::Value(x))), Seq::empty(), size) && is_reciprocal(
            eval,
            n,
            limit,
        );
    let (t, m) = choose|size: T, limit: T| #[trigger]
        call_ensures(less, (&size, &limit), b) && computes(
            eval,
            |at: Reading<T>| magnitude((at.num)(x)),
            Seq::empty(),
            size,
        ) && gives(eval, Expr::Abs(Box::new(Expr::Value(x))), Seq::empty(), size) && is_reciprocal(
            eval,
            n,
            limit,
        );
    assert(s == t && l == m);
}

proof fn lemma_flat_alike<T, E: Fn(&Expr<T>, &Vec<T>) -> T, M: Fn(&T, &T) -> bool>(
    eval: E,
    at_most: M,
    a: Profile2D<T>,
    b: Profile2D<T>,
    f: bool,
    g: bool,
)
    requires
        evaluates_alike(eval),
        compares_alike(at_most),
        same_profile2d(a, b),
        finds_flat(eval, at_most, a, f),
        finds_flat(eval, at_most, b, g),
    ensures
        f == g,
{
    if let Profile2D::Circle { radius, .. } = a {
        let y = choose|zero: T| #[trigger]
            call_ensures(at_most, (&radius, &zero), f) && is_zero(eval, zero);
        let z = choose|zero: T| #[trigger]
            call_ensures(at_most, (&radius, &zero), g) && is_zero(eval, zero);
        assert(y == z);
    }
}

} // verus!
