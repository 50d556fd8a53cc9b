//! Laws of the planes, of the extrusion and of the revolution.
use vstd::prelude::*;

use crate::arith::computes;
use crate::document::{DocumentView, ExtrudeFeature, FeatureView, RevolveAxis, RevolveFeature, SketchPlane, axes_spec, label_spec};
use crate::expr::{Expr, Reading, magnitude};
use crate::geometry::{
    Axis2D, GeomError, Plane, Profile2D, SolidPlan, Sweep, WireEdge, WirePlan, computes_point,
    computes_world, cross_coordinate, direction_coordinate, extrudes, finds_flat, finds_small,
    is_plan, is_swept, is_wire, length, normal_coordinate, revolves, slant, world,
};
use crate::ids::FeatureId;
use crate::laws::reals::{lemma_root_is, lemma_times};
use crate::mesh::TriMesh;
use crate::profiles::{Profile, found_profiles};
use crate::rebuild::{
    FeatureStatus, RebuildEntry, RebuildOps, builds, builds_from, builds_plan, is_axis, is_entry,
    is_made, is_number, is_plane, is_profile2d, planned, plans, resolves, selects, tells,
};
use crate::rings::after;
use crate::sketch::SketchView;
use crate::solver::{exact, reading};
use crate::text::decimal_spec;

verus! {

/// Each standard plane lies where its name says: its first axis is the unit
/// vector of the first letter, and its second axis that of the second letter.
pub proof fn lemma_planes_lie_as_named(plane: SketchPlane)
    ensures
        ({
            let (u, v, n) = axes_spec(plane);
            match plane {
                SketchPlane::XY => {
                    &&& u[0] == 1 && v[1] == 1
                    &&& u[1] == 0 && v[0] == 0
                    &&& u[2] == 0 && v[2] == 0
                },
                SketchPlane::XZ => {
                    &&& u[0] == 1 && v[2] == 1
                    &&& u[2] == 0 && v[0] == 0
                    &&& u[1] == 0 && v[1] == 0
                },
                SketchPlane::YZ => {
                    &&& u[1] == 1 && v[2] == 1
                    &&& u[2] == 0 && v[1] == 0
                    &&& u[0] == 0 && v[0] == 0
                },
            }
        }),
        label_spec(SketchPlane::XY) == "XY"@,
        label_spec(SketchPlane::XZ) == "XZ"@,
        label_spec(SketchPlane::YZ) == "YZ"@,
{
}

/// Where the point `(x, y)` of a standard plane is in space.
pub open spec fn in_space(plane: SketchPlane, x: real, y: real) -> (real, real, real) {
    match plane {
        SketchPlane::XY => (x, y, 0real),
        SketchPlane::XZ => (x, 0real, y),
        SketchPlane::YZ => (0real, x, y),
    }
}

/// The step of length `d` away from a standard plane, to the side from which
/// the first axis turns to the second one counterclockwise.
pub open spec fn away_from(plane: SketchPlane, d: real) -> (real, real, real) {
    match plane {
        SketchPlane::XY => (0real, 0real, d),
        SketchPlane::XZ => (0real, -d, 0real),
        SketchPlane::YZ => (d, 0real, 0real),
    }
}

/// The real numbers behind the coordinates of a point.
pub open spec fn point_at<T>(num: spec_fn(T) -> real, p: [T; 3]) -> (real, real, real) {
    (num(p[0]), num(p[1]), num(p[2]))
}

/// The wire runs round a profile of a standard plane: through all corners of a
/// polygon in order and back to the first, or through the rightmost, topmost,
/// leftmost and bottommost point of a circle.
pub open spec fn runs_round<T>(
    num: spec_fn(T) -> real,
    plane: SketchPlane,
    profile: Profile<T>,
    wire: WirePlan<T>,
) -> bool {
    match profile {
        Profile::Polygon(points) => {
            &&& wire.vertices@.len() == points@.len()
            &&& wire.edges@.len() == points@.len()
            &&& forall|i: int|
                0 <= i < points@.len() ==> point_at(num, #[trigger] wire.vertices@[i]) == in_space(
                    plane,
                    num(points@[i][0]),
                    num(points@[i][1]),
                )
            &&& forall|i: int|
                0 <= i < points@.len() ==> (#[trigger] wire.edges@[i] matches WireEdge::Line {
                    from,
                    to,
                } && from == i && to == (i + 1) % points@.len() as int)
        },
        Profile::Circle { center, radius } => {
            let (x, y, r) = (num(center[0]), num(center[1]), num(radius));
            &&& wire.vertices@.len() == 2
            &&& wire.edges@.len() == 2
            &&& point_at(num, wire.vertices@[0]) == in_space(plane, x + r, y)
            &&& point_at(num, wire.vertices@[1]) == in_space(plane, x - r, y)
            &&& wire.edges@[0] matches WireEdge::Arc { from, to, via } && from == 0 && to == 1
                && point_at(num, via) == in_space(plane, x, y + r)
            &&& wire.edges@[1] matches WireEdge::Arc { from, to, via } && from == 1 && to == 0
                && point_at(num, via) == in_space(plane, x, y - r)
        },
    }
}

/// The number found to be at most another one is so.
pub open spec fn exact_at_most<T, M: Fn(&T, &T) -> bool>(
    num: spec_fn(T) -> real,
    at_most: M,
) -> bool {
    forall|a: &T, b: &T, found: bool| #[trigger]
        call_ensures(at_most, (a, b), found) ==> found == (num(*a) <= num(*b))
}

/// The feature has failed for the given reason, and has no body.
pub open spec fn has_failed<V>(entry: RebuildEntry<V>, reason: Seq<char>) -> bool {
    &&& entry.body is None
    &&& entry.status matches FeatureStatus::Failed(text) && text@ == reason
}

/// The kernel was asked to build the plan, and the feature has what came of it:
/// the body, or the reason why there is none.
pub open spec fn has_built<T, V, K: Fn(&SolidPlan<T>) -> Result<TriMesh<V>, String>>(
    kernel: K,
    plan: SolidPlan<T>,
    entry: RebuildEntry<V>,
) -> bool {
    exists|made: Result<TriMesh<V>, String>| #[trigger]
        call_ensures(kernel, (&plan,), made) && match made {
            Ok(mesh) => entry.status is Built && entry.body == Some(mesh),
            Err(cause) => has_failed(entry, "Fläche nicht erzeugbar: "@ + cause@),
        }
}

/// What a standard plane is in exact arithmetic.
proof fn lemma_plane_numbers<T, E: Fn(&Expr<T>, &Vec<T>) -> T, L: Fn(&T, &T) -> bool>(
    num: spec_fn(T) -> real,
    eval: E,
    less: L,
    plane: SketchPlane,
    p: Plane<T>,
)
    requires
        exact(num, eval, less),
        is_plane(eval, plane, p),
    ensures
        point_at(num, p.origin) == (0real, 0real, 0real),
        point_at(num, p.u) == in_space(plane, 1real, 0real),
        point_at(num, p.v) == in_space(plane, 0real, 1real),
{
    assert forall|i: int| 0 <= i < 3 implies num(#[trigger] p.origin[i]) == 0real && num(p.u[i]) == (
    axes_spec(plane).0[i] as int) as real && num(p.v[i]) == (axes_spec(plane).1[i] as int) as real by {
        assert(is_number(eval, 0, p.origin[i]));
        lemma_number(num, eval, less, 0, p.origin[i]);
        lemma_number(num, eval, less, axes_spec(plane).0[i], p.u[i]);
        lemma_number(num, eval, less, axes_spec(plane).1[i], p.v[i]);
    }
    assert(num(p.origin[0]) == 0real && num(p.origin[1]) == 0real && num(p.origin[2]) == 0real);
    lemma_planes_lie_as_named(plane);
}

proof fn lemma_number<T, E: Fn(&Expr<T>, &Vec<T>) -> T, L: Fn(&T, &T) -> bool>(
    num: spec_fn(T) -> real,
    eval: E,
    less: L,
    n: i64,
    t: T,
)
    requires
        exact(num, eval, less),
        is_number(eval, n, t),
    ensures
        num(t) == (n as int) as real,
{
    let meaning = |at: Reading<T>| ((n as int) as real) / 1real;
    assert(computes(eval, meaning, Seq::empty(), t));
    assert(num(t) == meaning(reading(num, Seq::empty())));
    let x = (n as int) as real;
    assert(x / 1real == x) by (nonlinear_arith);
}

/// Where a point of a standard plane is, in exact arithmetic.
proof fn lemma_world<T, E: Fn(&Expr<T>, &Vec<T>) -> T, L: Fn(&T, &T) -> bool>(
    num: spec_fn(T) -> real,
    eval: E,
    less: L,
    plane: SketchPlane,
    p: Plane<T>,
    x: Expr<T>,
    y: Expr<T>,
    point: [T; 3],
)
    requires
        exact(num, eval, less),
        is_plane(eval, plane, p),
        computes_world(eval, p, x, y, point),
    ensures
        ({
            let at = reading(num, Seq::empty());
            point_at(num, point) == in_space(plane, x.eval(at), y.eval(at))
        }),
{
    lemma_plane_numbers(num, eval, less, plane, p);
    let at = reading(num, Seq::<T>::empty());
    let (a, b) = (x.eval(at), y.eval(at));
    let meaning = |i: int, at: Reading<T>| world(p, at.num, x.eval(at), y.eval(at), i);
    assert(computes_point(eval, meaning, point));
    assert forall|i: int| 0 <= i < 3 implies num(#[trigger] point[i]) == num(p.origin[i]) + num(
        p.u[i],
    ) * a + num(p.v[i]) * b by {
        let one = |at: Reading<T>| meaning(i, at);
        assert(computes(eval, one, Seq::empty(), point[i]));
        assert(num(point[i]) == one(at));
    }
    assert(num(point[0]) == num(point[0]) && num(point[1]) == num(point[1]) && num(point[2]) == num(
        point[2],
    ));
    lemma_times(num(p.u[0]), a);
    lemma_times(num(p.u[1]), a);
    lemma_times(num(p.u[2]), a);
    lemma_times(num(p.v[0]), b);
    lemma_times(num(p.v[1]), b);
    lemma_times(num(p.v[2]), b);
}

/// The wire of a profile in a standard plane, in exact arithmetic.
proof fn lemma_wire<T, E: Fn(&Expr<T>, &Vec<T>) -> T, L: Fn(&T, &T) -> bool>(
    num: spec_fn(T) -> real,
    eval: E,
    less: L,
    plane: SketchPlane,
    p: Plane<T>,
    profile: Profile<T>,
    flat: Profile2D<T>,
    wire: WirePlan<T>,
)
    requires
        exact(num, eval, less),
        is_plane(eval, plane, p),
        is_profile2d(profile, flat),
        is_wire(eval, flat, p, wire),
        flat matches Profile2D::Polygon(points) ==> points@.len() >= 3,
    ensures
        runs_round(num, plane, profile, wire),
{
    match flat {
        Profile2D::Polygon(points) => {
            let n = points@.len() as int;
            assert(n == points.len());
            assert(profile->Polygon_0@ == points@);
            assert forall|i: int| 0 <= i < n implies point_at(num, #[trigger] wire.vertices@[i])
                == in_space(plane, num(points@[i][0]), num(points@[i][1])) by {
                lemma_world(
                    num,
                    eval,
                    less,
                    plane,
                    p,
                    Expr::Value(points@[i][0]),
                    Expr::Value(points@[i][1]),
                    wire.vertices@[i],
                );
            }
            assert forall|i: int| 0 <= i < n implies (
            #[trigger] wire.edges@[i] matches WireEdge::Line { from, to } && from == i && to == (i
                + 1) % n) by {
                assert(wire.edges@[i] == (WireEdge::<T>::Line {
                    from: i as usize,
                    to: after(n, i) as usize,
                }));
                if i + 1 < n {
                    vstd::arithmetic::div_mod::lemma_small_mod((i + 1) as nat, n as nat);
                } else {
                    vstd::arithmetic::div_mod::lemma_mod_self_0(n);
                }
            }
        },
        Profile2D::Circle { center, radius } => {
            reveal_with_fuel(Expr::eval, 2);
            let x = Expr::Value(center[0]);
            let y = Expr::Value(center[1]);
            let r = Expr::Value(radius);
            let right = Expr::Add(Box::new(x), Box::new(r));
            let left = Expr::Sub(Box::new(x), Box::new(r));
            let top = Expr::Add(Box::new(y), Box::new(r));
            let bottom = Expr::Sub(Box::new(y), Box::new(r));
            lemma_world(num, eval, less, plane, p, right, y, wire.vertices@[0]);
            lemma_world(num, eval, less, plane, p, left, y, wire.vertices@[1]);
            lemma_world(num, eval, less, plane, p, x, top, wire.edges@[0]->via);
            lemma_world(num, eval, less, plane, p, x, bottom, wire.edges@[1]->via);
        },
    }
}

/// The sweep of an extrusion from a standard plane, in exact arithmetic.
proof fn lemma_normal<T, E: Fn(&Expr<T>, &Vec<T>) -> T, L: Fn(&T, &T) -> bool>(
    num: spec_fn(T) -> real,
    eval: E,
    less: L,
    plane: SketchPlane,
    p: Plane<T>,
    distance: T,
    vector: [T; 3],
)
    requires
        exact(num, eval, less),
        is_plane(eval, plane, p),
        extrudes(eval, p, distance)(Sweep::Along(vector)),
    ensures
        point_at(num, vector) == away_from(plane, num(distance)),
{
    lemma_plane_numbers(num, eval, less, plane, p);
    let at = reading(num, Seq::<T>::empty());
    let d = num(distance);
    let meaning = |i: int, at: Reading<T>| normal_coordinate(at.num, p, i) * (at.num)(distance);
    assert(computes_point(eval, meaning, vector));
    let n = |i: int| cross_coordinate(num, p.u, p.v, i);
    assert forall|i: int| 0 <= i < 3 implies num(#[trigger] vector[i]) == normal_coordinate(
        num,
        p,
        i,
    ) * d by {
        let one = |at: Reading<T>| meaning(i, at);
        assert(computes(eval, one, Seq::empty(), vector[i]));
        assert(num(vector[i]) == one(at));
    }
    lemma_times(num(p.u[1]), num(p.v[2]));
    lemma_times(num(p.u[2]), num(p.v[1]));
    lemma_times(num(p.u[2]), num(p.v[0]));
    lemma_times(num(p.u[0]), num(p.v[2]));
    lemma_times(num(p.u[0]), num(p.v[1]));
    lemma_times(num(p.u[1]), num(p.v[0]));
    assert((n(0), n(1), n(2)) == away_from(plane, 1real));
    lemma_times(n(0), n(0));
    lemma_times(n(1), n(1));
    lemma_times(n(2), n(2));
    lemma_times(1real, 1real);
    lemma_root_is(1real, 1real);
    assert(length(n(0), n(1), n(2)) == 1real);
    assert(1real / 1real == 1real) by (nonlinear_arith);
    assert forall|i: int| 0 <= i < 3 implies num(#[trigger] vector[i]) == n(i) * d by {
        lemma_times(n(i), 1real);
        assert(normal_coordinate(num, p, i) == n(i) * (1real / length(n(0), n(1), n(2))));
    }
    lemma_times(n(0), d);
    lemma_times(n(1), d);
    lemma_times(n(2), d);
    assert(num(vector[0]) == n(0) * d && num(vector[1]) == n(1) * d && num(vector[2]) == n(2) * d);
}

/// The axis of a revolution in a standard plane, in exact arithmetic.
proof fn lemma_axis<T, E: Fn(&Expr<T>, &Vec<T>) -> T, L: Fn(&T, &T) -> bool>(
    num: spec_fn(T) -> real,
    eval: E,
    less: L,
    plane: SketchPlane,
    p: Plane<T>,
    axis: RevolveAxis,
    a: Axis2D<T>,
    angle: T,
    sweep: Sweep<T>,
)
    requires
        exact(num, eval, less),
        is_plane(eval, plane, p),
        is_axis(eval, axis, a),
        revolves(eval, p, a, angle)(sweep),
    ensures
        turns_around(num, plane, axis, angle, sweep),
{
    lemma_plane_numbers(num, eval, less, plane, p);
    let at = reading(num, Seq::<T>::empty());
    let (origin, direction) = (sweep->origin, sweep->direction);
    lemma_number(num, eval, less, 0, a.origin[0]);
    lemma_number(num, eval, less, 0, a.origin[1]);
    let (first, second): (i64, i64) = if axis is U {
        (1, 0)
    } else {
        (0, 1)
    };
    lemma_number(num, eval, less, first, a.dir[0]);
    lemma_number(num, eval, less, second, a.dir[1]);
    lemma_world(
        num,
        eval,
        less,
        plane,
        p,
        Expr::Value(a.origin[0]),
        Expr::Value(a.origin[1]),
        origin,
    );
    let (x, y) = (num(a.dir[0]), num(a.dir[1]));
    let d = |i: int| slant(num, p, a.dir, i);
    let meaning = |i: int, at: Reading<T>| direction_coordinate(at.num, p, a.dir, i);
    assert(computes_point(eval, meaning, direction));
    assert forall|i: int| 0 <= i < 3 implies num(#[trigger] direction[i]) == direction_coordinate(
        num,
        p,
        a.dir,
        i,
    ) by {
        let one = |at: Reading<T>| meaning(i, at);
        assert(computes(eval, one, Seq::empty(), direction[i]));
        assert(num(direction[i]) == one(at));
    }
    lemma_times(num(p.u[0]), x);
    lemma_times(num(p.u[1]), x);
    lemma_times(num(p.u[2]), x);
    lemma_times(num(p.v[0]), y);
    lemma_times(num(p.v[1]), y);
    lemma_times(num(p.v[2]), y);
    assert((d(0), d(1), d(2)) == in_space(plane, x, y));
    lemma_times(d(0), d(0));
    lemma_times(d(1), d(1));
    lemma_times(d(2), d(2));
    lemma_times(1real, 1real);
    lemma_root_is(1real, 1real);
    assert(length(d(0), d(1), d(2)) == 1real);
    assert(1real / 1real == 1real) by (nonlinear_arith);
    assert forall|i: int| 0 <= i < 3 implies num(#[trigger] direction[i]) == d(i) by {
        lemma_times(d(i), 1real);
        assert(direction_coordinate(num, p, a.dir, i) == d(i) * (1real / length(d(0), d(1), d(2))));
    }
    assert(num(direction[0]) == d(0) && num(direction[1]) == d(1) && num(direction[2]) == d(2));
}

/// The sweep turns by the angle around an axis through the origin of a standard
/// plane: the points `(t, 0)` of the plane stay where they are under a turn
/// around the first axis, and the points `(0, t)` under one around the second.
pub open spec fn turns_around<T>(
    num: spec_fn(T) -> real,
    plane: SketchPlane,
    axis: RevolveAxis,
    angle: T,
    sweep: Sweep<T>,
) -> bool {
    &&& sweep matches Sweep::Around { origin, direction, angle: turn }
    &&& turn == angle
    &&& point_at(num, origin) == (0real, 0real, 0real)
    &&& match axis {
        RevolveAxis::U => point_at(num, direction) == in_space(plane, 1real, 0real),
        RevolveAxis::V => point_at(num, direction) == in_space(plane, 0real, 1real),
    }
}

proof fn lemma_reciprocal<T, E: Fn(&Expr<T>, &Vec<T>) -> T, L: Fn(&T, &T) -> bool>(
    num: spec_fn(T) -> real,
    eval: E,
    less: L,
    x: T,
    n: i64,
    small: bool,
)
    requires
        exact(num, eval, less),
        finds_small(eval, less, x, n, small),
    ensures
        small == (magnitude(num(x)) < 1real / ((n as int) as real)),
{
    let (size, limit) = choose|size: T, limit: T| #[trigger]
        call_ensures(less, (&size, &limit), small) && computes(
            eval,
            |at: Reading<T>| magnitude((at.num)(x)),
            Seq::empty(),
            size,
        ) && crate::arith::gives(
            eval,
            Expr::Abs(Box::new(Expr::Value(x))),
            Seq::empty(),
            size,
        ) && crate::arith::is_reciprocal(eval, n, limit);
    let big = |at: Reading<T>| magnitude((at.num)(x));
    let over = |at: Reading<T>| 1real / ((n as int) as real);
    let at = reading(num, Seq::<T>::empty());
    assert(computes(eval, big, Seq::empty(), size));
    assert(num(size) == big(at));
    assert(computes(eval, over, Seq::empty(), limit));
    assert(num(limit) == over(at));
}

/// A profile that encloses nothing: fewer than three corners, or no radius.
pub open spec fn encloses_nothing<T>(num: spec_fn(T) -> real, profile: Profile<T>) -> bool {
    match profile {
        Profile::Polygon(points) => points@.len() < 3,
        Profile::Circle { radius, .. } => num(radius) <= 0real,
    }
}

proof fn lemma_flat<
    T,
    E: Fn(&Expr<T>, &Vec<T>) -> T,
    L: Fn(&T, &T) -> bool,
    M: Fn(&T, &T) -> bool,
>(
    num: spec_fn(T) -> real,
    eval: E,
    less: L,
    at_most: M,
    profile: Profile<T>,
    taken: Profile2D<T>,
    flat: bool,
)
    requires
        exact(num, eval, less),
        exact_at_most(num, at_most),
        is_profile2d(profile, taken),
        finds_flat(eval, at_most, taken, flat),
    ensures
        flat == encloses_nothing(num, profile),
{
    if let Profile2D::Circle { center, radius } = taken {
        let zero = choose|zero: T| #[trigger]
            call_ensures(at_most, (&radius, &zero), flat) && crate::arith::is_zero(eval, zero);
        let none = |at: Reading<T>| 0real;
        assert(computes(eval, none, Seq::empty(), zero));
        assert(num(zero) == none(reading(num, Seq::empty())));
    }
}

/// What becomes of a profile that is found: it fails where it is too thin, and
/// else the kernel builds the plan.
proof fn lemma_planned<
    T,
    V,
    E: Fn(&Expr<T>, &Vec<T>) -> T,
    L: Fn(&T, &T) -> bool,
    M: Fn(&T, &T) -> bool,
    K: Fn(&SolidPlan<T>) -> Result<TriMesh<V>, String>,
>(
    num: spec_fn(T) -> real,
    ops: RebuildOps<E, L, M, K>,
    profile: Profile<T>,
    taken: Profile2D<T>,
    p: Plane<T>,
    plane: SketchPlane,
    extent: T,
    least: i64,
    sweeps: spec_fn(Sweep<T>) -> bool,
    plan: Result<SolidPlan<T>, GeomError>,
    outcome: Result<TriMesh<V>, Seq<char>>,
    entry: RebuildEntry<V>,
)
    requires
        exact(num, ops.eval, ops.less),
        exact_at_most(num, ops.at_most),
        is_plane(ops.eval, plane, p),
        is_profile2d(profile, taken),
        is_plan(ops.eval, ops.less, ops.at_most, taken, p, extent, least, sweeps, plan),
        builds_plan(ops, plan, outcome),
        tells(entry, outcome),
    ensures
        if magnitude(num(extent)) < 1real / ((least as int) as real) || encloses_nothing(
            num,
            profile,
        ) {
            has_failed(entry, "Profil ist degeneriert"@)
        } else {
            plan matches Ok(plan) && has_built(ops.kernel, plan, entry) && runs_round(
                num,
                plane,
                profile,
                plan.wire,
            ) && sweeps(plan.sweep)
        },
{
    let small = choose|small: bool| #[trigger]
        finds_small(ops.eval, ops.less, extent, least, small) && if small {
            plan matches Err(e) && e is DegenerateProfile
        } else {
            is_swept(ops.eval, ops.at_most, taken, p, sweeps, plan)
        };
    lemma_reciprocal(num, ops.eval, ops.less, extent, least, small);
    if !small {
        let flat = choose|flat: bool| #[trigger]
            finds_flat(ops.eval, ops.at_most, taken, flat) && match plan {
                Ok(plan) => !flat && is_wire(ops.eval, taken, p, plan.wire) && sweeps(plan.sweep),
                Err(e) => flat && e is DegenerateProfile,
            };
        lemma_flat(num, ops.eval, ops.less, ops.at_most, profile, taken, flat);
        if let Ok(plan) = plan {
            lemma_wire(num, ops.eval, ops.less, plane, p, profile, taken, plan.wire);
            let made = choose|made: Result<TriMesh<V>, String>| #[trigger]
                call_ensures(ops.kernel, (&plan,), made) && is_made(made, outcome);
            assert(call_ensures(ops.kernel, (&plan,), made));
        }
    }
}

/// What becomes of a feature whose profile is not found.
pub open spec fn finds_no_profile<V>(
    entry: RebuildEntry<V>,
    index: usize,
    count: nat,
) -> bool {
    if count == 0 {
        has_failed(entry, "Skizze enthält keine geschlossene Schleife"@)
    } else {
        has_failed(
            entry,
            "Profil "@ + decimal_spec((index + 1) as nat) + " existiert nicht ("@ + decimal_spec(
                count,
            ) + " vorhanden)"@,
        )
    }
}

/// An extrusion builds a profile of the sketch that it names. With exact
/// arithmetic the face lies in the plane of that sketch, each corner where the
/// sketch has it, and is swept along the normal of the plane by the distance.
/// It fails where the distance is next to nothing, the profile encloses
/// nothing, or there is no such profile.
#[verifier::rlimit(40)]
pub proof fn lemma_extrusion<
    T,
    V,
    E: Fn(&Expr<T>, &Vec<T>) -> T,
    L: Fn(&T, &T) -> bool,
    M: Fn(&T, &T) -> bool,
    K: Fn(&SolidPlan<T>) -> Result<TriMesh<V>, String>,
>(
    num: spec_fn(T) -> real,
    ops: RebuildOps<E, L, M, K>,
    doc: DocumentView<T>,
    id: FeatureId,
    e: ExtrudeFeature<T>,
    plane: SketchPlane,
    sketch: SketchView<T>,
    entry: RebuildEntry<V>,
)
    requires
        exact(num, ops.eval, ops.less),
        exact_at_most(num, ops.at_most),
        doc.store[id.raw] == FeatureView::Extrude(e),
        doc.store.contains_key(e.sketch.raw),
        doc.store[e.sketch.raw] == FeatureView::Sketch(plane, sketch),
        is_entry(ops, doc, id, entry),
    ensures
        entry.feature == id,
        exists|profiles: Seq<Profile<T>>| #[trigger]
            found_profiles(sketch, ops.eval, ops.less, profiles) && if e.profile >= profiles.len() {
                finds_no_profile(entry, e.profile, profiles.len())
            } else if magnitude(num(e.distance)) < 1real / 1000000000real || encloses_nothing(
                num,
                profiles[e.profile as int],
            ) {
                has_failed(entry, "Profil ist degeneriert"@)
            } else {
                exists|plan: SolidPlan<T>| #[trigger]
                    has_built(ops.kernel, plan, entry) && runs_round(
                        num,
                        plane,
                        profiles[e.profile as int],
                        plan.wire,
                    ) && (plan.sweep matches Sweep::Along(vector) && point_at(num, vector)
                        == away_from(plane, num(e.distance)))
            },
{
    let feature = doc.store[id.raw];
    let outcome = choose|outcome: Result<TriMesh<V>, Seq<char>>| #[trigger]
        builds(ops, doc, feature, e.sketch, e.profile, outcome) && tells(entry, outcome);
    let (standing, resolved) = choose|
        plane: SketchPlane,
        resolved: Result<Profile2D<T>, Seq<char>>,
    | #[trigger]
        resolves(doc, ops.eval, ops.less, e.sketch, e.profile, plane, resolved) && builds_from(
            ops,
            feature,
            plane,
            resolved,
            outcome,
        );
    let profiles = choose|profiles: Seq<Profile<T>>| #[trigger]
        found_profiles(sketch, ops.eval, ops.less, profiles) && selects(
            profiles,
            e.profile,
            resolved,
        );
    assert(found_profiles(sketch, ops.eval, ops.less, profiles));
    if let Ok(taken) = resolved {
        let profile = profiles[e.profile as int];
        let plan = choose|plan: Result<SolidPlan<T>, GeomError>| #[trigger]
            plans(ops.eval, ops.less, ops.at_most, feature, taken, plane, plan) && builds_plan(
                ops,
                plan,
                outcome,
            );
        let p = choose|p: Plane<T>| #[trigger]
            is_plane(ops.eval, plane, p) && planned(
                ops.eval,
                ops.less,
                ops.at_most,
                feature,
                taken,
                p,
                plan,
            );
        lemma_planned(
            num,
            ops,
            profile,
            taken,
            p,
            plane,
            e.distance,
            1_000_000_000,
            extrudes(ops.eval, p, e.distance),
            plan,
            outcome,
            entry,
        );
        if let Ok(plan) = plan {
            if let Sweep::Along(vector) = plan.sweep {
                if extrudes(ops.eval, p, e.distance)(plan.sweep) {
                    lemma_normal(num, ops.eval, ops.less, plane, p, e.distance, vector);
                }
            }
        }
    }
}

/// A revolution builds a profile of the sketch that it names. With exact
/// arithmetic the face lies in the plane of that sketch, each corner where the
/// sketch has it, and is turned by the angle around the axis of the plane that
/// the feature names.
/// It fails where the angle is next to nothing, the profile encloses nothing,
/// or there is no such profile.
#[verifier::rlimit(40)]
pub proof fn lemma_revolution<
    T,
    V,
    E: Fn(&Expr<T>, &Vec<T>) -> T,
    L: Fn(&T, &T) -> bool,
    M: Fn(&T, &T) -> bool,
    K: Fn(&SolidPlan<T>) -> Result<TriMesh<V>, String>,
>(
    num: spec_fn(T) -> real,
    ops: RebuildOps<E, L, M, K>,
    doc: DocumentView<T>,
    id: FeatureId,
    r: RevolveFeature<T>,
    plane: SketchPlane,
    sketch: SketchView<T>,
    entry: RebuildEntry<V>,
)
    requires
        exact(num, ops.eval, ops.less),
        exact_at_most(num, ops.at_most),
        doc.store[id.raw] == FeatureView::Revolve(r),
        doc.store.contains_key(r.sketch.raw),
        doc.store[r.sketch.raw] == FeatureView::Sketch(plane, sketch),
        is_entry(ops, doc, id, entry),
    ensures
        entry.feature == id,
        exists|profiles: Seq<Profile<T>>| #[trigger]
            found_profiles(sketch, ops.eval, ops.less, profiles) && if r.profile >= profiles.len() {
                finds_no_profile(entry, r.profile, profiles.len())
            } else if magnitude(num(r.angle)) < 1real / 1000000real || encloses_nothing(
                num,
                profiles[r.profile as int],
            ) {
                has_failed(entry, "Profil ist degeneriert"@)
            } else {
                exists|plan: SolidPlan<T>| #[trigger]
                    has_built(ops.kernel, plan, entry) && runs_round(
                        num,
                        plane,
                        profiles[r.profile as int],
                        plan.wire,
                    ) && turns_around(num, plane, r.axis, r.angle, plan.sweep)
            },
{
    let feature = doc.store[id.raw];
    let outcome = choose|outcome: Result<TriMesh<V>, Seq<char>>| #[trigger]
        builds(ops, doc, feature, r.sketch, r.profile, outcome) && tells(entry, outcome);
    let (standing, resolved) = choose|
        plane: SketchPlane,
        resolved: Result<Profile2D<T>, Seq<char>>,
    | #[trigger]
        resolves(doc, ops.eval, ops.less, r.sketch, r.profile, plane, resolved) && builds_from(
            ops,
            feature,
            plane,
            resolved,
            outcome,
        );
    let profiles = choose|profiles: Seq<Profile<T>>| #[trigger]
        found_profiles(sketch, ops.eval, ops.less, profiles) && selects(
            profiles,
            r.profile,
            resolved,
        );
    assert(found_profiles(sketch, ops.eval, ops.less, profiles));
    if let Ok(taken) = resolved {
        let profile = profiles[r.profile as int];
        let plan = choose|plan: Result<SolidPlan<T>, GeomError>| #[trigger]
            plans(ops.eval, ops.less, ops.at_most, feature, taken, plane, plan) && builds_plan(
                ops,
                plan,
                outcome,
            );
        let p = choose|p: Plane<T>| #[trigger]
            is_plane(ops.eval, plane, p) && planned(
                ops.eval,
                ops.less,
                ops.at_most,
                feature,
                taken,
                p,
                plan,
            );
        let a = choose|a: Axis2D<T>| #[trigger]
            is_axis(ops.eval, r.axis, a) && is_plan(
                ops.eval,
                ops.less,
                ops.at_most,
                taken,
                p,
                r.angle,
                1_000_000,
                revolves(ops.eval, p, a, r.angle),
                plan,
            );
        lemma_planned(
            num,
            ops,
            profile,
            taken,
            p,
            plane,
            r.angle,
            1_000_000,
            revolves(ops.eval, p, a, r.angle),
            plan,
            outcome,
            entry,
        );
        if let Ok(plan) = plan {
            if revolves(ops.eval, p, a, r.angle)(plan.sweep) {
                lemma_axis(num, ops.eval, ops.less, plane, p, r.axis, a, r.angle, plan.sweep);
            }
        }
    }
}

/// A feature whose sketch is gone, or refers to no sketch at all, fails and
/// says so; a sketch is never a body and never fails.
pub proof fn lemma_lost_sketch<
    T,
    V,
    E: Fn(&Expr<T>, &Vec<T>) -> T,
    L: Fn(&T, &T) -> bool,
    M: Fn(&T, &T) -> bool,
    K: Fn(&SolidPlan<T>) -> Result<TriMesh<V>, String>,
>(
    ops: RebuildOps<E, L, M, K>,
    doc: DocumentView<T>,
    id: FeatureId,
    entry: RebuildEntry<V>,
)
    requires
        is_entry(ops, doc, id, entry),
    ensures
        entry.feature == id,
        ({
            let lost = |s: FeatureId|
                !(doc.store.contains_key(s.raw) && doc.store[s.raw] is Sketch);
            match doc.store[id.raw] {
                FeatureView::Sketch(..) => entry.status is Built && entry.body is None,
                FeatureView::Extrude(e) => lost(e.sketch) ==> has_failed(
                    entry,
                    "referenzierte Skizze existiert nicht mehr"@,
                ),
                FeatureView::Revolve(r) => lost(r.sketch) ==> has_failed(
                    entry,
                    "referenzierte Skizze existiert nicht mehr"@,
                ),
            }
        }),
{
}

} // verus!
