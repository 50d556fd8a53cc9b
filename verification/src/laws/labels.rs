//! Laws of where the labels of dimensions stand and which one the cursor is over.
use vstd::prelude::*;

use crate::arith::{Order, computes, is_first_least, is_rank, is_reciprocal};
use crate::constraint::{Constraint, dist_sq};
use crate::dimension::DimensionTarget;
use crate::expr::{Expr, Reading, larger, root};
use crate::ids::{DimensionId, EntityId, PointId};
use crate::laws::interaction::lemma_place_sum;
use crate::laws::picking::exact_order;
use crate::laws::reals::{
    lemma_apart, lemma_cancel, lemma_quotient, lemma_root_is, lemma_round, lemma_times,
};
use crate::laws::solving::spot_of;
use crate::session::{
    DimLayout, computes_place, dimension_ranks, has_layout, is_circle, is_default_offset,
    is_dimension_at, is_edge, is_layout, is_line, linear_offset, offset_length, prefix_spec, round_offset,
};
use crate::sketch::{Sketch, SketchView};
use crate::slots::slot_order;
use crate::solver::{exact, reading};

verus! {

/// The direction of a segment has length one.
proof fn lemma_unit(x: real, y: real, len: real)
    requires
        len > 0real,
        len * len == x * x + y * y,
    ensures
        len * (x / len) == x,
        len * (y / len) == y,
        (x / len) * (x / len) + (y / len) * (y / len) == 1real,
{
    let (u, v) = (x / len, y / len);
    lemma_quotient(x, len);
    lemma_quotient(y, len);
    lemma_squares(len, u);
    lemma_squares(len, v);
    let s = len * len;
    lemma_apart(u * u, v * v, s);
    lemma_times(s, 1real);
    assert(s * (u * u + v * v) == s * 1real);
    assert(s > 0real) by (nonlinear_arith)
        requires
            s == len * len,
            len > 0real,
    ;
    lemma_cancel(s, u * u + v * v, 1real);
}

/// The square of a product.
proof fn lemma_squares(a: real, b: real)
    ensures
        (a * b) * (a * b) == (a * a) * (b * b),
{
    lemma_round(a, b, a * b);
    lemma_round(b, a, b);
    lemma_round(a, a, b * b);
    assert((a * b) * (a * b) == (a * a) * (b * b)) by (nonlinear_arith);
}

/// The label of a new distance stands beside the segment, to its left: the
/// offset is perpendicular to the segment, a fifth of its length long but not
/// less than a half. With exact arithmetic; `len` is the length of the segment.
pub proof fn lemma_label_of_distance<
    T,
    E: Fn(&Expr<T>, &Vec<T>) -> T,
    L: Fn(&T, &T) -> bool,
>(
    num: spec_fn(T) -> real,
    eval: E,
    less: L,
    view: SketchView<T>,
    p: PointId,
    q: PointId,
    offset: [T; 2],
    len: real,
)
    requires
        exact(num, eval, less),
        is_default_offset(view, eval, DimensionTarget::Linear(p, q), offset),
        len >= 1real / 1000000real,
        ({
            let (a, b) = (spot_of(num, view, p), spot_of(num, view, q));
            len * len == (b.0 - a.0) * (b.0 - a.0) + (b.1 - a.1) * (b.1 - a.1)
        }),
    ensures
        ({
            let (a, b) = (spot_of(num, view, p), spot_of(num, view, q));
            let (x, y) = (b.0 - a.0, b.1 - a.1);
            let (ox, oy) = (num(offset[0]), num(offset[1]));
            let off = if len > 5real / 2real {
                len / 5real
            } else {
                1real / 2real
            };
            &&& ox * x + oy * y == 0real
            &&& ox * ox + oy * oy == off * off
            &&& x * oy - y * ox == len * off
        }),
{
    let (a, b) = (view.position(p), view.position(q));
    let (ax, ay, bx, by) = (num(a[0]), num(a[1]), num(b[0]), num(b[1]));
    let (x, y) = (bx - ax, by - ay);
    assert(spot_of(num, view, p) == (ax, ay));
    assert(spot_of(num, view, q) == (bx, by));
    let at_ends = |at: Reading<T>|
        linear_offset((at.num)(a[0]), (at.num)(a[1]), (at.num)(b[0]), (at.num)(b[1]));
    let at = reading(num, Seq::empty());
    let first = |at: Reading<T>| at_ends(at).0;
    let second = |at: Reading<T>| at_ends(at).1;
    assert(computes(eval, first, Seq::empty(), offset[0]));
    assert(computes(eval, second, Seq::empty(), offset[1]));
    assert(num(offset[0]) == first(at));
    assert(num(offset[1]) == second(at));
    let square = dist_sq(ax, ay, bx, by);
    assert(square == len * len) by {
        lemma_turned(ax, bx);
        lemma_turned(ay, by);
    }
    lemma_root_is(len, square);
    let off = larger(len * (1real / 5real), 1real / 2real);
    assert(off == if len > 5real / 2real {
        len / 5real
    } else {
        1real / 2real
    });
    lemma_unit(x, y, len);
    let (u, v) = (x / len, y / len);
    let (ox, oy) = (num(offset[0]), num(offset[1]));
    assert((-y) / len == -v) by {
        lemma_quotient(-y, len);
        lemma_round(len, v, 1real);
        assert(len * (-v) == -(len * v)) by (nonlinear_arith);
        lemma_cancel(len, (-y) / len, -v);
    }
    assert(ox == (-v) * off);
    assert(oy == u * off);
    lemma_beside(x, y, u, v, len, off);
}

proof fn lemma_turned(a: real, b: real)
    ensures
        (a - b) * (a - b) == (b - a) * (b - a),
{
    let d = a - b;
    assert(d * d == (-d) * (-d)) by (nonlinear_arith);
}

proof fn lemma_beside(x: real, y: real, u: real, v: real, len: real, off: real)
    requires
        x == len * u,
        y == len * v,
        u * u + v * v == 1real,
    ensures
        ((-v) * off) * x + (u * off) * y == 0real,
        ((-v) * off) * ((-v) * off) + (u * off) * (u * off) == off * off,
        x * (u * off) - y * ((-v) * off) == len * off,
{
    let m = v * off;
    let n = u * off;
    assert((-v) * off == -m) by (nonlinear_arith)
        requires
            m == v * off,
    ;
    let k = off * len;
    assert(m * x == k * (u * v)) by (nonlinear_arith)
        requires
            m == v * off,
            x == len * u,
            k == off * len,
    ;
    assert(n * y == k * (u * v)) by (nonlinear_arith)
        requires
            n == u * off,
            y == len * v,
            k == off * len,
    ;
    assert((-m) * x == -(m * x)) by (nonlinear_arith);
    assert((-m) * (-m) == m * m) by (nonlinear_arith);
    lemma_squares(v, off);
    lemma_squares(u, off);
    lemma_apart(u * u, v * v, off * off);
    lemma_times(1real, off * off);
    assert(x * n == k * (u * u)) by (nonlinear_arith)
        requires
            n == u * off,
            x == len * u,
            k == off * len,
    ;
    assert(y * m == k * (v * v)) by (nonlinear_arith)
        requires
            m == v * off,
            y == len * v,
            k == off * len,
    ;
    assert(y * (-m) == -(y * m)) by (nonlinear_arith);
    lemma_apart(u * u, v * v, k);
    lemma_times(k, 1real);
    lemma_round(off, len, 1real);
}

/// The label of a new radius or diameter stands on the diagonal to the upper
/// right, eight fifths of the radius away from the centre. With exact
/// arithmetic; `diagonal` is what is drawn along each axis for a length of one.
pub proof fn lemma_label_of_circle<T, E: Fn(&Expr<T>, &Vec<T>) -> T, L: Fn(&T, &T) -> bool>(
    num: spec_fn(T) -> real,
    eval: E,
    less: L,
    view: SketchView<T>,
    target: DimensionTarget,
    e: EntityId,
    offset: [T; 2],
    diagonal: real,
)
    requires
        exact(num, eval, less),
        target == DimensionTarget::Radius(e) || target == DimensionTarget::Diameter(e),
        is_circle(view, e),
        is_default_offset(view, eval, target, offset),
        diagonal >= 0real,
        diagonal * diagonal == 1real / 2real,
        num(view.vars[view.entities[e.raw]->radius.index as int]) >= 1real / 1000000real,
    ensures
        ({
            let r = num(view.vars[view.entities[e.raw]->radius.index as int]);
            let (ox, oy) = (num(offset[0]), num(offset[1]));
            &&& ox == oy
            &&& ox >= 0real
            &&& ox * ox + oy * oy == (r * (8real / 5real)) * (r * (8real / 5real))
        }),
{
    let r = num(view.vars[view.entities[e.raw]->radius.index as int]);
    let size = |at: Reading<T>|
        if is_circle(view, e) {
            (at.num)(view.vars[view.entities[e.raw]->radius.index as int])
        } else {
            1real
        };
    let meaning = |at: Reading<T>| round_offset(size(at));
    assert(computes(eval, meaning, Seq::empty(), offset[0]));
    assert(num(offset[0]) == meaning(reading(num, Seq::empty())));
    lemma_root_is(diagonal, 1real / 2real);
    let ox = num(offset[0]);
    assert(ox == diagonal * r * (8real / 5real));
    let s = r * (8real / 5real);
    lemma_round(diagonal, r, 8real / 5real);
    assert(ox == diagonal * s);
    lemma_squares(diagonal, s);
    assert(ox * ox == (1real / 2real) * (s * s));
    assert(ox >= 0real) by (nonlinear_arith)
        requires
            ox == diagonal * s,
            diagonal >= 0real,
            s >= 0real,
    ;
}

/// The leader of a circle's label begins on the circle, in the direction of the
/// label; in that of the diagonal where the label stands on the centre. With
/// exact arithmetic; `len` is how far the label stands from the centre, and
/// `diagonal` what is drawn along each axis for a length of one.
pub proof fn lemma_leader<T, E: Fn(&Expr<T>, &Vec<T>) -> T, L: Fn(&T, &T) -> bool>(
    num: spec_fn(T) -> real,
    eval: E,
    less: L,
    center: [T; 2],
    radius: T,
    offset: [T; 2],
    edge: [T; 2],
    len: real,
    diagonal: real,
)
    requires
        exact(num, eval, less),
        is_edge(eval, less, center, radius, offset, edge),
        len >= 0real,
        len * len == num(offset[0]) * num(offset[0]) + num(offset[1]) * num(offset[1]),
        diagonal >= 0real,
        diagonal * diagonal == 1real / 2real,
    ensures
        ({
            let (x, y) = (num(edge[0]) - num(center[0]), num(edge[1]) - num(center[1]));
            let r = num(radius);
            &&& x * x + y * y == r * r
            &&& if len > 1real / 1000000000real {
                len * x == r * num(offset[0]) && len * y == r * num(offset[1])
            } else {
                x == r * diagonal && y == r * diagonal
            }
        }),
{
    let (limit, size, long) = choose|limit: T, size: T, long: bool|
        {
            &&& #[trigger] call_ensures(less, (&limit, &size), long)
            &&& is_reciprocal(eval, 1_000_000_000, limit)
            &&& computes(
                eval,
                |at: Reading<T>| offset_length((at.num)(offset[0]), (at.num)(offset[1])),
                Seq::empty(),
                size,
            )
            &&& if long {
                computes_place(
                    eval,
                    |at: Reading<T>|
                        (at.num)(center[0]) + (at.num)(radius) * ((at.num)(offset[0]) / (at.num)(
                            size,
                        )),
                    |at: Reading<T>|
                        (at.num)(center[1]) + (at.num)(radius) * ((at.num)(offset[1]) / (at.num)(
                            size,
                        )),
                    edge,
                )
            } else {
                computes_place(
                    eval,
                    |at: Reading<T>| (at.num)(center[0]) + (at.num)(radius) * root(1real / 2real),
                    |at: Reading<T>| (at.num)(center[1]) + (at.num)(radius) * root(1real / 2real),
                    edge,
                )
            }
        };
    let at = reading(num, Seq::empty());
    let how_long = |at: Reading<T>| offset_length((at.num)(offset[0]), (at.num)(offset[1]));
    assert(computes(eval, how_long, Seq::empty(), size));
    assert(num(size) == how_long(at));
    lemma_root_is(len, num(offset[0]) * num(offset[0]) + num(offset[1]) * num(offset[1]));
    assert(num(size) == len);
    assert(num(limit) == 1real / 1000000000real);
    lemma_root_is(diagonal, 1real / 2real);
    let r = num(radius);
    let (x, y) = (num(edge[0]) - num(center[0]), num(edge[1]) - num(center[1]));
    if long {
        let (u, v) = (num(offset[0]) / len, num(offset[1]) / len);
        let fx = |at: Reading<T>|
            (at.num)(center[0]) + (at.num)(radius) * ((at.num)(offset[0]) / (at.num)(size));
        let fy = |at: Reading<T>|
            (at.num)(center[1]) + (at.num)(radius) * ((at.num)(offset[1]) / (at.num)(size));
        assert(computes(eval, fx, Seq::empty(), edge[0]));
        assert(computes(eval, fy, Seq::empty(), edge[1]));
        assert(num(edge[0]) == fx(at) && num(edge[1]) == fy(at));
        assert(x == r * u && y == r * v);
        lemma_unit(num(offset[0]), num(offset[1]), len);
        lemma_squares(r, u);
        lemma_squares(r, v);
        lemma_apart(u * u, v * v, r * r);
        lemma_times(r * r, 1real);
        lemma_round(r, u, len);
        lemma_round(r, v, len);
        lemma_round(len, u, r);
        lemma_round(len, v, r);
    } else {
        let fx = |at: Reading<T>| (at.num)(center[0]) + (at.num)(radius) * root(1real / 2real);
        let fy = |at: Reading<T>| (at.num)(center[1]) + (at.num)(radius) * root(1real / 2real);
        assert(computes(eval, fx, Seq::empty(), edge[0]));
        assert(computes(eval, fy, Seq::empty(), edge[1]));
        assert(num(edge[0]) == fx(at) && num(edge[1]) == fy(at));
        assert(x == r * diagonal && y == r * diagonal);
        lemma_squares(r, diagonal);
        assert((r * r) * (1real / 2real) + (r * r) * (1real / 2real) == r * r);
    }
}

/// The dimension that the cursor is over is the nearest one: it is within the
/// limit, and no other is nearer. None is found only where all are farther off.
/// `drawn` gives how each dimension is drawn, and `far` how far that is off.
pub proof fn lemma_nearest_dimension<
    T: Copy,
    E: Fn(&Expr<T>, &Vec<T>) -> T,
    L: Fn(&T, &T) -> bool,
    W: Fn(&DimLayout<T>) -> T,
    M: Fn(&T, &T) -> bool,
    Q: Fn(&T) -> i64,
>(
    num: spec_fn(T) -> real,
    sketch: Sketch<T>,
    tol: T,
    eval: E,
    less: L,
    distance: W,
    order: Order<M, Q>,
    found: Option<DimensionId>,
    drawn: spec_fn(u64) -> DimLayout<T>,
    far: spec_fn(DimLayout<T>) -> real,
)
    requires
        sketch.wf(),
        exact_order(num, order),
        is_dimension_at(sketch@, tol, eval, less, distance, order, found),
        forall|d: DimensionId, layout: DimLayout<T>| #[trigger]
            is_layout(sketch@, eval, less, d, layout) ==> layout == drawn(d.raw),
        forall|layout: &DimLayout<T>, gap: T| #[trigger]
            call_ensures(distance, (layout,), gap) ==> num(gap) == far(*layout),
    ensures
        match found {
            Some(id) => {
                &&& has_layout(sketch@, id)
                &&& far(drawn(id.raw)) <= num(tol)
                &&& forall|d: u64| #[trigger]
                    has_layout(sketch@, DimensionId { raw: d }) ==> far(drawn(id.raw)) <= far(
                        drawn(d),
                    )
            },
            None => forall|d: u64| #[trigger]
                has_layout(sketch@, DimensionId { raw: d }) ==> num(tol) < far(drawn(d)),
        },
{
    let view = sketch@;
    let keys = slot_order(view.dimensions.dom());
    sketch.lemma_orders();
    let (layouts, ranks) = choose|layouts: Seq<Option<DimLayout<T>>>, ranks: Seq<Option<i64>>|
        #[trigger]
        dimension_ranks(view, tol, eval, less, distance, order, layouts, ranks) && (match found {
            Some(id) => exists|i: int| #[trigger]
                is_first_least(ranks, i) && id.raw == keys[i],
            None => forall|i: int| 0 <= i < ranks.len() ==> #[trigger] ranks[i] is None,
        });
    assert forall|i: int| 0 <= i < keys.len() implies {
        &&& #[trigger] ranks[i] is Some ==> has_layout(view, DimensionId { raw: keys[i] })
        &&& has_layout(view, DimensionId { raw: keys[i] }) ==> (ranks[i] is Some <==> far(
            drawn(keys[i]),
        ) <= num(tol))
        &&& ranks[i] matches Some(place) ==> exists|gap: T| #[trigger]
            call_ensures(order.key, (&gap,), place) && num(gap) == far(drawn(keys[i]))
    } by {
        if let Some(layout) = layouts[i] {
            let gap = choose|gap: T| #[trigger]
                call_ensures(distance, (&layout,), gap) && is_rank(order, gap, tol, ranks[i]);
            assert(num(gap) == far(layout));
            assert(is_layout(view, eval, less, DimensionId { raw: keys[i] }, layout));
        }
    }
    assert forall|d: u64| #[trigger] has_layout(view, DimensionId { raw: d }) implies exists|i: int|
        0 <= i < keys.len() && #[trigger] keys[i] == d by {
        assert(view.dimensions.dom().contains(d));
        assert(keys.contains(d));
    }
    match found {
        Some(id) => {
            let i = choose|i: int| #[trigger] is_first_least(ranks, i) && id.raw == keys[i];
            assert(ranks[i] is Some);
            assert(DimensionId { raw: keys[i] } == id);
            assert forall|d: u64| #[trigger] has_layout(view, DimensionId { raw: d }) implies far(
                drawn(id.raw),
            ) <= far(drawn(d)) by {
                let j = choose|j: int| 0 <= j < keys.len() && #[trigger] keys[j] == d;
                if let Some(other) = ranks[j] {
                    let place = ranks[i]->Some_0;
                    assert(place <= other);
                    let a = choose|gap: T| #[trigger]
                        call_ensures(order.key, (&gap,), place) && num(gap) == far(
                            drawn(keys[i]),
                        );
                    let b = choose|gap: T| #[trigger]
                        call_ensures(order.key, (&gap,), other) && num(gap) == far(
                            drawn(keys[j]),
                        );
                    assert(num(a) <= num(b));
                }
            }
        },
        None => {
            assert forall|d: u64| #[trigger] has_layout(view, DimensionId { raw: d }) implies num(
                tol,
            ) < far(drawn(d)) by {
                let j = choose|j: int| 0 <= j < keys.len() && #[trigger] keys[j] == d;
                assert(ranks[j] is None);
            }
        },
    }
}

/// A dimension is drawn at what it measures, and shows the value that drives it:
/// a distance or a radius as it is, a diameter as twice the radius, each with its
/// sign. With exact arithmetic.
pub proof fn lemma_layout<T, E: Fn(&Expr<T>, &Vec<T>) -> T, L: Fn(&T, &T) -> bool>(
    num: spec_fn(T) -> real,
    eval: E,
    less: L,
    view: SketchView<T>,
    id: DimensionId,
    layout: DimLayout<T>,
)
    requires
        exact(num, eval, less),
        has_layout(view, id),
        is_layout(view, eval, less, id, layout),
    ensures
        ({
            let dimension = view.dimensions[id.raw];
            let (ox, oy) = (num(dimension.offset[0]), num(dimension.offset[1]));
            match (view.constraints[dimension.constraint.raw], layout) {
                (Constraint::Distance(p, q, v), DimLayout::Linear { a, b, da, db, value }) => {
                    &&& (num(a[0]), num(a[1])) == spot_of(num, view, p)
                    &&& (num(b[0]), num(b[1])) == spot_of(num, view, q)
                    &&& num(da[0]) == num(a[0]) + ox && num(da[1]) == num(a[1]) + oy
                    &&& num(db[0]) == num(b[0]) + ox && num(db[1]) == num(b[1]) + oy
                    &&& dimension.kind !is Diameter ==> value == v
                    &&& prefix_spec(layout).len() == 0
                },
                (
                    Constraint::Radius(e, v),
                    DimLayout::Round { center, label, diameter, value, .. },
                ) => {
                    &&& (num(center[0]), num(center[1])) == spot_of(
                        num,
                        view,
                        view.entities[e.raw]->center,
                    )
                    &&& num(label[0]) == num(center[0]) + ox && num(label[1]) == num(center[1]) + oy
                    &&& diameter <==> dimension.kind is Diameter
                    &&& dimension.kind is Diameter ==> num(value) == num(v) + num(v)
                        && prefix_spec(layout) == "⌀"@
                    &&& dimension.kind !is Diameter ==> value == v && prefix_spec(layout) == "R"@
                },
                _ => false,
            }
        }),
{
    let dimension = view.dimensions[id.raw];
    reveal_strlit("");
    match (view.constraints[dimension.constraint.raw], layout) {
        (Constraint::Distance(p, q, v), DimLayout::Linear { a, b, da, db, .. }) => {
            lemma_place_sum(num, eval, less, a, dimension.offset, da);
            lemma_place_sum(num, eval, less, b, dimension.offset, db);
        },
        (Constraint::Radius(e, v), DimLayout::Round { center, label, value, .. }) => {
            lemma_place_sum(num, eval, less, center, dimension.offset, label);
            if dimension.kind is Diameter {
                let meaning = |at: Reading<T>| (at.num)(v) * 2real;
                assert(computes(eval, meaning, Seq::empty(), value));
                assert(num(value) == meaning(reading(num, Seq::empty())));
            }
        },
        _ => {},
    }
}

/// A dimension is drawn exactly if it measures something: if there is such a
/// dimension, its constraint exists, and that is a distance, or the radius of a
/// circle that exists. In a sound sketch every dimension is drawn.
pub proof fn lemma_which_are_drawn<T>(view: SketchView<T>, id: DimensionId)
    ensures
        has_layout(view, id) <==> {
            let driver = view.dimensions[id.raw].constraint.raw;
            &&& view.dimensions.contains_key(id.raw)
            &&& view.constraints.contains_key(driver)
            &&& {
                ||| view.constraints[driver] is Distance
                ||| (view.constraints[driver] matches Constraint::Radius(e, _)
                    && view.entities.contains_key(e.raw) && view.entities[e.raw] is Circle)
            }
        },
        view.sound() && view.dimensions.contains_key(id.raw) ==> has_layout(view, id),
{
    if view.sound() && view.dimensions.contains_key(id.raw) {
        let driver = view.dimensions[id.raw].constraint.raw;
        assert(view.constraints.contains_key(driver));
    }
}

/// Only circles count as circles, and only lines as lines.
pub proof fn lemma_kinds<T>(view: SketchView<T>, e: EntityId)
    ensures
        view.entities.contains_key(e.raw) ==> (is_circle(view, e) <==> view.entities[e.raw] is Circle)
            && (is_line(view, e) <==> view.entities[e.raw] is Line),
        !view.entities.contains_key(e.raw) ==> !is_circle(view, e) && !is_line(view, e),
{
}

} // verus!
