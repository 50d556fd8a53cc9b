//! Closed profiles of a sketch.
//!
//! Every circle is a profile, and so is every ring of lines: a component of
//! the line graph in which each node has two edges. Points that a coincidence
//! joins count as one node.
use std::collections::HashMap;

use vstd::prelude::*;

use crate::arith::{
    compares_alike, compares_all, computes, evaluates_alike, evaluates_all, gives, is_zero, means,
    nothing,
};
use crate::constraint::Constraint;
use crate::expr::{Expr, Reading};
use crate::ids::{EntityId, PointId};
use crate::rings::{
    Graph, after, far_end, in_component, incident, is_closed, is_ring, lemma_ring_closed,
    lemma_closed_backwards, lemma_marks_stay_closed, lemma_ring_alike, lemma_ring_connected,
    lemma_ring_shared, no_self_edges, touches, trace_cycle,
};
use crate::sketch::{Sketch, SketchEntity, SketchView, attached};
use crate::slots::{in_slot_order, slot_order};
use crate::union_find::{UnionFind, lemma_representative_origin, merged};

verus! {

/// A closed region of a sketch.
#[derive(Debug, Clone, PartialEq)]
pub enum Profile<T> {
    /// A closed polygon, counterclockwise, without its first point repeated.
    Polygon(Vec<[T; 2]>),
    /// A full circle.
    Circle {
        /// The centre.
        center: [T; 2],
        /// The radius.
        radius: T,
    },
}

/// The pairs of points that the constraints under the given keys make
/// coincide.
pub open spec fn coincidences<T>(view: SketchView<T>, keys: Seq<u64>) -> Seq<(u64, u64)>
    decreases keys.len(),
{
    if keys.len() == 0 {
        seq![]
    } else {
        let rest = coincidences(view, keys.drop_last());
        match view.constraints[keys.last()] {
            Constraint::Coincident(p, q) => rest.push((p.raw, q.raw)),
            _ => rest,
        }
    }
}

/// All pairs of points that a constraint makes coincide.
pub open spec fn all_coincidences<T>(view: SketchView<T>) -> Seq<(u64, u64)> {
    coincidences(view, slot_order(view.constraints.dom()))
}

/// The node that a point belongs to: the representative of all points that
/// coincide with it.
pub open spec fn node_of<T>(view: SketchView<T>, point: PointId) -> u64 {
    merged(all_coincidences(view), point.raw)
}

/// The edges of the lines under the given keys. A line whose ends are the same
/// node has none.
pub open spec fn edges_under<T>(view: SketchView<T>, keys: Seq<u64>) -> Seq<(u64, u64)>
    decreases keys.len(),
{
    if keys.len() == 0 {
        seq![]
    } else {
        let rest = edges_under(view, keys.drop_last());
        match view.entities[keys.last()] {
            SketchEntity::Line { p1, p2 } => if node_of(view, p1) == node_of(view, p2) {
                rest
            } else {
                rest.push((node_of(view, p1), node_of(view, p2)))
            },
            SketchEntity::Circle { .. } => rest,
        }
    }
}

/// The edges of all lines, in slot order.
pub open spec fn line_edges<T>(view: SketchView<T>) -> Seq<(u64, u64)> {
    edges_under(view, slot_order(view.entities.dom()))
}

/// The nodes of the lines under the given keys, first end before second end.
pub open spec fn nodes_under<T>(view: SketchView<T>, keys: Seq<u64>) -> Seq<u64>
    decreases keys.len(),
{
    if keys.len() == 0 {
        seq![]
    } else {
        let rest = nodes_under(view, keys.drop_last());
        match view.entities[keys.last()] {
            SketchEntity::Line { p1, p2 } => rest.push(node_of(view, p1)).push(node_of(view, p2)),
            SketchEntity::Circle { .. } => rest,
        }
    }
}

/// The nodes of all lines, in slot order.
pub open spec fn line_nodes<T>(view: SketchView<T>) -> Seq<u64> {
    nodes_under(view, slot_order(view.entities.dom()))
}

/// `ring` is the ring that starts at `nodes[s]` along its first edge, and no
/// node before `s` lies on it.
pub open spec fn starts_at(
    edges: Seq<(u64, u64)>,
    nodes: Seq<u64>,
    ring: Seq<u64>,
    s: int,
) -> bool {
    &&& 0 <= s < nodes.len()
    &&& is_ring(edges, ring)
    &&& ring[0] == nodes[s]
    &&& ring[1] == far_end(incident(edges, nodes[s])[0], nodes[s])
    &&& forall|t: int| 0 <= t < s ==> !ring.contains(#[trigger] nodes[t])
}

/// `rings` are all rings of the graph, each once, in the order of the first
/// node that lies on them. `at` gives the index of that node for each.
pub open spec fn are_all_rings(
    edges: Seq<(u64, u64)>,
    nodes: Seq<u64>,
    rings: Seq<Seq<u64>>,
    at: Seq<int>,
) -> bool {
    &&& at.len() == rings.len()
    &&& forall|i: int|
        0 <= i < rings.len() ==> starts_at(edges, nodes, #[trigger] rings[i], at[i])
    &&& forall|i: int, j: int| 0 <= i < j < at.len() ==> #[trigger] at[i] < #[trigger] at[j]
    &&& forall|ring: Seq<u64>| #[trigger]
        is_ring(edges, ring) ==> exists|i: int|
            0 <= i < rings.len() && (#[trigger] rings[i]).contains(ring[0])
}

/// One term of the shoelace formula.
pub open spec fn shoelace<T>(num: spec_fn(T) -> real, points: Seq<[T; 2]>, i: int) -> real {
    let a = points[i];
    let b = points[after(points.len() as int, i)];
    num(a[0]) * num(b[1]) - num(b[0]) * num(a[1])
}

/// The first `k` terms of the shoelace formula.
pub open spec fn shoelace_sum<T>(num: spec_fn(T) -> real, points: Seq<[T; 2]>, k: int) -> real
    decreases k,
{
    if k <= 0 {
        0real
    } else {
        shoelace_sum(num, points, k - 1) + shoelace(num, points, k - 1)
    }
}

/// The area of a polygon, positive if it runs counterclockwise.
pub open spec fn area_of<T>(num: spec_fn(T) -> real, points: Seq<[T; 2]>) -> real {
    shoelace_sum(num, points, points.len() as int) * (1real / 2real)
}

/// One term of the shoelace formula, as a formula.
pub open spec fn shoelace_expr<T>(a: [T; 2], b: [T; 2]) -> Expr<T> {
    Expr::Sub(
        Box::new(Expr::Mul(Box::new(Expr::Value(a[0])), Box::new(Expr::Value(b[1])))),
        Box::new(Expr::Mul(Box::new(Expr::Value(b[0])), Box::new(Expr::Value(a[1])))),
    )
}

/// The first `k` terms of the shoelace formula, as a formula.
pub open spec fn shoelace_sum_expr<T>(points: Seq<[T; 2]>, k: int) -> Expr<T>
    decreases k,
{
    if k <= 0 {
        Expr::Ratio(0, 1)
    } else {
        Expr::Add(
            Box::new(shoelace_sum_expr(points, k - 1)),
            Box::new(
                shoelace_expr(points[k - 1], points[after(points.len() as int, k - 1)]),
            ),
        )
    }
}

/// The area of a polygon, as a formula.
pub open spec fn area_expr<T>(points: Seq<[T; 2]>) -> Expr<T> {
    Expr::Mul(
        Box::new(shoelace_sum_expr(points, points.len() as int)),
        Box::new(Expr::Ratio(1, 2)),
    )
}

/// The positions of the nodes of a ring.
pub open spec fn places<T>(view: SketchView<T>, ring: Seq<u64>) -> Seq<[T; 2]> {
    ring.map_values(|n: u64| view.position(PointId { raw: n }))
}

/// `area` is what `eval` gives for the area of a polygon.
pub open spec fn computes_area<T, E: Fn(&Expr<T>, &Vec<T>) -> T>(
    eval: E,
    points: Seq<[T; 2]>,
    area: T,
) -> bool {
    &&& computes(eval, |at: Reading<T>| area_of(at.num, points), Seq::empty(), area)
    &&& gives(eval, area_expr(points), Seq::empty(), area)
}

/// `points` are the positions of the ring, turned round if their area is
/// found to be less than zero.
pub open spec fn is_oriented<T, E: Fn(&Expr<T>, &Vec<T>) -> T, L: Fn(&T, &T) -> bool>(
    eval: E,
    less: L,
    zero: T,
    around: Seq<[T; 2]>,
    points: Seq<[T; 2]>,
) -> bool {
    exists|area: T, negative: bool| #[trigger]
        call_ensures(less, (&area, &zero), negative) && computes_area(eval, around, area)
            && points == (if negative {
            around.reverse()
        } else {
            around
        })
}

/// The keys of the circles, in slot order.
pub open spec fn round_keys<T>(view: SketchView<T>) -> Seq<u64> {
    slot_order(view.entities.dom()).filter(|k: u64| view.entities[k] is Circle)
}

/// The profile of a circle.
pub open spec fn circle_at<T>(view: SketchView<T>, key: u64) -> Profile<T> {
    Profile::Circle {
        center: view.position(view.entities[key]->center),
        radius: view.vars[view.entities[key]->radius.index as int],
    }
}

/// `profiles` are the circles under the given keys, followed by one polygon
/// for each ring.
pub open spec fn are_profiles<T, E: Fn(&Expr<T>, &Vec<T>) -> T, L: Fn(&T, &T) -> bool>(
    view: SketchView<T>,
    eval: E,
    less: L,
    zero: T,
    circles: Seq<u64>,
    rings: Seq<Seq<u64>>,
    profiles: Seq<Profile<T>>,
) -> bool {
    &&& profiles.len() == circles.len() + rings.len()
    &&& forall|i: int|
        0 <= i < circles.len() ==> #[trigger] profiles[i] == circle_at(view, circles[i])
    &&& forall|i: int|
        0 <= i < rings.len() ==> (#[trigger] profiles[circles.len() + i] matches Profile::Polygon(
            points,
        ) && is_oriented(eval, less, zero, places(view, rings[i]), points@))
}

/// `profiles` are all profiles of a sketch: first the circles, then the rings
/// of lines.
pub open spec fn found_profiles<T, E: Fn(&Expr<T>, &Vec<T>) -> T, L: Fn(&T, &T) -> bool>(
    view: SketchView<T>,
    eval: E,
    less: L,
    profiles: Seq<Profile<T>>,
) -> bool {
    exists|zero: T, rings: Seq<Seq<u64>>, at: Seq<int>|
        {
            &&& #[trigger] is_zero(eval, zero)
            &&& #[trigger] are_all_rings(line_edges(view), line_nodes(view), rings, at)
            &&& are_profiles(view, eval, less, zero, round_keys(view), rings, profiles)
        }
}

/// The profiles have places: the centres and radii of all circles exist, and so
/// do the nodes of all rings of lines.
pub open spec fn traceable<T>(view: SketchView<T>) -> bool {
    &&& forall|e: u64| #[trigger]
        view.entities.contains_key(e) ==> (view.entities[e] matches SketchEntity::Circle {
            center,
            radius,
        } ==> view.has_place(center) && radius.index < view.vars.len())
    &&& forall|ring: Seq<u64>, k: int|
        #![trigger is_ring(line_edges(view), ring), ring[k]]
        is_ring(line_edges(view), ring) && 0 <= k < ring.len() ==> view.has_place(
            PointId { raw: ring[k] },
        )
}

/// No two rings share a node.
pub proof fn lemma_rings_disjoint(
    edges: Seq<(u64, u64)>,
    nodes: Seq<u64>,
    rings: Seq<Seq<u64>>,
    at: Seq<int>,
    i: int,
    j: int,
    node: u64,
)
    requires
        no_self_edges(edges),
        are_all_rings(edges, nodes, rings, at),
        0 <= i < j < rings.len(),
        rings[i].contains(node),
    ensures
        !rings[j].contains(node),
{
    if rings[j].contains(node) {
        assert(starts_at(edges, nodes, rings[i], at[i]));
        assert(starts_at(edges, nodes, rings[j], at[j]));
        lemma_ring_closed(edges, rings[j]);
        let k = choose|k: int| 0 <= k < rings[i].len() && rings[i][k] == node;
        assert(rings[j].to_set().contains(rings[i][k]));
        lemma_ring_connected(edges, rings[i], rings[j].to_set(), k, 0);
        assert(rings[j].contains(nodes[at[i]]));
        assert(at[i] < at[j]);
    }
}

/// One term of the shoelace formula, as a formula.
fn shoelace_term<T: Copy>(a: [T; 2], b: [T; 2]) -> (e: Expr<T>)
    ensures
        e == shoelace_expr(a, b),
        forall|at: Reading<T>| #[trigger]
            e.eval(at) == (at.num)(a[0]) * (at.num)(b[1]) - (at.num)(b[0]) * (at.num)(a[1]),
{
    Expr::difference(
        Expr::product(Expr::value(a[0]), Expr::value(b[1])),
        Expr::product(Expr::value(b[0]), Expr::value(a[1])),
    )
}

/// The area of a polygon by the shoelace formula, positive if it runs
/// counterclockwise.
pub fn signed_area<T: Copy>(points: &Vec<[T; 2]>) -> (e: Expr<T>)
    ensures
        e == area_expr(points@),
        means(e, |at: Reading<T>| area_of(at.num, points@)),
{
    let mut sum: Expr<T> = Expr::ratio(0, 1);
    assert((0 as int) as real / (1 as int) as real == 0real);
    let mut i: usize = 0;
    while i < points.len()
        invariant
            i <= points@.len(),
            sum == shoelace_sum_expr(points@, i as int),
            forall|at: Reading<T>| #[trigger]
                sum.eval(at) == shoelace_sum(at.num, points@, i as int),
        decreases points@.len() - i,
    {
        let a = points[i];
        let b = if i + 1 < points.len() {
            points[i + 1]
        } else {
            points[0]
        };
        sum = Expr::sum(sum, shoelace_term(a, b));
        i = i + 1;
        assert forall|at: Reading<T>| #[trigger] sum.eval(at) == shoelace_sum(
            at.num,
            points@,
            i as int,
        ) by {
            assert(shoelace_sum(at.num, points@, i as int) == shoelace_sum(
                at.num,
                points@,
                i - 1,
            ) + shoelace(at.num, points@, i - 1));
        }
    }
    assert((1 as int) as real / (2 as int) as real == 1real / 2real);
    let e = Expr::product(sum, Expr::ratio(1, 2));
    assert forall|at: Reading<T>| #[trigger] e.eval(at) == area_of(at.num, points@) by {
        assert(sum.eval(at) == shoelace_sum(at.num, points@, points@.len() as int));
    }
    e
}

proof fn lemma_shoelace_reversed<T>(num: spec_fn(T) -> real, points: Seq<[T; 2]>, k: int)
    requires
        0 <= k < points.len(),
    ensures
        shoelace_sum(num, points.reverse(), k) == shoelace_sum(num, points, points.len() - 1 - k)
            - shoelace_sum(num, points, points.len() - 1),
    decreases k,
{
    let n = points.len() as int;
    if k > 0 {
        lemma_shoelace_reversed(num, points, k - 1);
        assert(shoelace(num, points.reverse(), k - 1) == -shoelace(num, points, n - 1 - k));
        assert(shoelace_sum(num, points, n - k) == shoelace_sum(num, points, n - 1 - k) + shoelace(
            num,
            points,
            n - 1 - k,
        ));
    }
}

/// Turning a polygon round turns the sign of its area.
pub proof fn lemma_reversed_area<T>(num: spec_fn(T) -> real, points: Seq<[T; 2]>)
    ensures
        area_of(num, points.reverse()) == -area_of(num, points),
{
    let n = points.len() as int;
    if n > 0 {
        lemma_shoelace_reversed(num, points, n - 1);
        assert(shoelace(num, points.reverse(), n - 1) == -shoelace(num, points, n - 1));
        assert(shoelace_sum(num, points.reverse(), n) == -shoelace_sum(num, points, n));
    }
}

/// With exact arithmetic every polygon of a profile runs counterclockwise, or
/// its area is zero.
pub proof fn lemma_oriented_counterclockwise<
    T,
    E: Fn(&Expr<T>, &Vec<T>) -> T,
    L: Fn(&T, &T) -> bool,
>(
    num: spec_fn(T) -> real,
    eval: E,
    less: L,
    zero: T,
    around: Seq<[T; 2]>,
    points: Seq<[T; 2]>,
)
    requires
        is_oriented(eval, less, zero, around, points),
        forall|area: T| #[trigger]
            computes_area(eval, around, area) ==> num(area) == area_of(num, around),
        forall|a: &T, b: &T, found: bool| #[trigger]
            call_ensures(less, (a, b), found) ==> found == (num(*a) < num(*b)),
        num(zero) == 0real,
    ensures
        area_of(num, points) >= 0real,
{
    lemma_reversed_area(num, around);
}

/// The points in the opposite order.
fn turned_round<T: Copy>(points: &Vec<[T; 2]>) -> (back: Vec<[T; 2]>)
    ensures
        back@ == points@.reverse(),
{
    let mut back: Vec<[T; 2]> = Vec::new();
    let mut i: usize = points.len();
    while i > 0
        invariant
            i <= points@.len(),
            back@.len() == points@.len() - i,
            forall|j: int| 0 <= j < back@.len() ==> #[trigger] back@[j] == points@.reverse()[j],
        decreases i,
    {
        i = i - 1;
        back.push(points[i]);
    }
    assert(back@ =~= points@.reverse());
    back
}

proof fn lemma_edges_plain<T>(view: SketchView<T>, keys: Seq<u64>)
    ensures
        no_self_edges(edges_under(view, keys)),
        forall|i: int|
            0 <= i < edges_under(view, keys).len() ==> nodes_under(view, keys).contains(
                (#[trigger] edges_under(view, keys)[i]).0,
            ) && nodes_under(view, keys).contains(edges_under(view, keys)[i].1),
    decreases keys.len(),
{
    if keys.len() > 0 {
        let rest = keys.drop_last();
        lemma_edges_plain(view, rest);
        let nodes = nodes_under(view, rest);
        let more = nodes_under(view, keys);
        assert forall|n: u64| nodes.contains(n) implies #[trigger] more.contains(n) by {
            let k = choose|k: int| 0 <= k < nodes.len() && nodes[k] == n;
            assert(more[k] == n);
        }
        let edges = edges_under(view, keys);
        assert forall|i: int| 0 <= i < edges.len() implies more.contains((#[trigger] edges[i]).0)
            && more.contains(edges[i].1) by {
            if i < edges_under(view, rest).len() {
                assert(edges[i] == edges_under(view, rest)[i]);
                assert(nodes.contains(edges[i].0) && nodes.contains(edges[i].1));
            } else {
                assert(more[nodes.len() as int] == edges[i].0);
                assert(more[nodes.len() as int + 1] == edges[i].1);
            }
        }
    }
}

/// A node with an edge is the node of a line's end.
proof fn lemma_node_listed<T>(view: SketchView<T>, node: u64)
    requires
        incident(line_edges(view), node).len() > 0,
    ensures
        line_nodes(view).contains(node),
{
    let edges = line_edges(view);
    let here = |e: (u64, u64)| touches(e, node);
    lemma_edges_plain(view, slot_order(view.entities.dom()));
    let e = incident(edges, node)[0];
    edges.lemma_filter_pred(here, 0);
    assert(edges.filter(here).contains(e));
    edges.lemma_filter_contains_rev(here, e);
    let i = choose|i: int| 0 <= i < edges.len() && edges[i] == e;
    assert(line_nodes(view).contains(edges[i].0) && line_nodes(view).contains(edges[i].1));
}

/// Coincidences join points that exist.
proof fn lemma_coincidences_exist<T>(view: SketchView<T>, keys: Seq<u64>)
    requires
        view.joined(),
        forall|i: int| 0 <= i < keys.len() ==> view.constraints.contains_key(#[trigger] keys[i]),
    ensures
        forall|i: int|
            0 <= i < coincidences(view, keys).len() ==> view.points.contains_key(
                (#[trigger] coincidences(view, keys)[i]).0,
            ) && view.points.contains_key(coincidences(view, keys)[i].1),
    decreases keys.len(),
{
    if keys.len() > 0 {
        let rest = keys.drop_last();
        assert forall|i: int| 0 <= i < rest.len() implies view.constraints.contains_key(
            #[trigger] rest[i],
        ) by {
            assert(rest[i] == keys[i]);
        }
        lemma_coincidences_exist(view, rest);
        assert(view.constraints.contains_key(keys[keys.len() - 1]));
        let pairs = coincidences(view, keys);
        assert forall|i: int| 0 <= i < pairs.len() implies view.points.contains_key(
            (#[trigger] pairs[i]).0,
        ) && view.points.contains_key(pairs[i].1) by {
            if i < coincidences(view, rest).len() {
                assert(pairs[i] == coincidences(view, rest)[i]);
            }
        }
    }
}

/// The node of an existing point is an existing point.
proof fn lemma_node_exists<T>(view: SketchView<T>, point: PointId)
    requires
        view.joined(),
        in_slot_order(slot_order(view.constraints.dom()), view.constraints.dom()),
        view.points.contains_key(point.raw),
    ensures
        view.points.contains_key(node_of(view, point)),
{
    let keys = slot_order(view.constraints.dom());
    assert forall|i: int| 0 <= i < keys.len() implies view.constraints.contains_key(
        #[trigger] keys[i],
    ) by {
        assert(keys.contains(keys[i]));
        assert(view.constraints.dom().contains(keys[i]));
    }
    lemma_coincidences_exist(view, keys);
    lemma_representative_origin(all_coincidences(view), point.raw);
}

/// The nodes of lines whose ends exist are points that exist.
proof fn lemma_nodes_exist<T>(view: SketchView<T>, keys: Seq<u64>)
    requires
        view.linked(),
        in_slot_order(slot_order(view.constraints.dom()), view.constraints.dom()),
        forall|i: int| 0 <= i < keys.len() ==> view.entities.contains_key(#[trigger] keys[i]),
    ensures
        forall|i: int|
            0 <= i < nodes_under(view, keys).len() ==> view.points.contains_key(
                #[trigger] nodes_under(view, keys)[i],
            ),
    decreases keys.len(),
{
    if keys.len() > 0 {
        let rest = keys.drop_last();
        assert forall|i: int| 0 <= i < rest.len() implies view.entities.contains_key(
            #[trigger] rest[i],
        ) by {
            assert(rest[i] == keys[i]);
        }
        lemma_nodes_exist(view, rest);
        assert(view.entities.contains_key(keys[keys.len() - 1]));
        let some = nodes_under(view, rest);
        let all = nodes_under(view, keys);
        let entity = view.entities[keys.last()];
        if let SketchEntity::Line { p1, p2 } = entity {
            assert(attached(entity, p1) && attached(entity, p2));
            lemma_node_exists(view, p1);
            lemma_node_exists(view, p2);
        }
        assert forall|i: int| 0 <= i < all.len() implies view.points.contains_key(
            #[trigger] all[i],
        ) by {
            if i < some.len() {
                assert(all[i] == some[i]);
            }
        }
    }
}

/// Where all that points, entities and constraints between points name exists,
/// every profile has a place.
pub proof fn lemma_linked_traceable<T>(view: SketchView<T>)
    requires
        view.linked(),
        in_slot_order(slot_order(view.constraints.dom()), view.constraints.dom()),
        in_slot_order(slot_order(view.entities.dom()), view.entities.dom()),
    ensures
        traceable(view),
{
    let keys = slot_order(view.entities.dom());
    assert forall|i: int| 0 <= i < keys.len() implies view.entities.contains_key(
        #[trigger] keys[i],
    ) by {
        assert(keys.contains(keys[i]));
        assert(view.entities.dom().contains(keys[i]));
    }
    lemma_nodes_exist(view, keys);
    assert forall|e: u64| #[trigger] view.entities.contains_key(e) implies (
    view.entities[e] matches SketchEntity::Circle { center, radius } ==> view.has_place(center)
        && radius.index < view.vars.len()) by {
        if let SketchEntity::Circle { center, .. } = view.entities[e] {
            assert(attached(view.entities[e], center));
            assert(view.has_place(PointId { raw: center.raw }));
            assert(view.has_radius(EntityId { raw: e }));
        }
    }
    assert forall|ring: Seq<u64>, k: int|
        #![trigger is_ring(line_edges(view), ring), ring[k]]
        is_ring(line_edges(view), ring) && 0 <= k < ring.len() implies view.has_place(
        PointId { raw: ring[k] },
    ) by {
        let node = ring[k];
        assert(incident(line_edges(view), ring[k]).len() == 2);
        lemma_node_listed(view, node);
        let t = choose|t: int| 0 <= t < line_nodes(view).len() && line_nodes(view)[t] == node;
        assert(view.points.contains_key(line_nodes(view)[t]));
    }
}

impl<T: Copy> Sketch<T> {
    /// Every profile of a linked sketch has a place.
    pub proof fn lemma_traceable(&self)
        requires
            self.wf(),
            self@.linked(),
        ensures
            traceable(self@),
    {
        self.lemma_orders();
        lemma_linked_traceable(self@);
    }

    /// The classes of points that coincidences join.
    fn classes(&self) -> (classes: UnionFind)
        requires
            self.wf(),
        ensures
            classes.wf(),
            classes.pairs() == all_coincidences(self@),
            in_slot_order(slot_order(self@.constraints.dom()), self@.constraints.dom()),
    {
        let list = self.constraints();
        let ghost keys = slot_order(self@.constraints.dom());
        let mut classes = UnionFind::new();
        let mut i: usize = 0;
        while i < list.len()
            invariant
                keys == slot_order(self@.constraints.dom()),
                list@.len() == keys.len(),
                forall|j: int|
                    0 <= j < list@.len() ==> (#[trigger] list@[j]).1 == self@.constraints[keys[j]],
                i <= list@.len(),
                classes.wf(),
                classes.pairs() == coincidences(self@, keys.take(i as int)),
            decreases list@.len() - i,
        {
            assert(keys.take(i + 1).drop_last() =~= keys.take(i as int));
            if let Constraint::Coincident(p, q) = list[i].1 {
                classes.union(p.raw, q.raw);
            }
            i = i + 1;
        }
        assert(keys.take(i as int) =~= keys);
        classes
    }

    /// The graph of all lines, and the nodes of their ends.
    fn line_graph(&self, classes: &mut UnionFind) -> (found: (Graph, Vec<u64>))
        requires
            self.wf(),
            old(classes).wf(),
            old(classes).pairs() == all_coincidences(self@),
        ensures
            found.0.wf(),
            found.0.edges() == line_edges(self@),
            found.1@ == line_nodes(self@),
    {
        let list = self.entities();
        let ghost keys = slot_order(self@.entities.dom());
        let mut graph = Graph::new();
        let mut nodes: Vec<u64> = Vec::new();
        let mut i: usize = 0;
        while i < list.len()
            invariant
                keys == slot_order(self@.entities.dom()),
                in_slot_order(keys, self@.entities.dom()),
                list@.len() == keys.len(),
                forall|j: int|
                    0 <= j < list@.len() ==> (#[trigger] list@[j]).1 == self@.entities[keys[j]],
                i <= list@.len(),
                classes.wf(),
                classes.pairs() == all_coincidences(self@),
                graph.wf(),
                graph.edges() == edges_under(self@, keys.take(i as int)),
                nodes@ == nodes_under(self@, keys.take(i as int)),
            decreases list@.len() - i,
        {
            assert(keys.take(i + 1).drop_last() =~= keys.take(i as int));
            assert(keys.contains(keys[i as int]));
            assert(self@.entities.contains_key(keys[i as int]));
            if let SketchEntity::Line { p1, p2 } = list[i].1 {
                let a = classes.find(p1.raw);
                let b = classes.find(p2.raw);
                if a != b {
                    graph.add_edge(a, b);
                }
                nodes.push(a);
                nodes.push(b);
            }
            i = i + 1;
        }
        assert(keys.take(i as int) =~= keys);
        (graph, nodes)
    }
}

/// The views of the rings.
pub open spec fn ring_views(rings: Seq<Vec<u64>>) -> Seq<Seq<u64>> {
    rings.map_values(|ring: Vec<u64>| ring@)
}

/// All rings of a graph, in the order in which the listed nodes lie on them.
pub fn find_rings(graph: &Graph, nodes: &Vec<u64>) -> (rings: Vec<Vec<u64>>)
    requires
        graph.wf(),
        forall|n: u64| #[trigger] graph.has_node(n) ==> nodes@.contains(n),
    ensures
        exists|at: Seq<int>| #[trigger]
            are_all_rings(graph.edges(), nodes@, ring_views(rings@), at),
{
    broadcast use vstd::std_specs::hash::group_hash_axioms;

    let ghost edges = graph.edges();
    let ghost mut at: Seq<int> = Seq::empty();
    let mut rings: Vec<Vec<u64>> = Vec::new();
    let mut visited: HashMap<u64, bool> = HashMap::new();
    let mut s: usize = 0;
    proof {
        graph.lemma_no_self_edges();
    }
    while s < nodes.len()
        invariant
            graph.wf(),
            edges == graph.edges(),
            no_self_edges(edges),
            s <= nodes@.len(),
            is_closed(edges, visited@.dom()),
            at.len() == rings@.len(),
            forall|t: int|
                0 <= t < s && graph.has_node(nodes@[t]) ==> visited@.contains_key(
                    #[trigger] nodes@[t],
                ),
            forall|n: u64| #[trigger]
                visited@.contains_key(n) ==> exists|t: int|
                    0 <= t < s && in_component(edges, #[trigger] nodes@[t], n),
            forall|i: int|
                0 <= i < rings@.len() ==> starts_at(edges, nodes@, (#[trigger] rings@[i])@, at[i]),
            forall|i: int| 0 <= i < at.len() ==> #[trigger] at[i] < s,
            forall|i: int, j: int| 0 <= i < j < at.len() ==> #[trigger] at[i] < #[trigger] at[j],
            forall|ring: Seq<u64>, t: int|
                0 <= t < s && #[trigger] is_ring(edges, ring) && ring.contains(
                    #[trigger] nodes@[t],
                ) ==> has_ring_with(rings@, nodes@[t]),
        decreases nodes@.len() - s,
    {
        let start = nodes[s];
        let ghost seen = visited@;
        let ghost found = rings@;
        let known = visited.contains_key(&start);
        if !known && graph.contains(start) {
            proof {
                assert forall|n: u64| #[trigger] in_component(
                    edges,
                    start,
                    n,
                ) implies !visited@.contains_key(n) by {
                    lemma_closed_backwards(edges, visited@.dom(), start, n);
                }
            }
            let traced = trace_cycle(start, graph, &mut visited);
            proof {
                lemma_marks_stay_closed(edges, start, seen, visited@);
                assert forall|n: u64| #[trigger] visited@.contains_key(n) implies exists|t: int|
                    0 <= t < s + 1 && in_component(edges, #[trigger] nodes@[t], n) by {
                    if seen.contains_key(n) {
                        let t = choose|t: int|
                            0 <= t < s && in_component(edges, #[trigger] nodes@[t], n);
                        assert(in_component(edges, nodes@[t], n));
                    } else {
                        assert(in_component(edges, nodes@[s as int], n));
                    }
                }
                assert(in_component(edges, start, start));
            }
            if let Some(ring) = traced {
                proof {
                    assert forall|t: int| 0 <= t < s implies !ring@.contains(
                        #[trigger] nodes@[t],
                    ) by {
                        if ring@.contains(nodes@[t]) {
                            let i = choose|i: int| 0 <= i < ring@.len() && ring@[i] == nodes@[t];
                            assert(incident(edges, ring@[i]).len() == 2);
                            assert(graph.has_node(nodes@[t]));
                            assert(seen.dom().contains(ring@[i]));
                            lemma_ring_connected(edges, ring@, seen.dom(), i, 0);
                            assert(seen.contains_key(start));
                        }
                    }
                    assert(starts_at(edges, nodes@, ring@, s as int));
                    at = at.push(s as int);
                    assert(ring@.contains(start)) by {
                        assert(ring@[0] == start);
                    }
                }
                rings.push(ring);
                assert(rings@[found.len() as int]@ == ring@);
                assert(has_ring_with(rings@, start));
            }
        }
        proof {
            assert forall|n: u64| has_ring_with(found, n) implies #[trigger] has_ring_with(
                rings@,
                n,
            ) by {
                let i = choose|i: int| 0 <= i < found.len() && (#[trigger] found[i])@.contains(n);
                assert(rings@[i]@.contains(n));
            }
            assert forall|ring: Seq<u64>, t: int|
                0 <= t < s + 1 && #[trigger] is_ring(edges, ring) && ring.contains(
                    #[trigger] nodes@[t],
                ) implies has_ring_with(rings@, nodes@[t]) by {
                if t < s {
                    assert(has_ring_with(found, nodes@[t]));
                } else {
                    let i = choose|i: int| 0 <= i < ring.len() && ring[i] == start;
                    assert(incident(edges, ring[i]).len() == 2);
                    assert(graph.has_node(start));
                    if known {
                        lemma_seen_ring(edges, nodes@, s as int, ring, start, found);
                    }
                }
            }
            assert forall|i: int| 0 <= i < rings@.len() implies starts_at(
                edges,
                nodes@,
                (#[trigger] rings@[i])@,
                at[i],
            ) by {
                if i < found.len() {
                    assert(rings@[i] == found[i]);
                }
            }
        }
        s = s + 1;
    }
    proof {
        let views = ring_views(rings@);
        assert forall|ring: Seq<u64>| #[trigger] is_ring(edges, ring) implies exists|i: int|
            0 <= i < views.len() && (#[trigger] views[i]).contains(ring[0]) by {
            assert(incident(edges, ring[0]).len() == 2);
            assert(graph.has_node(ring[0]));
            assert(nodes@.contains(ring[0]));
            let t = choose|t: int| 0 <= t < nodes@.len() && nodes@[t] == ring[0];
            assert(ring.contains(nodes@[t]));
            assert(has_ring_with(rings@, nodes@[t]));
            let i = choose|i: int|
                0 <= i < rings@.len() && (#[trigger] rings@[i])@.contains(ring[0]);
            assert(views[i] == rings@[i]@);
        }
        assert forall|i: int| 0 <= i < views.len() implies starts_at(
            edges,
            nodes@,
            #[trigger] views[i],
            at[i],
        ) by {
            assert(views[i] == rings@[i]@);
        }
        assert(are_all_rings(edges, nodes@, views, at));
    }
    rings
}

/// One of the rings holds the node.
spec fn has_ring_with(rings: Seq<Vec<u64>>, node: u64) -> bool {
    exists|i: int| 0 <= i < rings.len() && (#[trigger] rings[i])@.contains(node)
}

/// If a node on a ring can be reached from an earlier node, then that node
/// lies on the ring too, and the ring that was found there holds this node.
proof fn lemma_seen_ring(
    edges: Seq<(u64, u64)>,
    nodes: Seq<u64>,
    s: int,
    ring: Seq<u64>,
    start: u64,
    found: Seq<Vec<u64>>,
)
    requires
        no_self_edges(edges),
        is_ring(edges, ring),
        ring.contains(start),
        0 <= s < nodes.len(),
        exists|t: int| 0 <= t < s && in_component(edges, #[trigger] nodes[t], start),
        forall|other: Seq<u64>, t: int|
            0 <= t < s && #[trigger] is_ring(edges, other) && other.contains(
                #[trigger] nodes[t],
            ) ==> has_ring_with(found, nodes[t]),
        forall|i: int| 0 <= i < found.len() ==> is_ring(edges, (#[trigger] found[i])@),
    ensures
        has_ring_with(found, start),
{
    let t = choose|t: int| 0 <= t < s && in_component(edges, #[trigger] nodes[t], start);
    lemma_ring_closed(edges, ring);
    assert(ring.to_set().contains(start));
    if !ring.to_set().contains(nodes[t]) {
        lemma_closed_backwards(edges, ring.to_set(), nodes[t], start);
    }
    assert(ring.contains(nodes[t]));
    assert(has_ring_with(found, nodes[t]));
    let i = choose|i: int| 0 <= i < found.len() && (#[trigger] found[i])@.contains(nodes[t]);
    lemma_ring_closed(edges, found[i]@);
    assert(found[i]@.to_set().contains(nodes[t]));
    assert(found[i]@.to_set().contains(start));
    assert(found[i]@.contains(start));
}

impl<T: Copy> Sketch<T> {
    /// The profiles of all circles.
    fn round_profiles(&self) -> (profiles: Vec<Profile<T>>)
        requires
            self.wf(),
            traceable(self@),
        ensures
            profiles@ == round_keys(self@).map_values(|k: u64| circle_at(self@, k)),
    {
        let list = self.entities();
        let ghost keys = slot_order(self@.entities.dom());
        let ghost wanted = |k: u64| self@.entities[k] is Circle;
        let ghost make = |k: u64| circle_at(self@, k);
        let mut profiles: Vec<Profile<T>> = Vec::new();
        let mut i: usize = 0;
        proof {
            reveal(Seq::filter);
        }
        while i < list.len()
            invariant
                self.wf(),
                traceable(self@),
                keys == slot_order(self@.entities.dom()),
                in_slot_order(keys, self@.entities.dom()),
                list@.len() == keys.len(),
                forall|j: int|
                    0 <= j < list@.len() ==> (#[trigger] list@[j]).1 == self@.entities[keys[j]],
                i <= list@.len(),
                wanted == (|k: u64| self@.entities[k] is Circle),
                make == (|k: u64| circle_at(self@, k)),
                profiles@ == keys.take(i as int).filter(wanted).map_values(make),
            decreases list@.len() - i,
        {
            let ghost shorter = keys.take(i as int);
            let ghost key = keys[i as int];
            assert(keys.contains(key));
            assert(self@.entities.contains_key(key));
            if let SketchEntity::Circle { center, radius } = list[i].1 {
                let r = self.var(radius);
                profiles.push(Profile::Circle { center: self.point_pos(center), radius: r });
            }
            proof {
                reveal(Seq::filter);
                assert(keys.take(i + 1).drop_last() =~= shorter);
                assert(keys.take(i + 1).last() == key);
                if wanted(key) {
                    assert(keys.take(i + 1).filter(wanted) == shorter.filter(wanted).push(key));
                    assert(shorter.filter(wanted).push(key).map_values(make) =~= shorter.filter(
                        wanted,
                    ).map_values(make).push(make(key)));
                }
            }
            i = i + 1;
        }
        assert(keys.take(i as int) =~= keys);
        profiles
    }

    /// All closed profiles: first the circles, then the rings of lines.
    pub fn find_profiles<E: Fn(&Expr<T>, &Vec<T>) -> T, L: Fn(&T, &T) -> bool>(
        &self,
        eval: &E,
        less: &L,
    ) -> (profiles: Vec<Profile<T>>)
        requires
            self.wf(),
            traceable(self@),
            evaluates_all(*eval),
            compares_all(*less),
        ensures
            found_profiles(self@, *eval, *less, profiles@),
    {
        let zero = nothing(eval);
        assert(is_zero(*eval, zero));
        let mut profiles = self.round_profiles();
        let ghost circles = round_keys(self@);
        let mut classes = self.classes();
        let (graph, nodes) = self.line_graph(&mut classes);
        proof {
            assert forall|n: u64| #[trigger] graph.has_node(n) implies nodes@.contains(n) by {
                lemma_node_listed(self@, n);
            }
        }
        let rings = find_rings(&graph, &nodes);
        let ghost views = ring_views(rings@);
        let ghost at = choose|at: Seq<int>| #[trigger]
            are_all_rings(graph.edges(), nodes@, views, at);
        proof {
            assert forall|i: int, k: int|
                0 <= i < rings@.len() && 0 <= k < rings@[i]@.len() implies self@.has_place(
                PointId { raw: #[trigger] rings@[i]@[k] },
            ) by {
                assert(views[i] == rings@[i]@);
                assert(starts_at(graph.edges(), nodes@, views[i], at[i]));
                assert(is_ring(line_edges(self@), views[i]));
                assert(self@.has_place(PointId { raw: views[i][k] }));
            }
        }
        let ghost round = profiles@;
        self.add_polygons(&rings, eval, less, zero, &mut profiles);
        proof {
            let n = circles.len() as int;
            assert forall|j: int| 0 <= j < n implies #[trigger] profiles@[j] == circle_at(
                self@,
                circles[j],
            ) by {
                assert(round[j] == circle_at(self@, circles[j]));
            }
            assert forall|j: int| 0 <= j < views.len() implies (
            #[trigger] profiles@[n + j] matches Profile::Polygon(points) && is_oriented(
                *eval,
                *less,
                zero,
                places(self@, views[j]),
                points@,
            )) by {
                assert(views[j] == rings@[j]@);
            }
        }
        assert(are_profiles(self@, *eval, *less, zero, circles, views, profiles@));
        assert(are_all_rings(line_edges(self@), line_nodes(self@), views, at));
        profiles
    }

    /// Adds the polygons of all rings to the profiles.
    fn add_polygons<E: Fn(&Expr<T>, &Vec<T>) -> T, L: Fn(&T, &T) -> bool>(
        &self,
        rings: &Vec<Vec<u64>>,
        eval: &E,
        less: &L,
        zero: T,
        profiles: &mut Vec<Profile<T>>,
    )
        requires
            self.wf(),
            evaluates_all(*eval),
            compares_all(*less),
            forall|i: int, k: int|
                0 <= i < rings@.len() && 0 <= k < rings@[i]@.len() ==> self@.has_place(
                    PointId { raw: #[trigger] rings@[i]@[k] },
                ),
        ensures
            final(profiles)@.len() == old(profiles)@.len() + rings@.len(),
            forall|j: int|
                0 <= j < old(profiles)@.len() ==> #[trigger] final(profiles)@[j] == old(
                    profiles,
                )@[j],
            forall|j: int|
                0 <= j < rings@.len() ==> (#[trigger] final(profiles)@[old(profiles)@.len()
                    + j] matches Profile::Polygon(points) && is_oriented(
                    *eval,
                    *less,
                    zero,
                    places(self@, rings@[j]@),
                    points@,
                )),
    {
        let ghost n = profiles@.len() as int;
        let mut i: usize = 0;
        while i < rings.len()
            invariant
                self.wf(),
                evaluates_all(*eval),
                compares_all(*less),
                forall|i: int, k: int|
                    0 <= i < rings@.len() && 0 <= k < rings@[i]@.len() ==> self@.has_place(
                        PointId { raw: #[trigger] rings@[i]@[k] },
                    ),
                i <= rings@.len(),
                n == old(profiles)@.len(),
                profiles@.len() == n + i,
                forall|j: int| 0 <= j < n ==> #[trigger] profiles@[j] == old(profiles)@[j],
                forall|j: int|
                    0 <= j < i ==> (#[trigger] profiles@[n + j] matches Profile::Polygon(points)
                        && is_oriented(*eval, *less, zero, places(self@, rings@[j]@), points@)),
            decreases rings@.len() - i,
        {
            let ghost before = profiles@;
            let points = self.oriented_polygon(&rings[i], eval, less, zero);
            profiles.push(Profile::Polygon(points));
            proof {
                assert(profiles@[n + i] == Profile::Polygon(points));
                assert forall|j: int| 0 <= j < i + 1 implies (
                #[trigger] profiles@[n + j] matches Profile::Polygon(points) && is_oriented(
                    *eval,
                    *less,
                    zero,
                    places(self@, rings@[j]@),
                    points@,
                )) by {
                    if j < i {
                        assert(profiles@[n + j] == before[n + j]);
                    }
                }
            }
            i = i + 1;
        }
    }

    /// The polygon of a ring, counterclockwise.
    fn oriented_polygon<E: Fn(&Expr<T>, &Vec<T>) -> T, L: Fn(&T, &T) -> bool>(
        &self,
        ring: &Vec<u64>,
        eval: &E,
        less: &L,
        zero: T,
    ) -> (polygon: Vec<[T; 2]>)
        requires
            self.wf(),
            evaluates_all(*eval),
            compares_all(*less),
            forall|k: int|
                0 <= k < ring@.len() ==> self@.has_place(PointId { raw: #[trigger] ring@[k] }),
        ensures
            is_oriented(*eval, *less, zero, places(self@, ring@), polygon@),
    {
        let points = self.ring_points(ring);
        let area = signed_area(&points);
        let none: Vec<T> = Vec::new();
        assert(none@ =~= Seq::<T>::empty());
        let value = eval(&area, &none);
        assert(computes_area(*eval, points@, value));
        let negative = less(&value, &zero);
        if negative {
            turned_round(&points)
        } else {
            points
        }
    }

    /// The positions of the nodes of a ring.
    fn ring_points(&self, ring: &Vec<u64>) -> (points: Vec<[T; 2]>)
        requires
            self.wf(),
            forall|k: int|
                0 <= k < ring@.len() ==> self@.has_place(PointId { raw: #[trigger] ring@[k] }),
        ensures
            points@ == places(self@, ring@),
    {
        let mut points: Vec<[T; 2]> = Vec::new();
        let mut i: usize = 0;
        while i < ring.len()
            invariant
                self.wf(),
                forall|k: int|
                    0 <= k < ring@.len() ==> self@.has_place(PointId { raw: #[trigger] ring@[k] }),
                i <= ring@.len(),
                points@.len() == i,
                forall|k: int| 0 <= k < i ==> #[trigger] points@[k] == places(self@, ring@)[k],
            decreases ring@.len() - i,
        {
            points.push(self.point_pos(PointId { raw: ring[i] }));
            i = i + 1;
        }
        assert(points@ =~= places(self@, ring@));
        points
    }
}

/// Two rings that share a node and start at the first of their nodes are the
/// same.
proof fn lemma_starts_alike(
    edges: Seq<(u64, u64)>,
    nodes: Seq<u64>,
    ring: Seq<u64>,
    s: int,
    other: Seq<u64>,
    t: int,
)
    requires
        no_self_edges(edges),
        starts_at(edges, nodes, ring, s),
        starts_at(edges, nodes, other, t),
        other.contains(ring[0]),
    ensures
        s == t,
        ring == other,
{
    assert(ring.contains(ring[0]));
    assert(other.contains(other[0]));
    lemma_ring_shared(edges, other, ring, ring[0], other[0]);
    assert(!(t < s)) by {
        if t < s {
            assert(ring.contains(nodes[t]));
        }
    }
    assert(!(s < t)) by {
        if s < t {
            assert(other.contains(nodes[s]));
        }
    }
    lemma_ring_alike(edges, ring, other);
}

/// The rings are all rings of the graph.
#[verifier::opaque]
spec fn are_listed(
    edges: Seq<(u64, u64)>,
    nodes: Seq<u64>,
    rings: Seq<Seq<u64>>,
    at: Seq<int>,
) -> bool {
    are_all_rings(edges, nodes, rings, at)
}

proof fn lemma_listed_start(
    edges: Seq<(u64, u64)>,
    nodes: Seq<u64>,
    rings: Seq<Seq<u64>>,
    at: Seq<int>,
    i: int,
)
    requires
        are_listed(edges, nodes, rings, at),
        0 <= i < rings.len(),
    ensures
        starts_at(edges, nodes, rings[i], at[i]),
{
    reveal(are_listed);
}

proof fn lemma_listed_ring(
    edges: Seq<(u64, u64)>,
    nodes: Seq<u64>,
    rings: Seq<Seq<u64>>,
    at: Seq<int>,
    ring: Seq<u64>,
) -> (j: int)
    requires
        are_listed(edges, nodes, rings, at),
        is_ring(edges, ring),
    ensures
        0 <= j < rings.len(),
        rings[j].contains(ring[0]),
{
    reveal(are_listed);
    choose|j: int| 0 <= j < rings.len() && (#[trigger] rings[j]).contains(ring[0])
}

proof fn lemma_rings_matched(
    edges: Seq<(u64, u64)>,
    nodes: Seq<u64>,
    a: Seq<Seq<u64>>,
    at_a: Seq<int>,
    b: Seq<Seq<u64>>,
    at_b: Seq<int>,
    i: int,
) -> (j: int)
    requires
        no_self_edges(edges),
        are_listed(edges, nodes, a, at_a),
        are_listed(edges, nodes, b, at_b),
        0 <= i < a.len(),
    ensures
        0 <= j < b.len(),
        at_a[i] == at_b[j],
        a[i] == b[j],
{
    lemma_listed_start(edges, nodes, a, at_a, i);
    let j = lemma_listed_ring(edges, nodes, b, at_b, a[i]);
    lemma_listed_start(edges, nodes, b, at_b, j);
    lemma_starts_alike(edges, nodes, a[i], at_a[i], b[j], at_b[j]);
    j
}

proof fn lemma_listed_alike(
    edges: Seq<(u64, u64)>,
    nodes: Seq<u64>,
    a: Seq<Seq<u64>>,
    at_a: Seq<int>,
    b: Seq<Seq<u64>>,
    at_b: Seq<int>,
)
    requires
        no_self_edges(edges),
        are_listed(edges, nodes, a, at_a),
        are_listed(edges, nodes, b, at_b),
        a.len() == at_a.len(),
        b.len() == at_b.len(),
        forall|i: int, j: int| 0 <= i < j < at_a.len() ==> #[trigger] at_a[i] < #[trigger] at_a[j],
        forall|i: int, j: int| 0 <= i < j < at_b.len() ==> #[trigger] at_b[i] < #[trigger] at_b[j],
    ensures
        a == b,
{
    assert forall|i: int| 0 <= i < at_a.len() implies at_b.contains(#[trigger] at_a[i]) by {
        let j = lemma_rings_matched(edges, nodes, a, at_a, b, at_b, i);
        assert(at_b[j] == at_a[i]);
    }
    assert forall|i: int| 0 <= i < at_b.len() implies at_a.contains(#[trigger] at_b[i]) by {
        let j = lemma_rings_matched(edges, nodes, b, at_b, a, at_a, i);
        assert(at_a[j] == at_b[i]);
    }
    lemma_increasing_alike(at_a, at_b);
    assert forall|i: int| 0 <= i < a.len() implies a[i] == b[i] by {
        let j = lemma_rings_matched(edges, nodes, a, at_a, b, at_b, i);
        if i < j {
            assert(at_b[i] < at_b[j]);
        } else if j < i {
            assert(at_b[j] < at_b[i]);
        }
    }
    assert(a =~= b);
}

proof fn lemma_increasing_alike(a: Seq<int>, b: Seq<int>)
    requires
        forall|i: int, j: int| 0 <= i < j < a.len() ==> #[trigger] a[i] < #[trigger] a[j],
        forall|i: int, j: int| 0 <= i < j < b.len() ==> #[trigger] b[i] < #[trigger] b[j],
        forall|i: int| 0 <= i < a.len() ==> b.contains(#[trigger] a[i]),
        forall|i: int| 0 <= i < b.len() ==> a.contains(#[trigger] b[i]),
    ensures
        a == b,
    decreases a.len(),
{
    if a.len() == 0 {
        if b.len() > 0 {
            assert(a.contains(b[0]));
        }
        assert(a =~= b);
    } else {
        assert(b.contains(a[0]));
        assert(b.len() > 0);
        let (x, y) = (a.len() - 1, b.len() - 1);
        assert(b.contains(a[x]));
        assert(a.contains(b[y]));
        let i = choose|i: int| 0 <= i < a.len() && a[i] == b[y];
        let j = choose|j: int| 0 <= j < b.len() && b[j] == a[x];
        assert(a[x] == b[y]) by {
            if i < x {
                assert(a[i] < a[x]);
            }
            if j < y {
                assert(b[j] < b[y]);
            }
        }
        let (c, d) = (a.drop_last(), b.drop_last());
        assert forall|i: int| 0 <= i < c.len() implies d.contains(#[trigger] c[i]) by {
            assert(b.contains(a[i]));
            let k = choose|k: int| 0 <= k < b.len() && b[k] == a[i];
            assert(a[i] < a[x]);
            assert(d[k] == c[i]);
        }
        assert forall|i: int| 0 <= i < d.len() implies c.contains(#[trigger] d[i]) by {
            assert(a.contains(b[i]));
            let k = choose|k: int| 0 <= k < a.len() && a[k] == b[i];
            assert(b[i] < b[y]);
            assert(c[k] == d[i]);
        }
        lemma_increasing_alike(c, d);
        assert(a =~= c.push(a[x]));
        assert(b =~= d.push(b[y]));
    }
}

/// A graph has one list of rings.
pub proof fn lemma_all_rings_alike(
    edges: Seq<(u64, u64)>,
    nodes: Seq<u64>,
    a: Seq<Seq<u64>>,
    at_a: Seq<int>,
    b: Seq<Seq<u64>>,
    at_b: Seq<int>,
)
    requires
        no_self_edges(edges),
        are_all_rings(edges, nodes, a, at_a),
        are_all_rings(edges, nodes, b, at_b),
    ensures
        a == b,
{
    assert(are_listed(edges, nodes, a, at_a) && are_listed(edges, nodes, b, at_b)) by {
        reveal(are_listed);
    }
    lemma_listed_alike(edges, nodes, a, at_a, b, at_b);
}

/// The profiles are the same.
pub open spec fn same_profile<T>(a: Profile<T>, b: Profile<T>) -> bool {
    match a {
        Profile::Polygon(points) => b matches Profile::Polygon(others) && points@ == others@,
        Profile::Circle { .. } => a == b,
    }
}

/// A sketch has one list of profiles, if evaluating and comparing the same has
/// one result each time.
pub proof fn lemma_profiles_alike<T, E: Fn(&Expr<T>, &Vec<T>) -> T, L: Fn(&T, &T) -> bool>(
    view: SketchView<T>,
    eval: E,
    less: L,
    a: Seq<Profile<T>>,
    b: Seq<Profile<T>>,
)
    requires
        evaluates_alike(eval),
        compares_alike(less),
        found_profiles(view, eval, less, a),
        found_profiles(view, eval, less, b),
    ensures
        a.len() == b.len(),
        forall|i: int| 0 <= i < a.len() ==> same_profile(#[trigger] a[i], b[i]),
{
    let (za, ra, aa) = choose|zero: T, rings: Seq<Seq<u64>>, at: Seq<int>|
        {
            &&& #[trigger] is_zero(eval, zero)
            &&& #[trigger] are_all_rings(line_edges(view), line_nodes(view), rings, at)
            &&& are_profiles(view, eval, less, zero, round_keys(view), rings, a)
        };
    let (zb, rb, ab) = choose|zero: T, rings: Seq<Seq<u64>>, at: Seq<int>|
        {
            &&& #[trigger] is_zero(eval, zero)
            &&& #[trigger] are_all_rings(line_edges(view), line_nodes(view), rings, at)
            &&& are_profiles(view, eval, less, zero, round_keys(view), rings, b)
        };
    assert(za == zb);
    lemma_edges_plain(view, slot_order(view.entities.dom()));
    lemma_all_rings_alike(line_edges(view), line_nodes(view), ra, aa, rb, ab);
    lemma_same_profiles(view, eval, less, za, round_keys(view), ra, a, b);
}

proof fn lemma_same_profiles<T, E: Fn(&Expr<T>, &Vec<T>) -> T, L: Fn(&T, &T) -> bool>(
    view: SketchView<T>,
    eval: E,
    less: L,
    zero: T,
    circles: Seq<u64>,
    rings: Seq<Seq<u64>>,
    a: Seq<Profile<T>>,
    b: Seq<Profile<T>>,
)
    requires
        evaluates_alike(eval),
        compares_alike(less),
        are_profiles(view, eval, less, zero, circles, rings, a),
        are_profiles(view, eval, less, zero, circles, rings, b),
    ensures
        a.len() == b.len(),
        forall|i: int| 0 <= i < a.len() ==> same_profile(#[trigger] a[i], b[i]),
{
    let n = circles.len() as int;
    assert forall|i: int| 0 <= i < a.len() implies same_profile(#[trigger] a[i], b[i]) by {
        if i >= n {
            let k = i - n;
            assert(a[n + k] == a[i] && b[n + k] == b[i]);
            if let (Profile::Polygon(p), Profile::Polygon(q)) = (a[n + k], b[n + k]) {
                lemma_oriented_alike(eval, less, zero, places(view, rings[k]), p@, q@);
            }
        }
    }
}

proof fn lemma_oriented_alike<T, E: Fn(&Expr<T>, &Vec<T>) -> T, L: Fn(&T, &T) -> bool>(
    eval: E,
    less: L,
    zero: T,
    around: Seq<[T; 2]>,
    a: Seq<[T; 2]>,
    b: Seq<[T; 2]>,
)
    requires
        evaluates_alike(eval),
        compares_alike(less),
        is_oriented(eval, less, zero, around, a),
        is_oriented(eval, less, zero, around, b),
    ensures
        a == b,
{
    let (x, p) = choose|area: T, negative: bool| #[trigger]
        call_ensures(less, (&area, &zero), negative) && computes_area(eval, around, area) && a
            == (if negative {
            around.reverse()
        } else {
            around
        });
    let (y, q) = choose|area: T, negative: bool| #[trigger]
        call_ensures(less, (&area, &zero), negative) && computes_area(eval, around, area) && b
            == (if negative {
            around.reverse()
        } else {
            around
        });
    assert(x == y);
    assert(p == q);
}

} // verus!
