//! Laws of the closed profiles of a sketch.
use vstd::prelude::*;

use crate::arith::{computes, is_zero};
use crate::constraint::Constraint;
use crate::expr::{Expr, Reading};
use crate::ids::PointId;
use crate::laws::history::lemma_filter_places;
use crate::laws::reals::{lemma_apart, lemma_round};
use crate::profiles::{
    Profile, all_coincidences, are_all_rings, are_profiles, area_of, coincidences, computes_area,
    edges_under, found_profiles, is_oriented, lemma_reversed_area, line_edges, line_nodes, node_of,
    nodes_under, places, round_keys, shoelace, shoelace_sum, starts_at,
};
use crate::rings::{adjacent, after, before, far_end, incident, is_ring, joined, touches};
use crate::sketch::{Sketch, SketchEntity, SketchView};
use crate::slots::{lemma_slot_order_distinct, slot_index, slot_order};
use crate::solver::{exact, reading};
use crate::union_find::{lemma_merged_is_finest, lemma_pairs_are_merged, lemma_representative_is_own};

verus! {

/// A coincidence of the sketch names both points.
pub open spec fn named_together<T>(view: SketchView<T>, a: u64, b: u64) -> bool {
    exists|k: u64| #[trigger]
        view.constraints.contains_key(k) && (view.constraints[k] matches Constraint::Coincident(
            p,
            q,
        ) && ((p.raw == a && q.raw == b) || (p.raw == b && q.raw == a)))
}

/// A coincidence names a point of the chain and the next one together.
pub open spec fn is_link<T>(view: SketchView<T>, chain: Seq<u64>, i: int) -> bool {
    named_together(view, chain[i], chain[i + 1])
}

/// A chain of points leads from one to the other, in which a coincidence names
/// each two neighbours together.
pub open spec fn coincide<T>(view: SketchView<T>, a: u64, b: u64) -> bool {
    exists|chain: Seq<u64>| #[trigger] is_chain(view, chain, a, b)
}

/// The chain leads from one point to the other.
pub open spec fn is_chain<T>(view: SketchView<T>, chain: Seq<u64>, a: u64, b: u64) -> bool {
    &&& chain.len() >= 1
    &&& chain[0] == a
    &&& chain[chain.len() - 1] == b
    &&& forall|i: int| 0 <= i < chain.len() - 1 ==> #[trigger] is_link(view, chain, i)
}

proof fn lemma_pair_listed<T>(view: SketchView<T>, keys: Seq<u64>, j: int, p: PointId, q: PointId)
    requires
        0 <= j < keys.len(),
        view.constraints[keys[j]] == Constraint::<T>::Coincident(p, q),
    ensures
        coincidences(view, keys).contains((p.raw, q.raw)),
    decreases keys.len(),
{
    let shorter = keys.drop_last();
    let rest = coincidences(view, shorter);
    let all = coincidences(view, keys);
    if j < keys.len() - 1 {
        lemma_pair_listed(view, shorter, j, p, q);
        let i = choose|i: int| 0 <= i < rest.len() && rest[i] == (p.raw, q.raw);
        assert(all[i] == (p.raw, q.raw));
    } else {
        assert(all[rest.len() as int] == (p.raw, q.raw));
    }
}

proof fn lemma_pair_origin<T>(view: SketchView<T>, keys: Seq<u64>, i: int) -> (j: int)
    requires
        0 <= i < coincidences(view, keys).len(),
    ensures
        0 <= j < keys.len(),
        view.constraints[keys[j]] matches Constraint::Coincident(p, q) && coincidences(
            view,
            keys,
        )[i] == (p.raw, q.raw),
    decreases keys.len(),
{
    let shorter = keys.drop_last();
    let rest = coincidences(view, shorter);
    if i < rest.len() {
        lemma_pair_origin(view, shorter, i)
    } else {
        keys.len() - 1
    }
}

proof fn lemma_together<T: Copy>(sketch: Sketch<T>, a: u64, b: u64)
    requires
        sketch.wf(),
        named_together(sketch@, a, b),
    ensures
        node_of(sketch@, PointId { raw: a }) == node_of(sketch@, PointId { raw: b }),
{
    let view = sketch@;
    let keys = slot_order(view.constraints.dom());
    let pairs = all_coincidences(view);
    sketch.lemma_orders();
    let k = choose|k: u64| #[trigger]
        view.constraints.contains_key(k) && (view.constraints[k] matches Constraint::Coincident(
            p,
            q,
        ) && ((p.raw == a && q.raw == b) || (p.raw == b && q.raw == a)));
    if let Constraint::Coincident(p, q) = view.constraints[k] {
        assert(view.constraints.dom().contains(k));
        assert(keys.contains(k));
        let j = choose|j: int| 0 <= j < keys.len() && keys[j] == k;
        lemma_pair_listed(view, keys, j, p, q);
        let i = choose|i: int| 0 <= i < pairs.len() && pairs[i] == (p.raw, q.raw);
        lemma_pairs_are_merged(pairs, i);
    }
}

proof fn lemma_chain_joins<T: Copy>(sketch: Sketch<T>, chain: Seq<u64>, a: u64, b: u64)
    requires
        sketch.wf(),
        is_chain(sketch@, chain, a, b),
    ensures
        node_of(sketch@, PointId { raw: a }) == node_of(sketch@, PointId { raw: b }),
    decreases chain.len(),
{
    if chain.len() > 1 {
        let shorter = chain.drop_last();
        let c = shorter[shorter.len() - 1];
        assert forall|i: int| 0 <= i < shorter.len() - 1 implies #[trigger] is_link(
            sketch@,
            shorter,
            i,
        ) by {
            assert(is_link(sketch@, chain, i));
        }
        lemma_chain_joins(sketch, shorter, a, c);
        assert(is_link(sketch@, chain, chain.len() - 2));
        lemma_together(sketch, c, b);
    }
}

proof fn lemma_chain_longer<T>(view: SketchView<T>, a: u64, b: u64, c: u64)
    requires
        coincide(view, a, b),
        named_together(view, b, c),
    ensures
        coincide(view, a, c),
{
    let chain = choose|chain: Seq<u64>| #[trigger] is_chain(view, chain, a, b);
    let longer = chain.push(c);
    assert forall|i: int| 0 <= i < longer.len() - 1 implies #[trigger] is_link(view, longer, i) by {
        if i < chain.len() - 1 {
            assert(is_link(view, chain, i));
        }
    }
    assert(is_chain(view, longer, a, c));
}

/// Two points are one node exactly when they are the same, or a chain of
/// coincidences joins them. No other constraint joins points.
pub proof fn lemma_nodes_are_coincident_points<T: Copy>(sketch: Sketch<T>, a: PointId, b: PointId)
    requires
        sketch.wf(),
    ensures
        node_of(sketch@, a) == node_of(sketch@, b) <==> coincide(sketch@, a.raw, b.raw),
{
    let view = sketch@;
    let pairs = all_coincidences(view);
    let keys = slot_order(view.constraints.dom());
    sketch.lemma_orders();
    if coincide(view, a.raw, b.raw) {
        let chain = choose|chain: Seq<u64>| #[trigger] is_chain(view, chain, a.raw, b.raw);
        lemma_chain_joins(sketch, chain, a.raw, b.raw);
    }
    if node_of(view, a) == node_of(view, b) {
        let class = |x: u64|
            if coincide(view, a.raw, x) {
                1int
            } else {
                0int
            };
        assert forall|i: int| 0 <= i < pairs.len() implies class((#[trigger] pairs[i]).0) == class(
            pairs[i].1,
        ) by {
            let j = lemma_pair_origin(view, keys, i);
            let k = keys[j];
            assert(keys.contains(k));
            assert(view.constraints.dom().contains(k));
            assert(view.constraints.contains_key(k));
            let (x, y) = pairs[i];
            assert(named_together(view, x, y));
            assert(named_together(view, y, x));
            if coincide(view, a.raw, x) {
                lemma_chain_longer(view, a.raw, x, y);
            }
            if coincide(view, a.raw, y) {
                lemma_chain_longer(view, a.raw, y, x);
            }
        }
        lemma_merged_is_finest(pairs, class, a.raw, b.raw);
        assert(is_chain(view, seq![a.raw], a.raw, a.raw));
        assert(class(a.raw) == 1);
    }
}

/// Where a point of the sketch is.
pub open spec fn place_of_point<T>(view: SketchView<T>, p: u64) -> [T; 2] {
    [view.vars[view.points[p].x.index as int], view.vars[view.points[p].y.index as int]]
}

/// A line of the sketch joins the nodes of two points.
pub open spec fn line_joins<T>(view: SketchView<T>, e: u64, a: u64, b: u64) -> bool {
    &&& view.entities.contains_key(e)
    &&& view.entities[e] matches SketchEntity::Line { p1, p2 } && ((coincide(view, p1.raw, a)
        && coincide(view, p2.raw, b)) || (coincide(view, p1.raw, b) && coincide(view, p2.raw, a)))
}

/// A line of the sketch leads away from the node of a point.
pub open spec fn line_leaves<T>(view: SketchView<T>, e: u64, a: u64) -> bool {
    &&& view.entities.contains_key(e)
    &&& view.entities[e] matches SketchEntity::Line { p1, p2 } && !coincide(view, p1.raw, p2.raw)
        && (coincide(view, p1.raw, a) || coincide(view, p2.raw, a))
}

/// Some line joins the nodes of two points.
pub open spec fn is_side<T>(view: SketchView<T>, a: u64, b: u64) -> bool {
    exists|e: u64| #[trigger] line_joins(view, e, a, b)
}

/// The points are the corners of a closed polygon of lines that stands for
/// itself: at least three different nodes, each joined to the next by a line
/// and the last to the first, and just two lines lead away from each.
pub open spec fn is_outline<T>(view: SketchView<T>, ring: Seq<u64>) -> bool {
    let n = ring.len() as int;
    &&& n >= 3
    &&& forall|i: int, j: int|
        0 <= i < n && 0 <= j < n && coincide(view, #[trigger] ring[i], #[trigger] ring[j]) ==> i == j
    &&& forall|i: int| 0 <= i < n ==> is_side(view, #[trigger] ring[i], ring[(i + 1) % n])
    &&& forall|i: int| 0 <= i < n ==> two_lines_leave(view, #[trigger] ring[i])
}

/// No more than two lines lead away from the node of a point.
pub open spec fn two_lines_leave<T>(view: SketchView<T>, a: u64) -> bool {
    forall|e: u64, f: u64, g: u64|
        #![trigger line_leaves(view, e, a), line_leaves(view, f, a), line_leaves(view, g, a)]
        line_leaves(view, e, a) && line_leaves(view, f, a) && line_leaves(view, g, a) ==> e == f
            || f == g || e == g
}

/// The polygon has the corners where the points are, in their order or turned
/// round.
pub open spec fn is_drawn_round<T>(
    view: SketchView<T>,
    points: Seq<[T; 2]>,
    ring: Seq<u64>,
) -> bool {
    &&& points.len() == ring.len()
    &&& (forall|i: int|
        0 <= i < ring.len() ==> #[trigger] points[i] == place_of_point(view, ring[i])) || (forall|
        i: int,
    |
        0 <= i < ring.len() ==> #[trigger] points[i] == place_of_point(
            view,
            ring[ring.len() - 1 - i],
        ))
}

proof fn lemma_edges_prefix<T>(view: SketchView<T>, keys: Seq<u64>, j: int)
    requires
        0 <= j <= keys.len(),
    ensures
        edges_under(view, keys.take(j)).len() <= edges_under(view, keys).len(),
        forall|i: int|
            0 <= i < edges_under(view, keys.take(j)).len() ==> #[trigger] edges_under(
                view,
                keys,
            )[i] == edges_under(view, keys.take(j))[i],
    decreases keys.len(),
{
    if j == keys.len() {
        assert(keys.take(j) =~= keys);
    } else {
        lemma_edges_prefix(view, keys.drop_last(), j);
        assert(keys.drop_last().take(j) =~= keys.take(j));
    }
}

/// The place of a line among the edges.
spec fn edge_place<T>(view: SketchView<T>, keys: Seq<u64>, j: int) -> int {
    edges_under(view, keys.take(j)).len() as int
}

proof fn lemma_edge_place<T>(view: SketchView<T>, keys: Seq<u64>, j: int)
    requires
        0 <= j < keys.len(),
        view.entities[keys[j]] matches SketchEntity::Line { p1, p2 } && node_of(view, p1)
            != node_of(view, p2),
    ensures
        0 <= edge_place(view, keys, j) < edges_under(view, keys).len(),
        view.entities[keys[j]] matches SketchEntity::Line { p1, p2 } && edges_under(
            view,
            keys,
        )[edge_place(view, keys, j)] == (node_of(view, p1), node_of(view, p2)),
        forall|i: int|
            j < i < keys.len() ==> edge_place(view, keys, j) < #[trigger] edge_place(
                view,
                keys,
                i,
            ),
{
    let next = keys.take(j + 1);
    assert(next.drop_last() =~= keys.take(j));
    assert(next.last() == keys[j]);
    lemma_edges_prefix(view, keys, j + 1);
    assert(edges_under(view, next).len() == edge_place(view, keys, j) + 1);
    assert(edges_under(view, keys)[edge_place(view, keys, j)] == edges_under(
        view,
        next,
    )[edge_place(view, keys, j)]);
    assert forall|i: int| j < i < keys.len() implies edge_place(view, keys, j)
        < #[trigger] edge_place(view, keys, i) by {
        lemma_edges_prefix(view, keys.take(i), j + 1);
        assert(keys.take(i).take(j + 1) =~= next);
    }
}

proof fn lemma_edge_origin<T>(view: SketchView<T>, keys: Seq<u64>, i: int) -> (j: int)
    requires
        0 <= i < edges_under(view, keys).len(),
    ensures
        0 <= j < keys.len(),
        edge_place(view, keys, j) == i,
        view.entities[keys[j]] matches SketchEntity::Line { p1, p2 } && node_of(view, p1)
            != node_of(view, p2) && edges_under(view, keys)[i] == (
            node_of(view, p1),
            node_of(view, p2),
        ),
    decreases keys.len(),
{
    let shorter = keys.drop_last();
    let rest = edges_under(view, shorter);
    if i < rest.len() {
        let j = lemma_edge_origin(view, shorter, i);
        assert(shorter.take(j) =~= keys.take(j));
        j
    } else {
        assert(keys.take(keys.len() - 1) =~= shorter);
        keys.len() - 1
    }
}

proof fn lemma_filter_at_most<A>(list: Seq<A>, wanted: spec_fn(A) -> bool, places: Seq<int>)
    requires
        forall|a: int, b: int|
            0 <= a < b < places.len() ==> #[trigger] places[a] < #[trigger] places[b],
        forall|a: int|
            0 <= a < places.len() ==> 0 <= #[trigger] places[a] < list.len() && wanted(
                list[places[a]],
            ),
    ensures
        places.len() <= list.filter(wanted).len(),
    decreases list.len(),
{
    reveal(Seq::filter);
    if list.len() > 0 {
        let rest = list.drop_last();
        if places.len() > 0 && places.last() == list.len() - 1 {
            let fewer = places.drop_last();
            assert forall|a: int| 0 <= a < fewer.len() implies 0 <= #[trigger] fewer[a] < rest.len()
                && wanted(rest[fewer[a]]) by {
                assert(fewer[a] == places[a]);
                assert(places[a] < places[places.len() - 1]);
            }
            assert forall|a: int, b: int| 0 <= a < b < fewer.len() implies #[trigger] fewer[a]
                < #[trigger] fewer[b] by {
                assert(places[a] < places[b]);
            }
            lemma_filter_at_most(rest, wanted, fewer);
            assert(places[places.len() - 1] == list.len() - 1);
            assert(wanted(list.last()));
        } else {
            assert forall|a: int| 0 <= a < places.len() implies 0 <= #[trigger] places[a]
                < rest.len() && wanted(rest[places[a]]) by {
                if a < places.len() - 1 {
                    assert(places[a] < places[places.len() - 1]);
                }
                assert(places[places.len() - 1] < list.len());
            }
            lemma_filter_at_most(rest, wanted, places);
        }
    } else if places.len() > 0 {
        assert(0 <= places[0] < list.len());
    }
}

proof fn lemma_filter_found<A>(list: Seq<A>, wanted: spec_fn(A) -> bool) -> (places: Seq<int>)
    ensures
        places.len() == list.filter(wanted).len(),
        forall|a: int, b: int|
            0 <= a < b < places.len() ==> #[trigger] places[a] < #[trigger] places[b],
        forall|a: int|
            0 <= a < places.len() ==> 0 <= #[trigger] places[a] < list.len() && wanted(
                list[places[a]],
            ),
    decreases list.len(),
{
    reveal(Seq::filter);
    if list.len() == 0 {
        Seq::empty()
    } else {
        let rest = list.drop_last();
        let some = lemma_filter_found(rest, wanted);
        if wanted(list.last()) {
            let all = some.push(list.len() - 1);
            assert forall|a: int| 0 <= a < all.len() implies 0 <= #[trigger] all[a] < list.len()
                && wanted(list[all[a]]) by {
                if a < some.len() {
                    assert(some[a] < rest.len());
                    assert(rest[some[a]] == list[some[a]]);
                }
            }
            assert forall|a: int, b: int| 0 <= a < b < all.len() implies #[trigger] all[a]
                < #[trigger] all[b] by {
                if b < some.len() {
                    assert(some[a] < some[b]);
                } else {
                    assert(some[a] < rest.len());
                }
            }
            all
        } else {
            assert forall|a: int| 0 <= a < some.len() implies 0 <= #[trigger] some[a] < list.len()
                && wanted(list[some[a]]) by {
                assert(rest[some[a]] == list[some[a]]);
            }
            some
        }
    }
}

/// A filtered list without duplicates has none.
pub(crate) proof fn lemma_filter_distinct<A>(list: Seq<A>, wanted: spec_fn(A) -> bool)
    requires
        list.no_duplicates(),
    ensures
        list.filter(wanted).no_duplicates(),
    decreases list.len(),
{
    reveal(Seq::filter);
    if list.len() > 0 {
        let rest = list.drop_last();
        let some = rest.filter(wanted);
        lemma_filter_distinct(rest, wanted);
        if wanted(list.last()) && some.contains(list.last()) {
            rest.lemma_filter_contains_rev(wanted, list.last());
            let i = choose|i: int| 0 <= i < rest.len() && rest[i] == list.last();
            assert(list[i] == list[list.len() - 1]);
        }
        assert forall|i: int, j: int|
            0 <= i < list.filter(wanted).len() && 0 <= j < list.filter(wanted).len() && i
                != j implies list.filter(wanted)[i] != list.filter(wanted)[j] by {
            if i < some.len() && j < some.len() {
                assert(some[i] != some[j]);
            } else if i < some.len() {
                assert(some.contains(some[i]));
            } else {
                assert(some.contains(some[j]));
            }
        }
    }
}

/// Three places in ascending order.
spec fn sorted_three(a: int, b: int, c: int) -> Seq<int> {
    if a < b {
        if b < c {
            seq![a, b, c]
        } else if a < c {
            seq![a, c, b]
        } else {
            seq![c, a, b]
        }
    } else if a < c {
        seq![b, a, c]
    } else if b < c {
        seq![b, c, a]
    } else {
        seq![c, b, a]
    }
}

/// The place of the edge of a line that leads away from a node.
proof fn lemma_leaving<T: Copy>(sketch: Sketch<T>, e: u64, a: u64) -> (j: int)
    requires
        sketch.wf(),
        line_leaves(sketch@, e, a),
    ensures
        ({
            let view = sketch@;
            let keys = slot_order(view.entities.dom());
            let node = node_of(view, PointId { raw: a });
            &&& 0 <= j < keys.len()
            &&& keys[j] == e
            &&& 0 <= edge_place(view, keys, j) < line_edges(view).len()
            &&& touches(line_edges(view)[edge_place(view, keys, j)], node)
            &&& forall|i: int|
                j < i < keys.len() ==> edge_place(view, keys, j) < #[trigger] edge_place(
                    view,
                    keys,
                    i,
                )
        }),
{
    let view = sketch@;
    let keys = slot_order(view.entities.dom());
    sketch.lemma_orders();
    assert(view.entities.dom().contains(e));
    assert(keys.contains(e));
    let j = choose|j: int| 0 <= j < keys.len() && keys[j] == e;
    if let SketchEntity::Line { p1, p2 } = view.entities[e] {
        lemma_nodes_are_coincident_points(sketch, p1, p2);
        lemma_nodes_are_coincident_points(sketch, p1, PointId { raw: a });
        lemma_nodes_are_coincident_points(sketch, p2, PointId { raw: a });
        lemma_edge_place(view, keys, j);
    }
    j
}

/// The nodes of a ring of edges are the corners of an outline.
#[verifier::rlimit(40)]
proof fn lemma_ring_is_outline<T: Copy>(sketch: Sketch<T>, ring: Seq<u64>)
    requires
        sketch.wf(),
        is_ring(line_edges(sketch@), ring),
    ensures
        is_outline(sketch@, ring),
        forall|i: int|
            0 <= i < ring.len() ==> node_of(sketch@, PointId { raw: #[trigger] ring[i] })
                == ring[i],
{
    let view = sketch@;
    let keys = slot_order(view.entities.dom());
    let edges = line_edges(view);
    let n = ring.len() as int;
    sketch.lemma_orders();
    assert forall|i: int| 0 <= i < n implies node_of(view, PointId { raw: #[trigger] ring[i] })
        == ring[i] && is_side(view, ring[i], ring[(i + 1) % n]) by {
        assert(joined(edges, ring, i));
        let b = ring[after(n, i)];
        if i + 1 < n {
            vstd::arithmetic::div_mod::lemma_small_mod((i + 1) as nat, n as nat);
        } else {
            vstd::arithmetic::div_mod::lemma_mod_self_0(n);
        }
        assert(after(n, i) == (i + 1) % n);
        let t = choose|t: int|
            0 <= t < edges.len() && touches(#[trigger] edges[t], ring[i]) && far_end(
                edges[t],
                ring[i],
            ) == b;
        let j = lemma_edge_origin(view, keys, t);
        let e = keys[j];
        assert(keys.contains(e));
        assert(view.entities.dom().contains(e));
        if let SketchEntity::Line { p1, p2 } = view.entities[e] {
            lemma_representative_is_own(all_coincidences(view), p1.raw);
            lemma_representative_is_own(all_coincidences(view), p2.raw);
            lemma_nodes_are_coincident_points(sketch, p1, PointId { raw: ring[i] });
            lemma_nodes_are_coincident_points(sketch, p2, PointId { raw: ring[i] });
            lemma_nodes_are_coincident_points(sketch, p1, PointId { raw: b });
            lemma_nodes_are_coincident_points(sketch, p2, PointId { raw: b });
            assert(line_joins(view, e, ring[i], b));
        }
    }
    assert forall|i: int, j: int|
        0 <= i < n && 0 <= j < n && coincide(
            view,
            #[trigger] ring[i],
            #[trigger] ring[j],
        ) implies i == j by {
        lemma_nodes_are_coincident_points(
            sketch,
            PointId { raw: ring[i] },
            PointId { raw: ring[j] },
        );
        assert(ring[i] == ring[j]);
    }
    assert forall|i: int| 0 <= i < n implies two_lines_leave(view, #[trigger] ring[i]) by {
        assert(node_of(view, PointId { raw: ring[i] }) == ring[i]);
        assert(incident(edges, ring[i]).len() == 2);
        lemma_two_lines(sketch, ring[i]);
    }
}

/// Where a node has two edges, no more than two lines lead away.
#[verifier::rlimit(40)]
proof fn lemma_two_lines<T: Copy>(sketch: Sketch<T>, a: u64)
    requires
        sketch.wf(),
        node_of(sketch@, PointId { raw: a }) == a,
        incident(line_edges(sketch@), a).len() == 2,
    ensures
        two_lines_leave(sketch@, a),
{
    let view = sketch@;
    let keys = slot_order(view.entities.dom());
    let edges = line_edges(view);
    assert forall|e: u64, f: u64, g: u64|
        #![trigger line_leaves(view, e, a), line_leaves(view, f, a), line_leaves(view, g, a)]
        line_leaves(view, e, a) && line_leaves(view, f, a) && line_leaves(view, g, a) implies e == f
        || f == g || e == g by {
        let i = lemma_leaving(sketch, e, a);
        let j = lemma_leaving(sketch, f, a);
        let k = lemma_leaving(sketch, g, a);
        if e != f && f != g && e != g {
            let (x, y, z) = (
                edge_place(view, keys, i),
                edge_place(view, keys, j),
                edge_place(view, keys, k),
            );
            assert(i != j && j != k && i != k);
            assert(x != y && y != z && x != z);
            let here = |t: (u64, u64)| touches(t, a);
            let all = sorted_three(x, y, z);
            assert forall|s: int| 0 <= s < all.len() implies 0 <= #[trigger] all[s] < edges.len()
                && here(edges[all[s]]) by {}
            lemma_filter_at_most(edges, here, all);
        }
    }
}

/// The nodes of the corners of an outline are a ring of edges.
#[verifier::rlimit(40)]
proof fn lemma_outline_is_ring<T: Copy>(sketch: Sketch<T>, ring: Seq<u64>)
    requires
        sketch.wf(),
        is_outline(sketch@, ring),
    ensures
        is_ring(
            line_edges(sketch@),
            ring.map_values(|p: u64| node_of(sketch@, PointId { raw: p })),
        ),
{
    let view = sketch@;
    let keys = slot_order(view.entities.dom());
    let edges = line_edges(view);
    let n = ring.len() as int;
    let nodes = ring.map_values(|p: u64| node_of(view, PointId { raw: p }));
    sketch.lemma_orders();
    assert forall|i: int, j: int| 0 <= i < n && 0 <= j < n && i != j implies nodes[i]
        != nodes[j] by {
        lemma_nodes_are_coincident_points(
            sketch,
            PointId { raw: ring[i] },
            PointId { raw: ring[j] },
        );
    }
    assert forall|i: int| 0 <= i < n implies #[trigger] joined(edges, nodes, i) by {
        let _ = lemma_side_edge(sketch, ring, i);
    }
    assert forall|i: int| 0 <= i < n implies incident(edges, #[trigger] nodes[i]).len() == 2 by {
        let j = before(n, i);
        assert(after(n, j) == i);
        assert(after(n, i) != j);
        assert(nodes[after(n, i)] != nodes[j]);
        let x = lemma_side_edge(sketch, ring, i);
        let y = lemma_side_edge(sketch, ring, j);
        assert(x != y);
        lemma_two_edges(sketch, ring[i], x, y);
    }
}

/// Where no more than two lines lead away, a node has the two edges that it is
/// known to have.
#[verifier::rlimit(40)]
proof fn lemma_two_edges<T: Copy>(sketch: Sketch<T>, p: u64, x: int, y: int)
    requires
        sketch.wf(),
        two_lines_leave(sketch@, p),
        x != y,
        0 <= x < line_edges(sketch@).len(),
        0 <= y < line_edges(sketch@).len(),
        touches(line_edges(sketch@)[x], node_of(sketch@, PointId { raw: p })),
        touches(line_edges(sketch@)[y], node_of(sketch@, PointId { raw: p })),
    ensures
        incident(line_edges(sketch@), node_of(sketch@, PointId { raw: p })).len() == 2,
{
    let view = sketch@;
    let keys = slot_order(view.entities.dom());
    let edges = line_edges(view);
    let node = node_of(view, PointId { raw: p });
    let here = |t: (u64, u64)| touches(t, node);
    let two = if x < y {
        seq![x, y]
    } else {
        seq![y, x]
    };
    assert forall|s: int| 0 <= s < two.len() implies 0 <= #[trigger] two[s] < edges.len() && here(
        edges[two[s]],
    ) by {}
    lemma_filter_at_most(edges, here, two);
    let found = lemma_filter_found(edges, here);
    if found.len() > 2 {
        assert(found[0] < found[1] && found[1] < found[2]);
        let a = lemma_edge_origin(view, keys, found[0]);
        let b = lemma_edge_origin(view, keys, found[1]);
        let c = lemma_edge_origin(view, keys, found[2]);
        lemma_edge_leaves(sketch, p, a);
        lemma_edge_leaves(sketch, p, b);
        lemma_edge_leaves(sketch, p, c);
        sketch.lemma_orders();
        lemma_slot_order_distinct(keys, view.entities.dom());
        assert(line_leaves(view, keys[a], p));
        assert(line_leaves(view, keys[b], p));
        assert(line_leaves(view, keys[c], p));
        assert(a != b && b != c && a != c);
    }
}

proof fn lemma_edge_leaves<T: Copy>(sketch: Sketch<T>, p: u64, j: int)
    requires
        sketch.wf(),
        0 <= j < slot_order(sketch@.entities.dom()).len(),
        sketch@.entities[slot_order(
            sketch@.entities.dom(),
        )[j]] matches SketchEntity::Line { p1, p2 } && node_of(sketch@, p1) != node_of(sketch@, p2)
            && touches(
            (node_of(sketch@, p1), node_of(sketch@, p2)),
            node_of(sketch@, PointId { raw: p }),
        ),
    ensures
        line_leaves(sketch@, slot_order(sketch@.entities.dom())[j], p),
{
    let view = sketch@;
    let keys = slot_order(view.entities.dom());
    sketch.lemma_orders();
    let e = keys[j];
    assert(keys.contains(e));
    assert(view.entities.dom().contains(e));
    if let SketchEntity::Line { p1, p2 } = view.entities[e] {
        lemma_nodes_are_coincident_points(sketch, p1, p2);
        lemma_nodes_are_coincident_points(sketch, p1, PointId { raw: p });
        lemma_nodes_are_coincident_points(sketch, p2, PointId { raw: p });
    }
}

#[verifier::spinoff_prover]
#[verifier::rlimit(60)]
proof fn lemma_side_edge<T: Copy>(sketch: Sketch<T>, ring: Seq<u64>, i: int) -> (t: int)
    requires
        sketch.wf(),
        is_outline(sketch@, ring),
        0 <= i < ring.len(),
    ensures
        ({
            let edges = line_edges(sketch@);
            let n = ring.len() as int;
            let a = node_of(sketch@, PointId { raw: ring[i] });
            let b = node_of(sketch@, PointId { raw: ring[after(n, i)] });
            &&& 0 <= t < edges.len()
            &&& touches(edges[t], a) && far_end(edges[t], a) == b
            &&& touches(edges[t], b) && far_end(edges[t], b) == a
            &&& a != b
            &&& adjacent(edges, a, b)
        }),
{
    let view = sketch@;
    let keys = slot_order(view.entities.dom());
    let edges = line_edges(view);
    let n = ring.len() as int;
    sketch.lemma_orders();
    if i + 1 < n {
        vstd::arithmetic::div_mod::lemma_small_mod((i + 1) as nat, n as nat);
    } else {
        vstd::arithmetic::div_mod::lemma_mod_self_0(n);
    }
    assert(after(n, i) == (i + 1) % n);
    let (x, y) = (PointId { raw: ring[i] }, PointId { raw: ring[after(n, i)] });
    assert(is_side(view, ring[i], ring[(i + 1) % n]));
    let e = choose|e: u64| #[trigger] line_joins(view, e, x.raw, y.raw);
    assert(view.entities.dom().contains(e));
    assert(keys.contains(e));
    let j = choose|j: int| 0 <= j < keys.len() && keys[j] == e;
    lemma_nodes_are_coincident_points(sketch, x, y);
    assert(!coincide(view, x.raw, y.raw)) by {
        assert(ring[i] == x.raw && ring[after(n, i)] == y.raw);
    }
    if let SketchEntity::Line { p1, p2 } = view.entities[e] {
        lemma_nodes_are_coincident_points(sketch, p1, x);
        lemma_nodes_are_coincident_points(sketch, p2, x);
        lemma_nodes_are_coincident_points(sketch, p1, y);
        lemma_nodes_are_coincident_points(sketch, p2, y);
        lemma_edge_place(view, keys, j);
    }
    let t = edge_place(view, keys, j);
    assert(touches(edges[t], node_of(view, x)));
    t
}

/// The circle of the sketch under a key, as a profile.
pub open spec fn is_circle_profile<T>(view: SketchView<T>, k: u64, profile: Profile<T>) -> bool {
    &&& view.entities.contains_key(k)
    &&& view.entities[k] matches SketchEntity::Circle { center, radius }
    &&& profile matches Profile::Circle { center: place, radius: size }
    &&& place == place_of_point(view, center.raw)
    &&& size == view.vars[radius.index as int]
}

/// The profiles of a sketch are its circles, each once, and after them the
/// closed polygons of its lines. Every polygon runs round an outline of lines,
/// and every outline is one of the polygons.
pub proof fn lemma_profiles<T: Copy, E: Fn(&Expr<T>, &Vec<T>) -> T, L: Fn(&T, &T) -> bool>(
    sketch: Sketch<T>,
    eval: E,
    less: L,
    profiles: Seq<Profile<T>>,
)
    requires
        sketch.wf(),
        found_profiles(sketch@, eval, less, profiles),
    ensures
        exists|keys: Seq<u64>| #[trigger] are_circles(sketch@, keys, profiles),
        forall|i: int|
            0 <= i < profiles.len() ==> (#[trigger] profiles[i] matches Profile::Polygon(points)
                ==> is_traced(sketch@, points@)),
        forall|ring: Seq<u64>| #[trigger]
            is_outline(sketch@, ring) ==> is_profile(sketch@, profiles, ring),
{
    let view = sketch@;
    let (zero, rings, at) = choose|zero: T, rings: Seq<Seq<u64>>, at: Seq<int>|
        {
            &&& #[trigger] is_zero(eval, zero)
            &&& #[trigger] are_all_rings(line_edges(view), line_nodes(view), rings, at)
            &&& are_profiles(view, eval, less, zero, round_keys(view), rings, profiles)
        };
    lemma_circles_first(sketch, eval, less, zero, rings, at, profiles);
    lemma_polygons_traced(sketch, eval, less, zero, rings, at, profiles);
    assert forall|ring: Seq<u64>| #[trigger] is_outline(view, ring) implies is_profile(
        view,
        profiles,
        ring,
    ) by {
        lemma_outline_found(sketch, eval, less, zero, rings, at, profiles, ring);
    }
}

/// The first profiles are the circles of the sketch, each once, and the others
/// are polygons.
pub open spec fn are_circles<T>(
    view: SketchView<T>,
    keys: Seq<u64>,
    profiles: Seq<Profile<T>>,
) -> bool {
    &&& keys.no_duplicates()
    &&& forall|k: u64| #[trigger]
        keys.contains(k) <==> view.entities.contains_key(k) && view.entities[k] is Circle
    &&& keys.len() <= profiles.len()
    &&& forall|i: int|
        0 <= i < keys.len() ==> #[trigger] is_circle_profile(view, keys[i], profiles[i])
    &&& forall|i: int| keys.len() <= i < profiles.len() ==> #[trigger] profiles[i] is Polygon
}

/// The polygon runs round an outline of lines.
pub open spec fn is_traced<T>(view: SketchView<T>, points: Seq<[T; 2]>) -> bool {
    exists|ring: Seq<u64>| #[trigger] is_outline(view, ring) && is_drawn_round(view, points, ring)
}

/// The outline is one of the profiles.
pub open spec fn is_profile<T>(
    view: SketchView<T>,
    profiles: Seq<Profile<T>>,
    ring: Seq<u64>,
) -> bool {
    exists|i: int, other: Seq<u64>|
        {
            &&& 0 <= i < profiles.len()
            &&& #[trigger] profiles[i] matches Profile::Polygon(points)
            &&& #[trigger] is_outline(view, other)
            &&& is_drawn_round(view, points@, other)
            &&& has_corner(view, other, ring[0])
        }
}

/// One of the corners is the node of the point.
pub open spec fn has_corner<T>(view: SketchView<T>, ring: Seq<u64>, p: u64) -> bool {
    exists|m: int| 0 <= m < ring.len() && coincide(view, #[trigger] ring[m], p)
}

proof fn lemma_circles_first<T: Copy, E: Fn(&Expr<T>, &Vec<T>) -> T, L: Fn(&T, &T) -> bool>(
    sketch: Sketch<T>,
    eval: E,
    less: L,
    zero: T,
    rings: Seq<Seq<u64>>,
    at: Seq<int>,
    profiles: Seq<Profile<T>>,
)
    requires
        sketch.wf(),
        are_all_rings(line_edges(sketch@), line_nodes(sketch@), rings, at),
        are_profiles(sketch@, eval, less, zero, round_keys(sketch@), rings, profiles),
    ensures
        are_circles(sketch@, round_keys(sketch@), profiles),
{
    let circles = round_keys(sketch@);
    lemma_circles(sketch, eval, less, zero, rings, profiles);
    assert forall|i: int| circles.len() <= i < profiles.len() implies #[trigger] profiles[i] is Polygon by {
        let s = i - circles.len();
        assert(profiles[circles.len() + s] is Polygon);
    }
}

proof fn lemma_polygons_traced<T: Copy, E: Fn(&Expr<T>, &Vec<T>) -> T, L: Fn(&T, &T) -> bool>(
    sketch: Sketch<T>,
    eval: E,
    less: L,
    zero: T,
    rings: Seq<Seq<u64>>,
    at: Seq<int>,
    profiles: Seq<Profile<T>>,
)
    requires
        sketch.wf(),
        are_all_rings(line_edges(sketch@), line_nodes(sketch@), rings, at),
        are_profiles(sketch@, eval, less, zero, round_keys(sketch@), rings, profiles),
    ensures
        forall|i: int|
            0 <= i < profiles.len() ==> (#[trigger] profiles[i] matches Profile::Polygon(points)
                ==> is_traced(sketch@, points@)),
{
    let circles = round_keys(sketch@);
    assert forall|i: int| 0 <= i < profiles.len() implies (
    #[trigger] profiles[i] matches Profile::Polygon(points) ==> is_traced(sketch@, points@)) by {
        if i < circles.len() {
            lemma_circles(sketch, eval, less, zero, rings, profiles);
            assert(is_circle_profile(sketch@, circles[i], profiles[i]));
        } else {
            let s = i - circles.len();
            lemma_polygon(sketch, eval, less, zero, rings, at, profiles, s);
            lemma_traced(sketch@, profiles[i]->Polygon_0@, rings[s]);
        }
    }
}

proof fn lemma_traced<T>(view: SketchView<T>, points: Seq<[T; 2]>, ring: Seq<u64>)
    requires
        is_outline(view, ring),
        is_drawn_round(view, points, ring),
    ensures
        is_traced(view, points),
{
}

#[verifier::spinoff_prover]
#[verifier::rlimit(60)]
proof fn lemma_outline_found<T: Copy, E: Fn(&Expr<T>, &Vec<T>) -> T, L: Fn(&T, &T) -> bool>(
    sketch: Sketch<T>,
    eval: E,
    less: L,
    zero: T,
    rings: Seq<Seq<u64>>,
    at: Seq<int>,
    profiles: Seq<Profile<T>>,
    ring: Seq<u64>,
)
    requires
        sketch.wf(),
        are_all_rings(line_edges(sketch@), line_nodes(sketch@), rings, at),
        are_profiles(sketch@, eval, less, zero, round_keys(sketch@), rings, profiles),
        is_outline(sketch@, ring),
    ensures
        is_profile(sketch@, profiles, ring),
{
    let view = sketch@;
    lemma_outline_is_ring(sketch, ring);
    let nodes = ring.map_values(|p: u64| node_of(view, PointId { raw: p }));
    assert(is_ring(line_edges(view), nodes));
    let s = choose|s: int| 0 <= s < rings.len() && (#[trigger] rings[s]).contains(nodes[0]);
    lemma_polygon(sketch, eval, less, zero, rings, at, profiles, s);
    let other = rings[s];
    let m = choose|m: int| 0 <= m < other.len() && other[m] == nodes[0];
    lemma_representative_is_own(all_coincidences(view), ring[0]);
    lemma_nodes_are_coincident_points(sketch, PointId { raw: other[m] }, PointId { raw: ring[0] });
    assert(coincide(view, other[m], ring[0]));
    assert(has_corner(view, other, ring[0]));
    let i = round_keys(view).len() + s;
    assert(profiles[i] is Polygon);
    assert(is_outline(view, other));
}

proof fn lemma_circles<T: Copy, E: Fn(&Expr<T>, &Vec<T>) -> T, L: Fn(&T, &T) -> bool>(
    sketch: Sketch<T>,
    eval: E,
    less: L,
    zero: T,
    rings: Seq<Seq<u64>>,
    profiles: Seq<Profile<T>>,
)
    requires
        sketch.wf(),
        are_profiles(sketch@, eval, less, zero, round_keys(sketch@), rings, profiles),
    ensures
        round_keys(sketch@).no_duplicates(),
        forall|k: u64| #[trigger]
            round_keys(sketch@).contains(k) <==> sketch@.entities.contains_key(k)
                && sketch@.entities[k] is Circle,
        forall|i: int|
            0 <= i < round_keys(sketch@).len() ==> #[trigger] is_circle_profile(
                sketch@,
                round_keys(sketch@)[i],
                profiles[i],
            ),
{
    let view = sketch@;
    let circles = round_keys(view);
    let keys = slot_order(view.entities.dom());
    let round = |k: u64| view.entities[k] is Circle;
    sketch.lemma_orders();
    lemma_slot_order_distinct(keys, view.entities.dom());
    lemma_filter_distinct(keys, round);
    assert forall|k: u64| #[trigger] circles.contains(k) <==> view.entities.contains_key(k)
        && view.entities[k] is Circle by {
        if circles.contains(k) {
            keys.lemma_filter_contains_rev(round, k);
            let i = choose|i: int| 0 <= i < circles.len() && circles[i] == k;
            keys.lemma_filter_pred(round, i);
            assert(view.entities.dom().contains(k));
        }
        if view.entities.contains_key(k) && view.entities[k] is Circle {
            assert(view.entities.dom().contains(k));
            assert(keys.contains(k));
            let j = choose|j: int| 0 <= j < keys.len() && keys[j] == k;
            keys.lemma_filter_contains(round, j);
        }
    }
    assert forall|i: int| 0 <= i < circles.len() implies #[trigger] is_circle_profile(
        view,
        circles[i],
        profiles[i],
    ) by {
        assert(circles.contains(circles[i]));
        let center = view.entities[circles[i]]->center;
        assert(place_of_point(view, center.raw)@ =~= view.position(center)@);
    }
}

proof fn lemma_polygon<T: Copy, E: Fn(&Expr<T>, &Vec<T>) -> T, L: Fn(&T, &T) -> bool>(
    sketch: Sketch<T>,
    eval: E,
    less: L,
    zero: T,
    rings: Seq<Seq<u64>>,
    at: Seq<int>,
    profiles: Seq<Profile<T>>,
    s: int,
)
    requires
        sketch.wf(),
        are_all_rings(line_edges(sketch@), line_nodes(sketch@), rings, at),
        are_profiles(sketch@, eval, less, zero, round_keys(sketch@), rings, profiles),
        0 <= s < rings.len(),
    ensures
        ({
            let i = round_keys(sketch@).len() + s;
            &&& 0 <= i < profiles.len()
            &&& profiles[i] matches Profile::Polygon(points)
            &&& is_outline(sketch@, rings[s])
            &&& is_drawn_round(sketch@, points@, rings[s])
        }),
{
    let view = sketch@;
    let ring = rings[s];
    let i = round_keys(view).len() + s;
    assert(profiles[round_keys(view).len() + s] is Polygon);
    let points = profiles[i]->Polygon_0@;
    assert(starts_at(line_edges(view), line_nodes(view), rings[s], at[s]));
    lemma_ring_is_outline(sketch, ring);
    let around = places(view, ring);
    assert(is_oriented(eval, less, zero, around, points));
    assert forall|k: int| 0 <= k < ring.len() implies #[trigger] around[k] == place_of_point(
        view,
        ring[k],
    ) by {
        assert(place_of_point(view, ring[k])@ =~= view.position(PointId { raw: ring[k] })@);
    }
    if points == around {
        assert forall|k: int| 0 <= k < ring.len() implies #[trigger] points[k] == place_of_point(
            view,
            ring[k],
        ) by {
            assert(around[k] == place_of_point(view, ring[k]));
        }
    } else {
        assert(points == around.reverse());
        assert forall|k: int| 0 <= k < ring.len() implies #[trigger] points[k] == place_of_point(
            view,
            ring[ring.len() - 1 - k],
        ) by {
            assert(around[ring.len() - 1 - k] == place_of_point(view, ring[ring.len() - 1 - k]));
        }
    }
}

/// Twice the area of the triangle of three places, positive if they run
/// counterclockwise.
pub open spec fn turn(a: (real, real), b: (real, real), c: (real, real)) -> real {
    (b.0 - a.0) * (c.1 - a.1) - (b.1 - a.1) * (c.0 - a.0)
}

/// The real numbers behind a corner.
pub open spec fn corner_at<T>(num: spec_fn(T) -> real, points: Seq<[T; 2]>, i: int) -> (real, real) {
    (num(points[i][0]), num(points[i][1]))
}

/// Twice the area of the first `k` triangles of the fan round the first corner.
pub open spec fn fan<T>(num: spec_fn(T) -> real, points: Seq<[T; 2]>, k: int) -> real
    decreases k,
{
    if k <= 0 {
        0real
    } else {
        fan(num, points, k - 1) + turn(
            corner_at(num, points, 0),
            corner_at(num, points, k),
            corner_at(num, points, k + 1),
        )
    }
}

proof fn lemma_turn(a: (real, real), b: (real, real), c: (real, real))
    ensures
        turn(a, b, c) == (b.0 * c.1 - c.0 * b.1) + (c.0 * a.1 - a.0 * c.1) - (b.0 * a.1 - a.0
            * b.1),
{
    lemma_apart(b.0, a.0, c.1 - a.1);
    lemma_apart(c.1, a.1, b.0);
    lemma_apart(c.1, a.1, a.0);
    lemma_apart(b.1, a.1, c.0 - a.0);
    lemma_apart(c.0, a.0, b.1);
    lemma_apart(c.0, a.0, a.1);
    lemma_round(b.1, c.0, 1real);
    lemma_round(b.1, a.0, 1real);
    lemma_round(a.1, c.0, 1real);
    lemma_round(a.1, a.0, 1real);
}

proof fn lemma_fan<T>(num: spec_fn(T) -> real, points: Seq<[T; 2]>, k: int)
    requires
        0 <= k < points.len() - 1,
    ensures
        fan(num, points, k) == shoelace_sum(num, points, k + 1) + (num(points[k + 1][0]) * num(
            points[0][1],
        ) - num(points[0][0]) * num(points[k + 1][1])),
    decreases k,
{
    assert(shoelace_sum(num, points, k + 1) == shoelace_sum(num, points, k) + shoelace(
        num,
        points,
        k,
    ));
    if k > 0 {
        lemma_fan(num, points, k - 1);
        lemma_turn(
            corner_at(num, points, 0),
            corner_at(num, points, k),
            corner_at(num, points, k + 1),
        );
    } else {
        assert(shoelace_sum(num, points, 0) == 0real);
        lemma_round(num(points[0][0]), num(points[1][1]), 1real);
        lemma_round(num(points[1][0]), num(points[0][1]), 1real);
    }
}

/// The area of a polygon is the sum of the areas of the triangles between its
/// first corner and each of its other sides.
pub proof fn lemma_area_is_that_of_triangles<T>(num: spec_fn(T) -> real, points: Seq<[T; 2]>)
    requires
        points.len() >= 3,
    ensures
        2real * area_of(num, points) == fan(num, points, points.len() - 2),
{
    let n = points.len() as int;
    lemma_fan(num, points, n - 2);
    assert(shoelace_sum(num, points, n) == shoelace_sum(num, points, n - 1) + shoelace(
        num,
        points,
        n - 1,
    ));
    let s = shoelace_sum(num, points, n);
    assert(s * (1real / 2real) == s / 2real) by (nonlinear_arith);
}

proof fn lemma_oriented<T, E: Fn(&Expr<T>, &Vec<T>) -> T, L: Fn(&T, &T) -> bool>(
    num: spec_fn(T) -> real,
    eval: E,
    less: L,
    zero: T,
    around: Seq<[T; 2]>,
    points: Seq<[T; 2]>,
)
    requires
        exact(num, eval, less),
        is_zero(eval, zero),
        is_oriented(eval, less, zero, around, points),
        around.len() >= 3,
    ensures
        points.len() == around.len(),
        fan(num, points, points.len() - 2) >= 0real,
{
    let (area, negative) = choose|area: T, negative: bool| #[trigger]
        call_ensures(less, (&area, &zero), negative) && computes_area(eval, around, area)
            && points == (if negative {
            around.reverse()
        } else {
            around
        });
    let nothing = |at: Reading<T>| 0real;
    let size = |at: Reading<T>| area_of(at.num, around);
    let here = reading(num, Seq::<T>::empty());
    assert(computes(eval, nothing, Seq::empty(), zero));
    assert(num(zero) == nothing(here));
    assert(computes(eval, size, Seq::empty(), area));
    assert(num(area) == size(here));
    lemma_reversed_area(num, around);
    lemma_area_is_that_of_triangles(num, points);
}

/// With exact arithmetic every polygon among the profiles runs
/// counterclockwise, or encloses no area.
pub proof fn lemma_profiles_run_counterclockwise<
    T: Copy,
    E: Fn(&Expr<T>, &Vec<T>) -> T,
    L: Fn(&T, &T) -> bool,
>(
    num: spec_fn(T) -> real,
    sketch: Sketch<T>,
    eval: E,
    less: L,
    profiles: Seq<Profile<T>>,
    i: int,
)
    requires
        exact(num, eval, less),
        sketch.wf(),
        found_profiles(sketch@, eval, less, profiles),
        0 <= i < profiles.len(),
    ensures
        profiles[i] matches Profile::Polygon(points) ==> points@.len() >= 3 && fan(
            num,
            points@,
            points@.len() - 2,
        ) >= 0real,
{
    let view = sketch@;
    let (zero, rings, at) = choose|zero: T, rings: Seq<Seq<u64>>, at: Seq<int>|
        {
            &&& #[trigger] is_zero(eval, zero)
            &&& #[trigger] are_all_rings(line_edges(view), line_nodes(view), rings, at)
            &&& are_profiles(view, eval, less, zero, round_keys(view), rings, profiles)
        };
    if profiles[i] is Polygon {
        lemma_polygon_turns(num, sketch, eval, less, zero, rings, at, profiles, i);
    }
}

proof fn lemma_polygon_turns<T: Copy, E: Fn(&Expr<T>, &Vec<T>) -> T, L: Fn(&T, &T) -> bool>(
    num: spec_fn(T) -> real,
    sketch: Sketch<T>,
    eval: E,
    less: L,
    zero: T,
    rings: Seq<Seq<u64>>,
    at: Seq<int>,
    profiles: Seq<Profile<T>>,
    i: int,
)
    requires
        exact(num, eval, less),
        sketch.wf(),
        is_zero(eval, zero),
        are_all_rings(line_edges(sketch@), line_nodes(sketch@), rings, at),
        are_profiles(sketch@, eval, less, zero, round_keys(sketch@), rings, profiles),
        0 <= i < profiles.len(),
        profiles[i] is Polygon,
    ensures
        profiles[i]->Polygon_0@.len() >= 3,
        fan(num, profiles[i]->Polygon_0@, profiles[i]->Polygon_0@.len() - 2) >= 0real,
{
    let view = sketch@;
    let circles = round_keys(view).len() as int;
    if i < circles {
        lemma_circles(sketch, eval, less, zero, rings, profiles);
        assert(is_circle_profile(view, round_keys(view)[i], profiles[i]));
    } else {
        let s = i - circles;
        assert(profiles[circles + s] is Polygon);
        assert(starts_at(line_edges(view), line_nodes(view), rings[s], at[s]));
        lemma_oriented(
            num,
            eval,
            less,
            zero,
            places(view, rings[s]),
            profiles[i]->Polygon_0@,
        );
    }
}

/// A line of the sketch ends at a corner.
pub open spec fn ends_at<T>(view: SketchView<T>, e: u64, ring: Seq<u64>) -> bool {
    &&& view.entities.contains_key(e)
    &&& view.entities[e] matches SketchEntity::Line { p1, p2 } && (has_corner(view, ring, p1.raw)
        || has_corner(view, ring, p2.raw))
}

/// The slot of the first line at the first polygon is not behind that of any
/// line at the second.
pub open spec fn comes_first<T>(view: SketchView<T>, one: Seq<u64>, other: Seq<u64>) -> bool {
    exists|e: u64| #[trigger] ends_at(view, e, one) && is_not_behind(view, e, other)
}

/// The slot of a line is not behind that of any line at the polygon.
pub open spec fn is_not_behind<T>(view: SketchView<T>, e: u64, ring: Seq<u64>) -> bool {
    forall|f: u64| #[trigger]
        ends_at(view, f, ring) ==> e % 0x1_0000_0000 <= f % 0x1_0000_0000
}

/// Behind the circles, each profile runs round one of the outlines, no two of
/// them round the same one, in the order in which their lines were drawn.
pub open spec fn are_polygons<T>(
    view: SketchView<T>,
    profiles: Seq<Profile<T>>,
    circles: int,
    rings: Seq<Seq<u64>>,
) -> bool {
    &&& profiles.len() == circles + rings.len()
    &&& forall|s: int|
        0 <= s < rings.len() ==> is_outline(view, #[trigger] rings[s]) && (profiles[circles
            + s] matches Profile::Polygon(points) && is_drawn_round(view, points@, rings[s]))
    &&& forall|s: int, t: int|
        0 <= s < t < rings.len() ==> !has_corner(
            view,
            #[trigger] rings[t],
            #[trigger] rings[s][0],
        ) && comes_first(view, rings[s], rings[t])
}

/// The line whose end stands at a place of the list of all ends.
spec fn owner<T>(view: SketchView<T>, keys: Seq<u64>, p: int) -> int
    decreases keys.len(),
{
    if keys.len() == 0 {
        0
    } else if p < nodes_under(view, keys.drop_last()).len() {
        owner(view, keys.drop_last(), p)
    } else {
        keys.len() - 1
    }
}

proof fn lemma_owner<T>(view: SketchView<T>, keys: Seq<u64>, p: int)
    requires
        0 <= p < nodes_under(view, keys).len(),
    ensures
        0 <= owner(view, keys, p) < keys.len(),
        view.entities[keys[owner(view, keys, p)]] matches SketchEntity::Line { p1, p2 } && (
        nodes_under(view, keys)[p] == node_of(view, p1) || nodes_under(view, keys)[p] == node_of(
            view,
            p2,
        )),
    decreases keys.len(),
{
    let rest = keys.drop_last();
    if p < nodes_under(view, rest).len() {
        lemma_owner(view, rest, p);
        assert(rest[owner(view, rest, p)] == keys[owner(view, rest, p)]);
    }
}

proof fn lemma_owners_ascend<T>(view: SketchView<T>, keys: Seq<u64>, p: int, q: int)
    requires
        0 <= p <= q < nodes_under(view, keys).len(),
    ensures
        owner(view, keys, p) <= owner(view, keys, q),
    decreases keys.len(),
{
    let rest = keys.drop_last();
    if q < nodes_under(view, rest).len() {
        lemma_owners_ascend(view, rest, p, q);
    } else if p < nodes_under(view, rest).len() {
        lemma_owner(view, rest, p);
    }
}

proof fn lemma_owned<T>(view: SketchView<T>, keys: Seq<u64>, j: int, second: bool) -> (p: int)
    requires
        0 <= j < keys.len(),
        view.entities[keys[j]] is Line,
    ensures
        0 <= p < nodes_under(view, keys).len(),
        owner(view, keys, p) == j,
        view.entities[keys[j]] matches SketchEntity::Line { p1, p2 } && nodes_under(view, keys)[p]
            == node_of(
            view,
            if second {
                p2
            } else {
                p1
            },
        ),
    decreases keys.len(),
{
    let rest = keys.drop_last();
    if j < rest.len() {
        assert(rest[j] == keys[j]);
        lemma_owned(view, rest, j, second)
    } else if second {
        nodes_under(view, rest).len() as int + 1
    } else {
        nodes_under(view, rest).len() as int
    }
}

#[verifier::spinoff_prover]
#[verifier::rlimit(60)]
proof fn lemma_same_node<T: Copy>(sketch: Sketch<T>, ring: Seq<u64>, p: PointId)
    requires
        sketch.wf(),
        is_ring(line_edges(sketch@), ring),
    ensures
        has_corner(sketch@, ring, p.raw) <==> ring.contains(node_of(sketch@, p)),
{
    let view = sketch@;
    lemma_ring_is_outline(sketch, ring);
    if has_corner(view, ring, p.raw) {
        let m = choose|m: int| 0 <= m < ring.len() && coincide(view, #[trigger] ring[m], p.raw);
        lemma_nodes_are_coincident_points(sketch, PointId { raw: ring[m] }, p);
        assert(ring[m] == node_of(view, p));
    }
    if ring.contains(node_of(view, p)) {
        let m = choose|m: int| 0 <= m < ring.len() && ring[m] == node_of(view, p);
        assert(node_of(view, PointId { raw: ring[m] }) == ring[m]);
        lemma_nodes_are_coincident_points(sketch, PointId { raw: ring[m] }, p);
        assert(coincide(view, ring[m], p.raw));
    }
}

#[verifier::spinoff_prover]
#[verifier::rlimit(60)]
proof fn lemma_later_line<T: Copy>(
    sketch: Sketch<T>,
    ring: Seq<u64>,
    earlier: int,
    start: int,
    f: u64,
)
    requires
        sketch.wf(),
        starts_at(line_edges(sketch@), line_nodes(sketch@), ring, start),
        0 <= earlier < start,
        ends_at(sketch@, f, ring),
    ensures
        ({
            let keys = slot_order(sketch@.entities.dom());
            keys[owner(sketch@, keys, earlier)] % 0x1_0000_0000 <= f % 0x1_0000_0000
        }),
{
    let view = sketch@;
    let keys = slot_order(view.entities.dom());
    let nodes = line_nodes(view);
    sketch.lemma_orders();
    assert(view.entities.dom().contains(f));
    assert(keys.contains(f));
    let i = owner(view, keys, earlier);
    let j = choose|j: int| 0 <= j < keys.len() && keys[j] == f;
    let (p1, p2) = (view.entities[f]->p1, view.entities[f]->p2);
    lemma_same_node(sketch, ring, p1);
    lemma_same_node(sketch, ring, p2);
    let q = lemma_owned(view, keys, j, !ring.contains(node_of(view, p1)));
    assert(ring.contains(nodes[q]));
    assert(q >= start);
    lemma_owners_ascend(view, keys, earlier, q);
    lemma_owner(view, keys, earlier);
    if i < j {
        assert(slot_index(keys[i]) < slot_index(keys[j]));
    }
}

#[verifier::spinoff_prover]
#[verifier::rlimit(60)]
proof fn lemma_ring_order<T: Copy>(
    sketch: Sketch<T>,
    rings: Seq<Seq<u64>>,
    at: Seq<int>,
    s: int,
    t: int,
)
    requires
        sketch.wf(),
        are_all_rings(line_edges(sketch@), line_nodes(sketch@), rings, at),
        0 <= s < t < rings.len(),
    ensures
        !has_corner(sketch@, rings[t], rings[s][0]),
        comes_first(sketch@, rings[s], rings[t]),
{
    let view = sketch@;
    let keys = slot_order(view.entities.dom());
    let nodes = line_nodes(view);
    sketch.lemma_orders();
    assert(starts_at(line_edges(view), nodes, rings[s], at[s]));
    assert(starts_at(line_edges(view), nodes, rings[t], at[t]));
    assert(at[s] < at[t]);
    lemma_ring_is_outline(sketch, rings[s]);
    assert(node_of(view, PointId { raw: rings[s][0] }) == rings[s][0]);
    lemma_same_node(sketch, rings[t], PointId { raw: rings[s][0] });
    assert(!rings[t].contains(nodes[at[s]]));
    let i = owner(view, keys, at[s]);
    lemma_owner(view, keys, at[s]);
    let e = keys[i];
    assert(keys.contains(e));
    assert(view.entities.dom().contains(e));
    if let SketchEntity::Line { p1, p2 } = view.entities[e] {
        assert(rings[s].contains(rings[s][0]));
        lemma_same_node(sketch, rings[s], p1);
        lemma_same_node(sketch, rings[s], p2);
    }
    assert(ends_at(view, e, rings[s]));
    assert forall|f: u64| #[trigger] ends_at(view, f, rings[t]) implies e % 0x1_0000_0000 <= f
        % 0x1_0000_0000 by {
        lemma_later_line(sketch, rings[t], at[s], at[t], f);
    }
    assert(is_not_behind(view, e, rings[t]));
}

/// The profiles come in a fixed order. First there are the circles, by ascending
/// slot; then the polygons, each of them once, by the slots of their lines.
pub proof fn lemma_profile_order<T: Copy, E: Fn(&Expr<T>, &Vec<T>) -> T, L: Fn(&T, &T) -> bool>(
    sketch: Sketch<T>,
    eval: E,
    less: L,
    profiles: Seq<Profile<T>>,
)
    requires
        sketch.wf(),
        found_profiles(sketch@, eval, less, profiles),
    ensures
        exists|keys: Seq<u64>, rings: Seq<Seq<u64>>|
            {
                &&& #[trigger] are_circles(sketch@, keys, profiles)
                &&& forall|i: int, j: int|
                    0 <= i < j < keys.len() ==> #[trigger] keys[i] % 0x1_0000_0000
                        < #[trigger] keys[j] % 0x1_0000_0000
                &&& #[trigger] are_polygons(sketch@, profiles, keys.len() as int, rings)
            },
{
    let view = sketch@;
    let (zero, rings, at) = choose|zero: T, rings: Seq<Seq<u64>>, at: Seq<int>|
        {
            &&& #[trigger] is_zero(eval, zero)
            &&& #[trigger] are_all_rings(line_edges(view), line_nodes(view), rings, at)
            &&& are_profiles(view, eval, less, zero, round_keys(view), rings, profiles)
        };
    let keys = round_keys(view);
    lemma_circles_first(sketch, eval, less, zero, rings, at, profiles);
    lemma_round_keys_ascend(sketch);
    assert forall|s: int| 0 <= s < rings.len() implies is_outline(view, #[trigger] rings[s]) && (
    profiles[keys.len() + s] matches Profile::Polygon(points) && is_drawn_round(
        view,
        points@,
        rings[s],
    )) by {
        lemma_polygon(sketch, eval, less, zero, rings, at, profiles, s);
    }
    assert forall|s: int, t: int| 0 <= s < t < rings.len() implies !has_corner(
        view,
        #[trigger] rings[t],
        #[trigger] rings[s][0],
    ) && comes_first(view, rings[s], rings[t]) by {
        lemma_ring_order(sketch, rings, at, s, t);
    }
    assert(are_polygons(view, profiles, keys.len() as int, rings));
}

proof fn lemma_round_keys_ascend<T: Copy>(sketch: Sketch<T>)
    requires
        sketch.wf(),
    ensures
        forall|i: int, j: int|
            0 <= i < j < round_keys(sketch@).len() ==> #[trigger] round_keys(sketch@)[i]
                % 0x1_0000_0000 < #[trigger] round_keys(sketch@)[j] % 0x1_0000_0000,
{
    let view = sketch@;
    let all = slot_order(view.entities.dom());
    let round = |k: u64| view.entities[k] is Circle;
    sketch.lemma_orders();
    let places = lemma_filter_places(all, round);
    assert forall|i: int, j: int| 0 <= i < j < round_keys(view).len() implies #[trigger] round_keys(
        view,
    )[i] % 0x1_0000_0000 < #[trigger] round_keys(view)[j] % 0x1_0000_0000 by {
        assert(places[i] < places[j]);
        assert(round_keys(view)[i] == all[places[i]]);
        assert(round_keys(view)[j] == all[places[j]]);
        assert(slot_index(all[places[i]]) < slot_index(all[places[j]]));
    }
}

} // verus!
