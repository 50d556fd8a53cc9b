//! Laws of snapping to points and of picking entities.
use vstd::prelude::*;

use crate::arith::{Order, computes, is_first_least, is_rank, place_of_bits};
use crate::constraint::dist_sq;
use crate::expr::{Expr, Reading, epsilon, magnitude, root};
use crate::ids::{EntityId, PointId};
use crate::laws::meshes::exact_eval;
use crate::laws::reals::{lemma_root_is, lemma_times};
use crate::laws::solving::spot_of;
use crate::measure::{
    entity_gap, entity_ranks, foot, is_hit, is_nearest, lemma_foot_is_nearest, point_gap,
    point_ranks,
};
use crate::sketch::{Sketch, SketchEntity, SketchView};
use crate::slots::{slot_index, slot_order};
use crate::solver::reading;

verus! {

/// Numbers are compared exactly, and smaller numbers come first in the order.
pub open spec fn exact_order<T, M: Fn(&T, &T) -> bool, Q: Fn(&T) -> i64>(
    num: spec_fn(T) -> real,
    order: Order<M, Q>,
) -> bool {
    &&& forall|a: &T, b: &T, found: bool| #[trigger]
        call_ensures(order.at_most, (a, b), found) ==> found == (num(*a) <= num(*b))
    &&& forall|a: &T, b: &T, i: i64, j: i64| #[trigger]
        call_ensures(order.key, (a,), i) && #[trigger] call_ensures(order.key, (b,), j) ==> (i <= j
            <==> num(*a) <= num(*b))
}

/// `far` is how far two places are from each other.
pub open spec fn is_apart(a: (real, real), b: (real, real), far: real) -> bool {
    &&& far >= 0real
    &&& far * far == (a.0 - b.0) * (a.0 - b.0) + (a.1 - b.1) * (a.1 - b.1)
}

/// The place at a fraction of the way from `a` to `b`.
pub open spec fn on_way(a: (real, real), b: (real, real), t: real) -> (real, real) {
    (a.0 + t * (b.0 - a.0), a.1 + t * (b.1 - a.1))
}

/// `far` is how far a place is from a line or circle of a sketch: from the
/// nearest place between the ends of the line, or from the circumference. A
/// line next to no length counts as its first end.
pub open spec fn is_off<T>(
    num: spec_fn(T) -> real,
    view: SketchView<T>,
    entity: SketchEntity,
    pos: (real, real),
    far: real,
) -> bool {
    match entity {
        SketchEntity::Line { p1, p2 } => {
            let (a, b) = (spot_of(num, view, p1), spot_of(num, view, p2));
            if (b.0 - a.0) * (b.0 - a.0) + (b.1 - a.1) * (b.1 - a.1) <= 1real
                / 4503599627370496real {
                is_apart(pos, a, far)
            } else {
                &&& exists|t: real|
                    0real <= t <= 1real && is_apart(pos, #[trigger] on_way(a, b, t), far)
                &&& forall|s: real|
                    0real <= s <= 1real ==> far * far <= {
                        let p = #[trigger] on_way(a, b, s);
                        (pos.0 - p.0) * (pos.0 - p.0) + (pos.1 - p.1) * (pos.1 - p.1)
                    }
            }
        },
        SketchEntity::Circle { center, radius } => {
            let r = num(view.vars[radius.index as int]);
            exists|d: real| #[trigger]
                is_apart(spot_of(num, view, center), pos, d) && far == magnitude(d - r)
        },
    }
}

proof fn lemma_rank<T, M: Fn(&T, &T) -> bool, Q: Fn(&T) -> i64>(
    num: spec_fn(T) -> real,
    order: Order<M, Q>,
    gap: T,
    limit: T,
    rank: Option<i64>,
)
    requires
        exact_order(num, order),
        is_rank(order, gap, limit, rank),
    ensures
        rank is Some <==> num(gap) <= num(limit),
        rank matches Some(place) ==> call_ensures(order.key, (&gap,), place),
{
}

proof fn lemma_first<T, M: Fn(&T, &T) -> bool, Q: Fn(&T) -> i64>(
    num: spec_fn(T) -> real,
    order: Order<M, Q>,
    gaps: Seq<T>,
    limit: T,
    ranks: Seq<Option<i64>>,
    i: int,
)
    requires
        exact_order(num, order),
        gaps.len() == ranks.len(),
        forall|j: int|
            0 <= j < ranks.len() ==> is_rank(order, gaps[j], limit, #[trigger] ranks[j]),
        is_first_least(ranks, i),
    ensures
        num(gaps[i]) <= num(limit),
        forall|j: int| 0 <= j < gaps.len() ==> num(gaps[i]) <= num(#[trigger] gaps[j]),
        forall|j: int| 0 <= j < i ==> num(gaps[i]) < num(#[trigger] gaps[j]),
{
    lemma_rank(num, order, gaps[i], limit, ranks[i]);
    assert forall|j: int| 0 <= j < gaps.len() implies num(gaps[i]) <= num(#[trigger] gaps[j]) by {
        lemma_rank(num, order, gaps[j], limit, ranks[j]);
        if let Some(other) = ranks[j] {
            assert(ranks[i]->Some_0 <= other);
            assert(call_ensures(order.key, (&gaps[i],), ranks[i]->Some_0));
            assert(call_ensures(order.key, (&gaps[j],), other));
        }
    }
    assert forall|j: int| 0 <= j < i implies num(gaps[i]) < num(#[trigger] gaps[j]) by {
        lemma_rank(num, order, gaps[j], limit, ranks[j]);
        if let Some(other) = ranks[j] {
            assert(ranks[i]->Some_0 < other);
            assert(call_ensures(order.key, (&gaps[i],), ranks[i]->Some_0));
            assert(call_ensures(order.key, (&gaps[j],), other));
        }
    }
}

/// The point that is snapped to is the nearest one: with exact arithmetic it is
/// within the limit, and no other is nearer; of several it is the one in the
/// first slot. None is found only where all are farther off than the limit. `far` gives how far each point is off.
pub proof fn lemma_nearest_point<
    T: Copy,
    E: Fn(&Expr<T>, &Vec<T>) -> T,
    M: Fn(&T, &T) -> bool,
    Q: Fn(&T) -> i64,
>(
    num: spec_fn(T) -> real,
    sketch: Sketch<T>,
    pos: [T; 2],
    limit: T,
    eval: E,
    order: Order<M, Q>,
    found: Option<(PointId, [T; 2])>,
    far: spec_fn(u64) -> real,
)
    requires
        sketch.wf(),
        exact_eval(num, eval),
        exact_order(num, order),
        is_nearest(sketch@, pos, limit, eval, order, found),
        forall|p: u64| #[trigger]
            sketch@.points.contains_key(p) ==> is_apart(
                spot_of(num, sketch@, PointId { raw: p }),
                (num(pos[0]), num(pos[1])),
                far(p),
            ),
    ensures
        match found {
            Some((id, place)) => {
                &&& sketch@.points.contains_key(id.raw)
                &&& (num(place[0]), num(place[1])) == spot_of(num, sketch@, id)
                &&& far(id.raw) <= num(limit)
                &&& forall|p: u64| #[trigger]
                    sketch@.points.contains_key(p) ==> far(id.raw) <= far(p)
                &&& forall|p: u64| #[trigger]
                    sketch@.points.contains_key(p) && far(p) == far(id.raw) ==> id.raw
                        % 0x1_0000_0000 <= p % 0x1_0000_0000
            },
            None => forall|p: u64| #[trigger]
                sketch@.points.contains_key(p) ==> num(limit) < far(p),
        },
{
    let view = sketch@;
    let keys = slot_order(view.points.dom());
    sketch.lemma_orders();
    let (gaps, ranks) = choose|gaps: Seq<T>, ranks: Seq<Option<i64>>| #[trigger]
        point_ranks(view, pos, limit, eval, order, gaps, ranks) && match found {
            Some((id, place)) => exists|i: int| #[trigger]
                is_first_least(ranks, i) && id.raw == keys[i] && place == view.position(id),
            None => forall|i: int| 0 <= i < ranks.len() ==> #[trigger] ranks[i] is None,
        };
    assert forall|i: int| 0 <= i < keys.len() implies num(#[trigger] gaps[i]) == far(keys[i])
        && view.points.contains_key(keys[i]) by {
        assert(keys.contains(keys[i]));
        assert(view.points.dom().contains(keys[i]));
        assert(view.points.contains_key(keys[i]));
        let meaning = |at: Reading<T>| point_gap(view, keys[i], pos, at);
        assert(computes(eval, meaning, view.vars, gaps[i]));
        assert(num(gaps[i]) == meaning(reading(num, view.vars)));
        let a = spot_of(num, view, PointId { raw: keys[i] });
        lemma_root_is(far(keys[i]), dist_sq(a.0, a.1, num(pos[0]), num(pos[1])));
    }
    assert forall|p: u64| #[trigger] view.points.contains_key(p) implies exists|i: int|
        0 <= i < keys.len() && #[trigger] keys[i] == p by {
        assert(view.points.dom().contains(p));
        assert(keys.contains(p));
    }
    match found {
        Some((id, place)) => {
            let i = choose|i: int| #[trigger]
                is_first_least(ranks, i) && id.raw == keys[i] && place == view.position(id);
            lemma_first(num, order, gaps, limit, ranks, i);
            assert(num(gaps[i]) == far(keys[i]));
            assert forall|p: u64| #[trigger] view.points.contains_key(p) implies far(id.raw)
                <= far(p) by {
                let j = choose|j: int| 0 <= j < keys.len() && #[trigger] keys[j] == p;
                assert(num(gaps[j]) == far(keys[j]));
            }
            assert forall|p: u64| #[trigger] view.points.contains_key(p) && far(p) == far(
                id.raw,
            ) implies id.raw % 0x1_0000_0000 <= p % 0x1_0000_0000 by {
                let j = choose|j: int| 0 <= j < keys.len() && #[trigger] keys[j] == p;
                assert(num(gaps[j]) == far(keys[j]));
                if i < j {
                    assert(slot_index(keys[i]) < slot_index(keys[j]));
                }
            }
        },
        None => {
            assert forall|p: u64| #[trigger] view.points.contains_key(p) implies num(limit) < far(
                p,
            ) by {
                let j = choose|j: int| 0 <= j < keys.len() && #[trigger] keys[j] == p;
                assert(ranks[j] is None);
                lemma_rank(num, order, gaps[j], limit, ranks[j]);
                assert(num(gaps[j]) == far(keys[j]));
            }
        },
    }
}

/// How far a place is off an entity, in exact arithmetic.
proof fn lemma_gap<T>(
    num: spec_fn(T) -> real,
    view: SketchView<T>,
    entity: SketchEntity,
    pos: [T; 2],
    far: real,
)
    requires
        is_off(num, view, entity, (num(pos[0]), num(pos[1])), far),
    ensures
        entity_gap(view, entity, pos, reading(num, view.vars)) == far,
{
    let at = reading(num, view.vars);
    let p = (num(pos[0]), num(pos[1]));
    match entity {
        SketchEntity::Line { p1, p2 } => {
            let (a, b) = (spot_of(num, view, p1), spot_of(num, view, p2));
            let t = foot(p.0, p.1, a.0, a.1, b.0, b.1);
            let there = on_way(a, b, t);
            assert(entity_gap(view, entity, pos, at) == root(
                dist_sq(p.0, p.1, there.0, there.1),
            ));
            if (b.0 - a.0) * (b.0 - a.0) + (b.1 - a.1) * (b.1 - a.1) <= epsilon() {
                assert(t == 0real);
                lemma_times(t, b.0 - a.0);
                lemma_times(t, b.1 - a.1);
                assert(there == a);
            } else {
                let s = choose|s: real|
                    0real <= s <= 1real && is_apart(p, #[trigger] on_way(a, b, s), far);
                lemma_foot_is_nearest(p.0, p.1, a.0, a.1, b.0, b.1, s);
                let here = on_way(a, b, s);
                assert(far * far == dist_sq(p.0, p.1, here.0, here.1));
                assert(far * far <= dist_sq(p.0, p.1, there.0, there.1));
            }
            lemma_root_is(far, dist_sq(p.0, p.1, there.0, there.1));
        },
        SketchEntity::Circle { center, radius } => {
            let c = spot_of(num, view, center);
            let r = num(view.vars[radius.index as int]);
            let d = choose|d: real| #[trigger] is_apart(c, p, d) && far == magnitude(d - r);
            lemma_root_is(d, dist_sq(c.0, c.1, p.0, p.1));
        },
    }
}

/// The entity that is picked is the nearest one: with exact arithmetic it is
/// within the limit, and no other is nearer; of several it is the one in the
/// first slot. None is found only where all are farther off than the limit. `far` gives how far each entity is off.
pub proof fn lemma_nearest_entity<
    T: Copy,
    E: Fn(&Expr<T>, &Vec<T>) -> T,
    M: Fn(&T, &T) -> bool,
    Q: Fn(&T) -> i64,
>(
    num: spec_fn(T) -> real,
    sketch: Sketch<T>,
    pos: [T; 2],
    limit: T,
    eval: E,
    order: Order<M, Q>,
    found: Option<EntityId>,
    far: spec_fn(u64) -> real,
)
    requires
        sketch.wf(),
        exact_eval(num, eval),
        exact_order(num, order),
        is_hit(sketch@, pos, limit, eval, order, found),
        forall|e: u64| #[trigger]
            sketch@.entities.contains_key(e) ==> is_off(
                num,
                sketch@,
                sketch@.entities[e],
                (num(pos[0]), num(pos[1])),
                far(e),
            ),
    ensures
        match found {
            Some(id) => {
                &&& sketch@.entities.contains_key(id.raw)
                &&& far(id.raw) <= num(limit)
                &&& forall|e: u64| #[trigger]
                    sketch@.entities.contains_key(e) ==> far(id.raw) <= far(e)
                &&& forall|e: u64| #[trigger]
                    sketch@.entities.contains_key(e) && far(e) == far(id.raw) ==> id.raw
                        % 0x1_0000_0000 <= e % 0x1_0000_0000
            },
            None => forall|e: u64| #[trigger]
                sketch@.entities.contains_key(e) ==> num(limit) < far(e),
        },
{
    let view = sketch@;
    let keys = slot_order(view.entities.dom());
    sketch.lemma_orders();
    let (gaps, ranks) = choose|gaps: Seq<T>, ranks: Seq<Option<i64>>| #[trigger]
        entity_ranks(view, pos, limit, eval, order, gaps, ranks) && match found {
            Some(id) => exists|i: int| #[trigger] is_first_least(ranks, i) && id.raw == keys[i],
            None => forall|i: int| 0 <= i < ranks.len() ==> #[trigger] ranks[i] is None,
        };
    assert forall|i: int| 0 <= i < keys.len() implies num(#[trigger] gaps[i]) == far(keys[i])
        && view.entities.contains_key(keys[i]) by {
        assert(keys.contains(keys[i]));
        assert(view.entities.dom().contains(keys[i]));
        assert(view.entities.contains_key(keys[i]));
        let meaning = |at: Reading<T>| entity_gap(view, view.entities[keys[i]], pos, at);
        assert(computes(eval, meaning, view.vars, gaps[i]));
        assert(num(gaps[i]) == meaning(reading(num, view.vars)));
        lemma_gap(num, view, view.entities[keys[i]], pos, far(keys[i]));
    }
    assert forall|e: u64| #[trigger] view.entities.contains_key(e) implies exists|i: int|
        0 <= i < keys.len() && #[trigger] keys[i] == e by {
        assert(view.entities.dom().contains(e));
        assert(keys.contains(e));
    }
    match found {
        Some(id) => {
            let i = choose|i: int| #[trigger] is_first_least(ranks, i) && id.raw == keys[i];
            lemma_first(num, order, gaps, limit, ranks, i);
            assert(num(gaps[i]) == far(keys[i]));
            assert forall|e: u64| #[trigger] view.entities.contains_key(e) implies far(id.raw)
                <= far(e) by {
                let j = choose|j: int| 0 <= j < keys.len() && #[trigger] keys[j] == e;
                assert(num(gaps[j]) == far(keys[j]));
            }
            assert forall|e: u64| #[trigger] view.entities.contains_key(e) && far(e) == far(
                id.raw,
            ) implies id.raw % 0x1_0000_0000 <= e % 0x1_0000_0000 by {
                let j = choose|j: int| 0 <= j < keys.len() && #[trigger] keys[j] == e;
                assert(num(gaps[j]) == far(keys[j]));
                if i < j {
                    assert(slot_index(keys[i]) < slot_index(keys[j]));
                }
            }
        },
        None => {
            assert forall|e: u64| #[trigger] view.entities.contains_key(e) implies num(limit)
                < far(e) by {
                let j = choose|j: int| 0 <= j < keys.len() && #[trigger] keys[j] == e;
                assert(ranks[j] is None);
                lemma_rank(num, order, gaps[j], limit, ranks[j]);
                assert(num(gaps[j]) == far(keys[j]));
            }
        },
    }
}

/// The order of numbers by their bits: negative numbers come before positive
/// ones, of two positive ones the smaller magnitude comes first, and of two
/// negative ones the larger.
pub proof fn lemma_order_of_bits(a: u64, b: u64)
    ensures
        ({
            let negative = |x: u64| x >= 0x8000_0000_0000_0000;
            let size = |x: u64| x % 0x8000_0000_0000_0000;
            place_of_bits(a) < place_of_bits(b) <==> if negative(a) {
                !negative(b) || size(a) > size(b)
            } else {
                !negative(b) && size(a) < size(b)
            }
        }),
{
}

} // verus!
