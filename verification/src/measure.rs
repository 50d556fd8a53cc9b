//! Distances in a sketch: snapping to points and picking entities.
use vstd::prelude::*;

use crate::arith::{
    Order, computes, evaluates_all, first_least, is_first_least, is_rank, means, orders_all,
    rank_within,
};
use crate::constraint::dist_sq;
use crate::expr::{Expr, Reading, clamped, epsilon, magnitude, root};
use crate::ids::{EntityId, PointId, VarId};
use crate::sketch::{Sketch, SketchEntity, SketchView, attached};
use crate::slots::{in_slot_order, slot_order};

verus! {

/// Distance of two points of the plane.
pub open spec fn distance(ax: real, ay: real, bx: real, by: real) -> real {
    root(dist_sq(ax, ay, bx, by))
}

/// Where on the segment from `a` to `b` the nearest point to `p` lies, as a
/// fraction of the segment.
pub open spec fn foot(px: real, py: real, ax: real, ay: real, bx: real, by: real) -> real {
    let len_sq = (bx - ax) * (bx - ax) + (by - ay) * (by - ay);
    if len_sq <= epsilon() {
        0real
    } else {
        clamped(((px - ax) * (bx - ax) + (py - ay) * (by - ay)) / len_sq)
    }
}

/// Distance of a point to the segment from `a` to `b`.
pub open spec fn segment_distance(
    px: real,
    py: real,
    ax: real,
    ay: real,
    bx: real,
    by: real,
) -> real {
    let t = foot(px, py, ax, ay, bx, by);
    distance(px, py, ax + t * (bx - ax), ay + t * (by - ay))
}

/// Distance of an entity to a place.
pub open spec fn entity_gap<T>(
    view: SketchView<T>,
    entity: SketchEntity,
    pos: [T; 2],
    at: Reading<T>,
) -> real {
    let (px, py) = ((at.num)(pos[0]), (at.num)(pos[1]));
    match entity {
        SketchEntity::Line { p1, p2 } => segment_distance(
            px,
            py,
            (at.env)(view.points[p1.raw].x),
            (at.env)(view.points[p1.raw].y),
            (at.env)(view.points[p2.raw].x),
            (at.env)(view.points[p2.raw].y),
        ),
        SketchEntity::Circle { center, radius } => magnitude(
            distance(
                (at.env)(view.points[center.raw].x),
                (at.env)(view.points[center.raw].y),
                px,
                py,
            ) - (at.env)(radius),
        ),
    }
}

/// Distance of a point to a place.
pub open spec fn point_gap<T>(view: SketchView<T>, point: u64, pos: [T; 2], at: Reading<T>) -> real {
    distance(
        (at.env)(view.points[point].x),
        (at.env)(view.points[point].y),
        (at.num)(pos[0]),
        (at.num)(pos[1]),
    )
}

/// `gaps` are the distances of all points to a place, in slot order, and
/// `ranks` the ranks of them.
pub open spec fn point_ranks<
    T,
    E: Fn(&Expr<T>, &Vec<T>) -> T,
    M: Fn(&T, &T) -> bool,
    Q: Fn(&T) -> i64,
>(
    view: SketchView<T>,
    pos: [T; 2],
    limit: T,
    eval: E,
    order: Order<M, Q>,
    gaps: Seq<T>,
    ranks: Seq<Option<i64>>,
) -> bool {
    let keys = slot_order(view.points.dom());
    &&& gaps.len() == keys.len()
    &&& ranks.len() == keys.len()
    &&& forall|i: int|
        0 <= i < keys.len() ==> computes(
            eval,
            |at: Reading<T>| point_gap(view, keys[i], pos, at),
            view.vars,
            #[trigger] gaps[i],
        )
    &&& forall|i: int|
        0 <= i < keys.len() ==> is_rank(order, gaps[i], limit, #[trigger] ranks[i])
}

/// `gaps` are the distances of all entities to a place, in slot order, and
/// `ranks` the ranks of them.
pub open spec fn entity_ranks<
    T,
    E: Fn(&Expr<T>, &Vec<T>) -> T,
    M: Fn(&T, &T) -> bool,
    Q: Fn(&T) -> i64,
>(
    view: SketchView<T>,
    pos: [T; 2],
    limit: T,
    eval: E,
    order: Order<M, Q>,
    gaps: Seq<T>,
    ranks: Seq<Option<i64>>,
) -> bool {
    let keys = slot_order(view.entities.dom());
    &&& gaps.len() == keys.len()
    &&& ranks.len() == keys.len()
    &&& forall|i: int|
        0 <= i < keys.len() ==> computes(
            eval,
            |at: Reading<T>| entity_gap(view, view.entities[keys[i]], pos, at),
            view.vars,
            #[trigger] gaps[i],
        )
    &&& forall|i: int|
        0 <= i < keys.len() ==> is_rank(order, gaps[i], limit, #[trigger] ranks[i])
}

/// `found` is the nearest point within the limit: the one of smallest rank,
/// and of several the first in slot order.
pub open spec fn is_nearest<
    T,
    E: Fn(&Expr<T>, &Vec<T>) -> T,
    M: Fn(&T, &T) -> bool,
    Q: Fn(&T) -> i64,
>(
    view: SketchView<T>,
    pos: [T; 2],
    limit: T,
    eval: E,
    order: Order<M, Q>,
    found: Option<(PointId, [T; 2])>,
) -> bool {
    exists|gaps: Seq<T>, ranks: Seq<Option<i64>>| #[trigger]
        point_ranks(view, pos, limit, eval, order, gaps, ranks) && match found {
            Some((id, place)) => exists|i: int| #[trigger]
                is_first_least(ranks, i) && id.raw == slot_order(view.points.dom())[i] && place
                    == view.position(id),
            None => forall|i: int| 0 <= i < ranks.len() ==> #[trigger] ranks[i] is None,
        }
}

/// `found` is the nearest entity within the limit: the one of smallest rank,
/// and of several the first in slot order.
pub open spec fn is_hit<
    T,
    E: Fn(&Expr<T>, &Vec<T>) -> T,
    M: Fn(&T, &T) -> bool,
    Q: Fn(&T) -> i64,
>(
    view: SketchView<T>,
    pos: [T; 2],
    limit: T,
    eval: E,
    order: Order<M, Q>,
    found: Option<EntityId>,
) -> bool {
    exists|gaps: Seq<T>, ranks: Seq<Option<i64>>| #[trigger]
        entity_ranks(view, pos, limit, eval, order, gaps, ranks) && match found {
            Some(id) => exists|i: int| #[trigger]
                is_first_least(ranks, i) && id.raw == slot_order(view.entities.dom())[i],
            None => forall|i: int| 0 <= i < ranks.len() ==> #[trigger] ranks[i] is None,
        }
}

/// `a - b`, where both are given by formulas.
fn gap_of<T>(a: Expr<T>, b: Expr<T>) -> (e: Expr<T>)
    ensures
        forall|at: Reading<T>| #[trigger] e.eval(at) == a.eval(at) - b.eval(at),
{
    Expr::difference(a, b)
}

/// Distance of the point `(x, y)` of variables to a place.
fn dist<T: Copy>(x: VarId, y: VarId, pos: [T; 2]) -> (e: Expr<T>)
    ensures
        forall|at: Reading<T>| #[trigger]
            e.eval(at) == distance((at.env)(x), (at.env)(y), (at.num)(pos[0]), (at.num)(pos[1])),
{
    Expr::sqrt(
        Expr::sum(
            Expr::product(
                gap_of(Expr::var(x), Expr::value(pos[0])),
                gap_of(Expr::var(x), Expr::value(pos[0])),
            ),
            Expr::product(
                gap_of(Expr::var(y), Expr::value(pos[1])),
                gap_of(Expr::var(y), Expr::value(pos[1])),
            ),
        ),
    )
}

/// The number zero.
fn zero<T>() -> (e: Expr<T>)
    ensures
        forall|at: Reading<T>| #[trigger] e.eval(at) == 0real,
{
    assert((0 as int) as real / (1 as int) as real == 0real);
    Expr::ratio(0, 1)
}

/// Squared length of the segment from `a` to `b`.
fn length_sq<T>(ax: VarId, ay: VarId, bx: VarId, by: VarId) -> (e: Expr<T>)
    ensures
        forall|at: Reading<T>| #[trigger]
            e.eval(at) == ((at.env)(bx) - (at.env)(ax)) * ((at.env)(bx) - (at.env)(ax)) + ((at.env)(
                by,
            ) - (at.env)(ay)) * ((at.env)(by) - (at.env)(ay)),
{
    Expr::sum(
        Expr::product(
            gap_of(Expr::var(bx), Expr::var(ax)),
            gap_of(Expr::var(bx), Expr::var(ax)),
        ),
        Expr::product(
            gap_of(Expr::var(by), Expr::var(ay)),
            gap_of(Expr::var(by), Expr::var(ay)),
        ),
    )
}

/// The fraction of the segment at which the nearest point to a place lies.
fn foot_of<T: Copy>(pos: [T; 2], ax: VarId, ay: VarId, bx: VarId, by: VarId) -> (e: Expr<T>)
    ensures
        forall|at: Reading<T>| #[trigger]
            e.eval(at) == foot(
                (at.num)(pos[0]),
                (at.num)(pos[1]),
                (at.env)(ax),
                (at.env)(ay),
                (at.env)(bx),
                (at.env)(by),
            ),
{
    let dot = Expr::sum(
        Expr::product(
            gap_of(Expr::value(pos[0]), Expr::var(ax)),
            gap_of(Expr::var(bx), Expr::var(ax)),
        ),
        Expr::product(
            gap_of(Expr::value(pos[1]), Expr::var(ay)),
            gap_of(Expr::var(by), Expr::var(ay)),
        ),
    );
    Expr::if_tiny(
        length_sq(ax, ay, bx, by),
        zero(),
        Expr::clamp(Expr::quotient(dot, length_sq(ax, ay, bx, by))),
    )
}

/// One coordinate of the nearest point of the segment: `a + t * (b - a)`.
fn along<T>(a: VarId, b: VarId, t: Expr<T>) -> (e: Expr<T>)
    ensures
        forall|at: Reading<T>| #[trigger]
            e.eval(at) == (at.env)(a) + t.eval(at) * ((at.env)(b) - (at.env)(a)),
{
    Expr::sum(Expr::var(a), Expr::product(t, gap_of(Expr::var(b), Expr::var(a))))
}

/// Distance of a place to the segment from `a` to `b`.
fn dist_point_segment<T: Copy>(pos: [T; 2], ax: VarId, ay: VarId, bx: VarId, by: VarId) -> (e: Expr<
    T,
>)
    ensures
        forall|at: Reading<T>| #[trigger]
            e.eval(at) == segment_distance(
                (at.num)(pos[0]),
                (at.num)(pos[1]),
                (at.env)(ax),
                (at.env)(ay),
                (at.env)(bx),
                (at.env)(by),
            ),
{
    let dx = gap_of(Expr::value(pos[0]), along(ax, bx, foot_of(pos, ax, ay, bx, by)));
    let dx_again = gap_of(Expr::value(pos[0]), along(ax, bx, foot_of(pos, ax, ay, bx, by)));
    let dy = gap_of(Expr::value(pos[1]), along(ay, by, foot_of(pos, ax, ay, bx, by)));
    let dy_again = gap_of(Expr::value(pos[1]), along(ay, by, foot_of(pos, ax, ay, bx, by)));
    Expr::sqrt(Expr::sum(Expr::product(dx, dx_again), Expr::product(dy, dy_again)))
}

impl<T: Copy> Sketch<T> {
    /// The nearest point whose distance to `pos` is at most `max_dist`, and of
    /// several the first.
    pub fn nearest_point<
        E: Fn(&Expr<T>, &Vec<T>) -> T,
        M: Fn(&T, &T) -> bool,
        Q: Fn(&T) -> i64,
    >(&self, pos: [T; 2], max_dist: T, eval: &E, order: &Order<M, Q>) -> (found: Option<
        (PointId, [T; 2]),
    >)
        requires
            self.wf(),
            self@.readable(),
            evaluates_all(*eval),
            orders_all(*order),
        ensures
            is_nearest(self@, pos, max_dist, *eval, *order, found),
            found matches Some((id, place)) ==> self@.points.contains_key(id.raw) && place
                == self@.position(id),
    {
        let list = self.points();
        let vars = self.var_values();
        let ghost keys = slot_order(self@.points.dom());
        let mut gaps: Vec<T> = Vec::new();
        let mut ranks: Vec<Option<i64>> = Vec::new();
        let mut i: usize = 0;
        while i < list.len()
            invariant
                self.wf(),
                self@.readable(),
                evaluates_all(*eval),
                orders_all(*order),
                vars@ == self@.vars,
                keys == slot_order(self@.points.dom()),
                in_slot_order(keys, self@.points.dom()),
                list@.len() == keys.len(),
                forall|j: int| 0 <= j < list@.len() ==> (#[trigger] list@[j]).0.raw == keys[j],
                i <= list@.len(),
                gaps@.len() == i,
                ranks@.len() == i,
                forall|j: int|
                    0 <= j < i ==> computes(
                        *eval,
                        |at: Reading<T>| point_gap(self@, keys[j], pos, at),
                        self@.vars,
                        #[trigger] gaps@[j],
                    ),
                forall|j: int|
                    0 <= j < i ==> is_rank(*order, gaps@[j], max_dist, #[trigger] ranks@[j]),
            decreases list@.len() - i,
        {
            assert(keys.contains(keys[i as int]));
            assert(self@.points.contains_key(keys[i as int]));
            let gap = match self.point(list[i].0) {
                Some(p) => dist(p.x, p.y, pos),
                None => zero(),
            };
            let value = eval(&gap, &vars);
            assert(means(gap, |at: Reading<T>| point_gap(self@, keys[i as int], pos, at)));
            let place = rank_within(order, &value, &max_dist);
            gaps.push(value);
            ranks.push(place);
            i = i + 1;
        }
        assert(point_ranks(self@, pos, max_dist, *eval, *order, gaps@, ranks@));
        match first_least(&ranks) {
            Some(best) => {
                assert(is_first_least(ranks@, best as int));
                assert(keys.contains(keys[best as int]));
                assert(self@.points.contains_key(keys[best as int]));
                Some(list[best])
            },
            None => None,
        }
    }
}

impl<T: Copy> Sketch<T> {
    /// Formula of the distance of an entity to a place.
    fn entity_distance(&self, entity: &SketchEntity, pos: [T; 2]) -> (e: Expr<T>)
        requires
            self.wf(),
            forall|p: PointId| #[trigger]
                attached(*entity, p) ==> self@.points.contains_key(p.raw),
        ensures
            means(e, |at: Reading<T>| entity_gap(self@, *entity, pos, at)),
    {
        match *entity {
            SketchEntity::Line { p1, p2 } => {
                assert(attached(*entity, p1) && attached(*entity, p2));
                match (self.point(p1), self.point(p2)) {
                    (Some(a), Some(b)) => dist_point_segment(pos, a.x, a.y, b.x, b.y),
                    _ => zero(),
                }
            },
            SketchEntity::Circle { center, radius } => {
                assert(attached(*entity, center));
                match self.point(center) {
                    Some(c) => Expr::abs(gap_of(dist(c.x, c.y, pos), Expr::var(radius))),
                    None => zero(),
                }
            },
        }
    }

    /// The nearest entity whose distance to `pos` is at most `tol`, and of
    /// several the first.
    pub fn hit_test<
        E: Fn(&Expr<T>, &Vec<T>) -> T,
        M: Fn(&T, &T) -> bool,
        Q: Fn(&T) -> i64,
    >(
        &self,
        pos: [T; 2],
        tol: T,
        eval: &E,
        order: &Order<M, Q>,
    ) -> (found: Option<EntityId>)
        requires
            self.wf(),
            self@.measurable(),
            evaluates_all(*eval),
            orders_all(*order),
        ensures
            is_hit(self@, pos, tol, *eval, *order, found),
            found matches Some(id) ==> self@.entities.contains_key(id.raw),
    {
        let list = self.entities();
        let vars = self.var_values();
        let ghost keys = slot_order(self@.entities.dom());
        let mut gaps: Vec<T> = Vec::new();
        let mut ranks: Vec<Option<i64>> = Vec::new();
        let mut i: usize = 0;
        while i < list.len()
            invariant
                self.wf(),
                self@.measurable(),
                evaluates_all(*eval),
                orders_all(*order),
                vars@ == self@.vars,
                keys == slot_order(self@.entities.dom()),
                in_slot_order(keys, self@.entities.dom()),
                list@.len() == keys.len(),
                forall|j: int|
                    0 <= j < list@.len() ==> #[trigger] list@[j] == (
                        EntityId { raw: keys[j] },
                        self@.entities[keys[j]],
                    ),
                i <= list@.len(),
                gaps@.len() == i,
                ranks@.len() == i,
                forall|j: int|
                    0 <= j < i ==> computes(
                        *eval,
                        |at: Reading<T>| entity_gap(self@, self@.entities[keys[j]], pos, at),
                        self@.vars,
                        #[trigger] gaps@[j],
                    ),
                forall|j: int|
                    0 <= j < i ==> is_rank(*order, gaps@[j], tol, #[trigger] ranks@[j]),
            decreases list@.len() - i,
        {
            assert(keys.contains(keys[i as int]));
            assert(self@.entities.contains_key(keys[i as int]));
            let entity = list[i].1;
            let gap = self.entity_distance(&entity, pos);
            let value = eval(&gap, &vars);
            let place = rank_within(order, &value, &tol);
            gaps.push(value);
            ranks.push(place);
            i = i + 1;
        }
        assert(entity_ranks(self@, pos, tol, *eval, *order, gaps@, ranks@));
        match first_least(&ranks) {
            Some(best) => {
                assert(is_first_least(ranks@, best as int));
                assert(keys.contains(keys[best as int]));
                assert(self@.entities.contains_key(keys[best as int]));
                Some(list[best].0)
            },
            None => None,
        }
    }
}

proof fn lemma_square_apart(p: real, u: real, t: real)
    ensures
        (p - t * u) * (p - t * u) == p * p - 2real * (t * (p * u)) + (t * t) * (u * u),
{
    let w = t * u;
    assert((p - w) * (p - w) == p * p - 2real * (p * w) + w * w) by (nonlinear_arith);
    assert(p * (t * u) == t * (p * u)) by (nonlinear_arith);
    assert((t * u) * (t * u) == (t * t) * (u * u)) by (nonlinear_arith);
}

/// The square of the distance of `p` to the point of the segment at a
/// fraction, as a polynomial in the fraction.
proof fn lemma_apart(px: real, py: real, ax: real, ay: real, bx: real, by: real, t: real)
    ensures
        ({
            let (u, v, p, q) = (bx - ax, by - ay, px - ax, py - ay);
            dist_sq(px, py, ax + t * u, ay + t * v) == (p * p + q * q) - 2real * (t * (p * u + q
                * v)) + (t * t) * (u * u + v * v)
        }),
{
    let (u, v, p, q) = (bx - ax, by - ay, px - ax, py - ay);
    lemma_square_apart(p, u, t);
    lemma_square_apart(q, v, t);
    assert(px - (ax + t * u) == p - t * u);
    assert(py - (ay + t * v) == q - t * v);
    let (d, e) = (p * u, q * v);
    assert(t * (d + e) == t * d + t * e) by (nonlinear_arith);
    let (m, n, tt) = (u * u, v * v, t * t);
    assert(tt * (m + n) == tt * m + tt * n) by (nonlinear_arith);
}

/// No point of a segment is nearer than the one that the distance is measured
/// to. This holds of segments that are longer than the square root of the
/// machine epsilon; of shorter ones the first end is taken.
pub proof fn lemma_foot_is_nearest(
    px: real,
    py: real,
    ax: real,
    ay: real,
    bx: real,
    by: real,
    s: real,
)
    requires
        (bx - ax) * (bx - ax) + (by - ay) * (by - ay) > epsilon(),
        0real <= s <= 1real,
    ensures
        ({
            let t = foot(px, py, ax, ay, bx, by);
            &&& 0real <= t <= 1real
            &&& dist_sq(px, py, ax + t * (bx - ax), ay + t * (by - ay)) <= dist_sq(
                px,
                py,
                ax + s * (bx - ax),
                ay + s * (by - ay),
            )
        }),
{
    let (u, v, p, q) = (bx - ax, by - ay, px - ax, py - ay);
    let len = u * u + v * v;
    let d = p * u + q * v;
    let k = d / len;
    let t = foot(px, py, ax, ay, bx, by);
    assert(len > 0real);
    assert(d == k * len) by (nonlinear_arith)
        requires
            k == d / len,
            len > 0real,
    ;
    lemma_apart(px, py, ax, ay, bx, by, s);
    lemma_apart(px, py, ax, ay, bx, by, t);
    lemma_fraction(s, k);
    let gap = (s - t) * (s + t - 2real * k);
    lemma_polynomials(s, t, k, len);
    lemma_positive_product(len, gap);
}

proof fn lemma_positive_product(a: real, b: real)
    requires
        a > 0real,
        b >= 0real,
    ensures
        a * b >= 0real,
{
    assert(a * b >= 0real) by (nonlinear_arith)
        requires
            a > 0real,
            b >= 0real,
    ;
}

/// Of all fractions between zero and one, the one nearest to `k` is the best.
proof fn lemma_fraction(s: real, k: real)
    requires
        0real <= s <= 1real,
    ensures
        (s - clamped(k)) * (s + clamped(k) - 2real * k) >= 0real,
{
    let t = clamped(k);
    let (x, y) = (s - t, s + t - 2real * k);
    if k < 0real {
        assert(x >= 0real && y >= 0real);
        assert(x * y >= 0real) by (nonlinear_arith)
            requires
                x >= 0real,
                y >= 0real,
        ;
    } else if k > 1real {
        assert(x <= 0real && y <= 0real);
        assert(x * y >= 0real) by (nonlinear_arith)
            requires
                x <= 0real,
                y <= 0real,
        ;
    } else {
        assert(x == y);
        assert(x * x >= 0real) by (nonlinear_arith);
    }
}

/// The difference of the polynomials at two fractions.
proof fn lemma_polynomials(s: real, t: real, k: real, len: real)
    ensures
        len * ((s - t) * (s + t - 2real * k)) == ((s * s) * len - 2real * (s * (k * len))) - ((t * t)
            * len - 2real * (t * (k * len))),
{
    let (ss, tt, sk, tk) = (s * s, t * t, s * k, t * k);
    assert((s - t) * (s + t) == s * s - t * t) by (nonlinear_arith);
    assert((s - t) * (2real * k) == 2real * (s * k) - 2real * (t * k)) by (nonlinear_arith);
    let (a, b, c) = (s - t, s + t, 2real * k);
    assert(a * (b - c) == a * b - a * c) by (nonlinear_arith);
    assert((s - t) * (s + t - 2real * k) == (ss - tt) - (2real * sk - 2real * tk));
    assert(len * ((ss - tt) - (2real * sk - 2real * tk)) == len * ss - len * tt - 2real * (len * sk)
        + 2real * (len * tk)) by (nonlinear_arith);
    assert(len * ss == ss * len) by (nonlinear_arith);
    assert(len * tt == tt * len) by (nonlinear_arith);
    assert(len * (s * k) == s * (k * len)) by (nonlinear_arith);
    assert(len * (t * k) == t * (k * len)) by (nonlinear_arith);
}

} // verus!
