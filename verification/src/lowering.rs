//! From constraints to scalar equations.
use vstd::prelude::*;

use crate::constraint::{Constraint, EqKind, Equation, Weight, dist_sq, residual_of};
use crate::expr::Reading;
use crate::ids::{EntityId, PointId, VarId};
use crate::sketch::{Sketch, SketchEntity, SketchPoint, SketchView};
use crate::slots::slot_order;

verus! {

/// Variables of the end points of a line, if the line and its points exist.
pub open spec fn line_vars(
    points: Map<u64, SketchPoint>,
    entities: Map<u64, SketchEntity>,
    id: EntityId,
) -> Option<[VarId; 4]> {
    if entities.contains_key(id.raw) {
        match entities[id.raw] {
            SketchEntity::Line { p1, p2 } => {
                if points.contains_key(p1.raw) && points.contains_key(p2.raw) {
                    let (a, b) = (points[p1.raw], points[p2.raw]);
                    Some([a.x, a.y, b.x, b.y])
                } else {
                    None
                }
            },
            SketchEntity::Circle { .. } => None,
        }
    } else {
        None
    }
}

/// Variables of the end points of two lines.
pub open spec fn pair_vars(
    points: Map<u64, SketchPoint>,
    entities: Map<u64, SketchEntity>,
    l1: EntityId,
    l2: EntityId,
) -> Option<[VarId; 8]> {
    match (line_vars(points, entities, l1), line_vars(points, entities, l2)) {
        (Some(a), Some(b)) => Some([a[0], a[1], a[2], a[3], b[0], b[1], b[2], b[3]]),
        _ => None,
    }
}

/// An equation of full weight.
pub open spec fn full<T>(kind: EqKind<T>) -> Equation<T> {
    Equation { kind, weight: Weight::Full }
}

/// The equations that a constraint stands for; none if what it refers to does
/// not exist.
pub open spec fn equations_of<T>(
    points: Map<u64, SketchPoint>,
    entities: Map<u64, SketchEntity>,
    c: Constraint<T>,
) -> Seq<Equation<T>> {
    match c {
        Constraint::Coincident(p, q) => if points.contains_key(p.raw) && points.contains_key(
            q.raw,
        ) {
            seq![
                full(EqKind::Diff(points[p.raw].x, points[q.raw].x)),
                full(EqKind::Diff(points[p.raw].y, points[q.raw].y)),
            ]
        } else {
            seq![]
        },
        Constraint::Horizontal(l) => match line_vars(points, entities, l) {
            Some(v) => seq![full(EqKind::Diff(v[1], v[3]))],
            None => seq![],
        },
        Constraint::Vertical(l) => match line_vars(points, entities, l) {
            Some(v) => seq![full(EqKind::Diff(v[0], v[2]))],
            None => seq![],
        },
        Constraint::Parallel(l1, l2) => match pair_vars(points, entities, l1, l2) {
            Some(v) => seq![full(EqKind::Cross(v))],
            None => seq![],
        },
        Constraint::Perpendicular(l1, l2) => match pair_vars(points, entities, l1, l2) {
            Some(v) => seq![full(EqKind::Dot(v))],
            None => seq![],
        },
        Constraint::Distance(p, q, d) => if points.contains_key(p.raw) && points.contains_key(
            q.raw,
        ) {
            let (a, b) = (points[p.raw], points[q.raw]);
            seq![full(EqKind::DistSq([a.x, a.y, b.x, b.y], d))]
        } else {
            seq![]
        },
        Constraint::Radius(circle, r) => if entities.contains_key(circle.raw) {
            match entities[circle.raw] {
                SketchEntity::Circle { radius, .. } => seq![full(EqKind::Value(radius, r))],
                SketchEntity::Line { .. } => seq![],
            }
        } else {
            seq![]
        },
        Constraint::Equal(l1, l2) => match pair_vars(points, entities, l1, l2) {
            Some(v) => seq![full(EqKind::EqualLenSq(v))],
            None => seq![],
        },
    }
}

/// The equations of the constraints under the given keys, one after the other.
pub open spec fn equations_under<T>(view: SketchView<T>, keys: Seq<u64>) -> Seq<Equation<T>>
    decreases keys.len(),
{
    if keys.len() == 0 {
        seq![]
    } else {
        equations_under(view, keys.drop_last()) + equations_of(
            view.points,
            view.entities,
            view.constraints[keys.last()],
        )
    }
}

/// The equations of all constraints, in slot order.
pub open spec fn all_equations<T>(view: SketchView<T>) -> Seq<Equation<T>> {
    equations_under(view, slot_order(view.constraints.dom()))
}

/// What a constraint demands of the geometry. `at` gives the real number
/// behind each variable.
pub open spec fn is_met<T>(
    points: Map<u64, SketchPoint>,
    entities: Map<u64, SketchEntity>,
    c: Constraint<T>,
    at: Reading<T>,
) -> bool {
    let env = at.env;
    let place = |p: PointId| (env(points[p.raw].x), env(points[p.raw].y));
    let end = |l: EntityId, first: bool|
        place(
            if first {
                entities[l.raw]->p1
            } else {
                entities[l.raw]->p2
            },
        );
    let dir = |l: EntityId| (end(l, false).0 - end(l, true).0, end(l, false).1 - end(l, true).1);
    match c {
        Constraint::Coincident(p, q) => place(p) == place(q),
        Constraint::Horizontal(l) => end(l, true).1 == end(l, false).1,
        Constraint::Vertical(l) => end(l, true).0 == end(l, false).0,
        Constraint::Parallel(l1, l2) => dir(l1).0 * dir(l2).1 == dir(l1).1 * dir(l2).0,
        Constraint::Perpendicular(l1, l2) => dir(l1).0 * dir(l2).0 + dir(l1).1 * dir(l2).1 == 0real,
        Constraint::Distance(p, q, d) => dist_sq(place(p).0, place(p).1, place(q).0, place(q).1)
            == (at.num)(d) * (at.num)(d),
        Constraint::Radius(circle, r) => env(entities[circle.raw]->radius) == (at.num)(r),
        Constraint::Equal(l1, l2) => dir(l1).0 * dir(l1).0 + dir(l1).1 * dir(l1).1 == dir(l2).0
            * dir(l2).0 + dir(l2).1 * dir(l2).1,
    }
}

/// The geometry meets a valid constraint exactly when all residuals of its
/// equations are zero.
pub proof fn lemma_met_iff_residuals_vanish<T>(
    view: SketchView<T>,
    c: Constraint<T>,
    at: Reading<T>,
)
    requires
        view.linked(),
        crate::sketch::constraint_check(view.points, view.entities, c) is Ok,
    ensures
        is_met(view.points, view.entities, c, at) <==> forall|i: int|
            0 <= i < equations_of(view.points, view.entities, c).len() ==> residual_of(
                (#[trigger] equations_of(view.points, view.entities, c)[i]).kind,
                at,
            ) == 0real,
        equations_of(view.points, view.entities, c).len() > 0,
{
    let eqs = equations_of(view.points, view.entities, c);
    let env = at.env;
    assert forall|l: EntityId| view.entities.contains_key(l.raw) && view.entities[l.raw] is Line implies
        line_vars(view.points, view.entities, l) is Some by {
        let e = view.entities[l.raw];
        assert(crate::sketch::attached(e, e->p1));
        assert(crate::sketch::attached(e, e->p2));
    }
    match c {
        Constraint::Coincident(..) => {
            assert(eqs[0].kind is Diff && eqs[1].kind is Diff);
        },
        Constraint::Equal(l1, l2) => {
            let v = pair_vars(view.points, view.entities, l1, l2)->Some_0;
            lemma_gap_square(env(v[0]), env(v[2]));
            lemma_gap_square(env(v[1]), env(v[3]));
            lemma_gap_square(env(v[4]), env(v[6]));
            lemma_gap_square(env(v[5]), env(v[7]));
            assert(eqs[0].kind is EqualLenSq);
        },
        _ => {
            assert(eqs.len() == 1);
            assert(eqs[0] == eqs[0]);
        },
    }
}

proof fn lemma_gap_square(a: real, b: real)
    ensures
        (a - b) * (a - b) == (b - a) * (b - a),
{
    assert((a - b) * (a - b) == (b - a) * (b - a)) by (nonlinear_arith);
}

impl<T: Copy> Sketch<T> {
    fn line_variables(&self, id: EntityId) -> (vars: Option<[VarId; 4]>)
        requires
            self.wf(),
        ensures
            vars == line_vars(self@.points, self@.entities, id),
    {
        match self.entity(id) {
            Some(SketchEntity::Line { p1, p2 }) => {
                match (self.point(p1), self.point(p2)) {
                    (Some(a), Some(b)) => {
                        let vars = [a.x, a.y, b.x, b.y];
                        assert(vars@ =~= line_vars(self@.points, self@.entities, id)->Some_0@);
                        Some(vars)
                    },
                    _ => None,
                }
            },
            _ => None,
        }
    }

    fn pair_variables(&self, l1: EntityId, l2: EntityId) -> (vars: Option<[VarId; 8]>)
        requires
            self.wf(),
        ensures
            vars == pair_vars(self@.points, self@.entities, l1, l2),
    {
        match (self.line_variables(l1), self.line_variables(l2)) {
            (Some(a), Some(b)) => {
                let vars = [a[0], a[1], a[2], a[3], b[0], b[1], b[2], b[3]];
                assert(vars@ =~= pair_vars(self@.points, self@.entities, l1, l2)->Some_0@);
                Some(vars)
            },
            _ => None,
        }
    }

    /// Adds the equations of a constraint to the list.
    pub fn lower_constraint(&self, c: &Constraint<T>, out: &mut Vec<Equation<T>>)
        requires
            self.wf(),
        ensures
            final(out)@ == old(out)@ + equations_of(self@.points, self@.entities, *c),
    {
        match *c {
            Constraint::Coincident(p, q) => {
                if let (Some(a), Some(b)) = (self.point(p), self.point(q)) {
                    out.push(Equation::new(EqKind::Diff(a.x, b.x)));
                    out.push(Equation::new(EqKind::Diff(a.y, b.y)));
                }
            },
            Constraint::Horizontal(l) => {
                if let Some(v) = self.line_variables(l) {
                    out.push(Equation::new(EqKind::Diff(v[1], v[3])));
                }
            },
            Constraint::Vertical(l) => {
                if let Some(v) = self.line_variables(l) {
                    out.push(Equation::new(EqKind::Diff(v[0], v[2])));
                }
            },
            Constraint::Parallel(l1, l2) => {
                if let Some(v) = self.pair_variables(l1, l2) {
                    out.push(Equation::new(EqKind::Cross(v)));
                }
            },
            Constraint::Perpendicular(l1, l2) => {
                if let Some(v) = self.pair_variables(l1, l2) {
                    out.push(Equation::new(EqKind::Dot(v)));
                }
            },
            Constraint::Distance(p, q, d) => {
                if let (Some(a), Some(b)) = (self.point(p), self.point(q)) {
                    out.push(Equation::new(EqKind::DistSq([a.x, a.y, b.x, b.y], d)));
                }
            },
            Constraint::Radius(circle, r) => {
                if let Some(SketchEntity::Circle { radius, .. }) = self.entity(circle) {
                    out.push(Equation::new(EqKind::Value(radius, r)));
                }
            },
            Constraint::Equal(l1, l2) => {
                if let Some(v) = self.pair_variables(l1, l2) {
                    out.push(Equation::new(EqKind::EqualLenSq(v)));
                }
            },
        }
        assert(out@ =~= old(out)@ + equations_of(self@.points, self@.entities, *c));
    }

    /// The equations of all constraints, in slot order.
    pub fn lowered_equations(&self) -> (equations: Vec<Equation<T>>)
        requires
            self.wf(),
        ensures
            equations@ == all_equations(self@),
    {
        let list = self.constraints();
        let ghost keys = slot_order(self@.constraints.dom());
        let mut out: Vec<Equation<T>> = Vec::new();
        let mut i: usize = 0;
        while i < list.len()
            invariant
                self.wf(),
                keys == slot_order(self@.constraints.dom()),
                list@.len() == keys.len(),
                forall|j: int|
                    0 <= j < list@.len() ==> (#[trigger] list@[j]).1 == self@.constraints[keys[j]],
                i <= list@.len(),
                out@ == equations_under(self@, keys.take(i as int)),
            decreases list@.len() - i,
        {
            let c = list[i].1;
            self.lower_constraint(&c, &mut out);
            assert(keys.take(i + 1).drop_last() =~= keys.take(i as int));
            i = i + 1;
        }
        assert(keys.take(i as int) =~= keys);
        out
    }
}

} // verus!
