//! Dimensions: a driving constraint with the place of its label.
use vstd::prelude::*;

use crate::arith::{computes, evaluates_all};
use crate::constraint::{Constraint, ConstraintError};
use crate::expr::{Expr, Reading};
use crate::ids::{ConstraintId, DimensionId, EntityId, PointId};
use crate::sketch::{Sketch, SketchView, constraint_check};
use crate::slots::MAX_SLOTS;

verus! {

/// What a dimension shows of its constraint.
#[derive(Debug, Clone, Copy, PartialEq, Eq, Structural)]
pub enum DimensionKind {
    /// Distance of two points, driven by a distance constraint.
    Linear,
    /// Radius of a circle, driven by a radius constraint.
    Radius,
    /// Diameter of a circle. The driving constraint holds the radius.
    Diameter,
}

/// A dimension: its driving constraint and the place of its label.
#[derive(Debug, Clone, Copy, PartialEq)]
pub struct Dimension<T> {
    /// The constraint whose value is shown.
    pub constraint: ConstraintId,
    /// What is shown.
    pub kind: DimensionKind,
    /// Place of the label relative to the geometry.
    pub offset: [T; 2],
}

/// What a new dimension measures.
#[derive(Debug, Clone, Copy, PartialEq, Eq, Structural)]
pub enum DimensionTarget {
    /// Distance of two points.
    Linear(PointId, PointId),
    /// Radius of a circle.
    Radius(EntityId),
    /// Diameter of a circle.
    Diameter(EntityId),
}

/// The kind of the dimension that measures the target.
pub open spec fn kind_of_target(target: DimensionTarget) -> DimensionKind {
    match target {
        DimensionTarget::Linear(..) => DimensionKind::Linear,
        DimensionTarget::Radius(_) => DimensionKind::Radius,
        DimensionTarget::Diameter(_) => DimensionKind::Diameter,
    }
}

/// The constraint with the given value that drives a dimension of the target.
pub open spec fn driver_of<T>(target: DimensionTarget, value: T) -> Constraint<T> {
    match target {
        DimensionTarget::Linear(p, q) => Constraint::Distance(p, q, value),
        DimensionTarget::Radius(c) | DimensionTarget::Diameter(c) => Constraint::Radius(c, value),
    }
}

/// `stored` is what a driving constraint holds where a dimension of the kind
/// shows `shown`: half of it for a diameter, else the same.
pub open spec fn is_stored_value<T, E: Fn(&Expr<T>, &Vec<T>) -> T>(
    eval: E,
    kind: DimensionKind,
    shown: T,
    stored: T,
) -> bool {
    match kind {
        DimensionKind::Diameter => computes(
            eval,
            |at: Reading<T>| (at.num)(shown) / 2real,
            Seq::empty(),
            stored,
        ),
        DimensionKind::Linear | DimensionKind::Radius => stored == shown,
    }
}

/// `shown` is what a dimension of the kind shows where its driving constraint
/// holds `stored`: twice that for a diameter, else the same.
pub open spec fn is_shown_value<T, E: Fn(&Expr<T>, &Vec<T>) -> T>(
    eval: E,
    kind: DimensionKind,
    stored: T,
    shown: T,
) -> bool {
    match kind {
        DimensionKind::Diameter => computes(
            eval,
            |at: Reading<T>| (at.num)(stored) * 2real,
            Seq::empty(),
            shown,
        ),
        DimensionKind::Linear | DimensionKind::Radius => shown == stored,
    }
}

/// The value of a constraint that drives dimensions.
pub open spec fn value_of<T>(c: Constraint<T>) -> Option<T> {
    match c {
        Constraint::Distance(_, _, v) | Constraint::Radius(_, v) => Some(v),
        _ => None,
    }
}

/// The constraint with another value, if it drives dimensions.
pub open spec fn with_value<T>(c: Constraint<T>, value: T) -> Constraint<T> {
    match c {
        Constraint::Distance(p, q, _) => Constraint::Distance(p, q, value),
        Constraint::Radius(e, _) => Constraint::Radius(e, value),
        _ => c,
    }
}

/// The value of the driving constraint of a dimension, if there is one.
pub open spec fn driver_value<T>(view: SketchView<T>, id: DimensionId) -> Option<T> {
    let driver = view.dimensions[id.raw].constraint.raw;
    if view.dimensions.contains_key(id.raw) && view.constraints.contains_key(driver) {
        value_of(view.constraints[driver])
    } else {
        None
    }
}

/// The sketch in which the driving constraint of a dimension has another
/// value. Nothing changes if there is none.
pub open spec fn with_stored<T>(view: SketchView<T>, id: DimensionId, stored: T) -> SketchView<T> {
    if driver_value(view, id) is Some {
        let driver = view.dimensions[id.raw].constraint.raw;
        SketchView {
            constraints: view.constraints.insert(
                driver,
                with_value(view.constraints[driver], stored),
            ),
            ..view
        }
    } else {
        view
    }
}

/// The sketch with one more dimension and its driving constraint.
pub open spec fn with_dimension<T>(
    view: SketchView<T>,
    id: DimensionId,
    driver: ConstraintId,
    target: DimensionTarget,
    stored: T,
    offset: [T; 2],
) -> SketchView<T> {
    SketchView {
        constraints: view.constraints.insert(driver.raw, driver_of(target, stored)),
        dimensions: view.dimensions.insert(
            id.raw,
            Dimension { constraint: driver, kind: kind_of_target(target), offset },
        ),
        ..view
    }
}

/// `after` is the sketch with one more dimension that shows a value.
pub open spec fn adds_dimension<T, E: Fn(&Expr<T>, &Vec<T>) -> T>(
    eval: E,
    before: SketchView<T>,
    target: DimensionTarget,
    shown: T,
    offset: [T; 2],
    id: DimensionId,
    after: SketchView<T>,
) -> bool {
    exists|stored: T, driver: ConstraintId|
        {
            &&& is_stored_value(eval, kind_of_target(target), shown, stored)
            &&& !before.constraints.contains_key(driver.raw)
            &&& after == #[trigger] with_dimension(before, id, driver, target, stored, offset)
        }
}

fn halved<T: Copy, E: Fn(&Expr<T>, &Vec<T>) -> T>(eval: &E, kind: DimensionKind, shown: T) -> (
    stored: T)
    requires
        evaluates_all(*eval),
    ensures
        is_stored_value(*eval, kind, shown, stored),
{
    match kind {
        DimensionKind::Diameter => {
            let none: Vec<T> = Vec::new();
            let e = Expr::quotient(Expr::value(shown), Expr::ratio(2, 1));
            assert((2 as int) as real / (1 as int) as real == 2real);
            let stored = eval(&e, &none);
            assert(crate::arith::means(e, |at: Reading<T>| (at.num)(shown) / 2real));
            assert(none@ =~= Seq::empty());
            stored
        },
        DimensionKind::Linear | DimensionKind::Radius => shown,
    }
}

fn doubled<T: Copy, E: Fn(&Expr<T>, &Vec<T>) -> T>(eval: &E, kind: DimensionKind, stored: T) -> (
    shown: T)
    requires
        evaluates_all(*eval),
    ensures
        is_shown_value(*eval, kind, stored, shown),
{
    match kind {
        DimensionKind::Diameter => {
            let none: Vec<T> = Vec::new();
            let e = Expr::product(Expr::value(stored), Expr::ratio(2, 1));
            assert((2 as int) as real / (1 as int) as real == 2real);
            let shown = eval(&e, &none);
            assert(crate::arith::means(e, |at: Reading<T>| (at.num)(stored) * 2real));
            assert(none@ =~= Seq::empty());
            shown
        },
        DimensionKind::Linear | DimensionKind::Radius => stored,
    }
}

impl<T: Copy> Sketch<T> {
    /// Adds a dimension together with its driving constraint. `value` is the
    /// shown value: the driving constraint of a diameter holds half of it.
    /// Nothing is solved.
    pub fn add_dimension<E: Fn(&Expr<T>, &Vec<T>) -> T>(
        &mut self,
        target: DimensionTarget,
        value: T,
        offset: [T; 2],
        eval: &E,
    ) -> (result: Result<DimensionId, ConstraintError>)
        requires
            old(self).wf(),
            old(self)@.constraints.len() < MAX_SLOTS,
            old(self)@.dimensions.len() < MAX_SLOTS,
            evaluates_all(*eval),
        ensures
            final(self).wf(),
            match constraint_check(
                old(self)@.points,
                old(self)@.entities,
                driver_of(target, value),
            ) {
                Ok(()) => result matches Ok(id) && !old(self)@.dimensions.contains_key(id.raw)
                    && adds_dimension(
                    *eval,
                    old(self)@,
                    target,
                    value,
                    offset,
                    id,
                    final(self)@,
                ),
                Err(e) => result == Err::<DimensionId, ConstraintError>(e) && final(self)@ == old(
                    self,
                )@,
            },
            result matches Ok(id) ==> !old(self).is_retired_dimension(id),
            old(self).keeps_ids(*final(self)),
    {
        let kind = match target {
            DimensionTarget::Linear(..) => DimensionKind::Linear,
            DimensionTarget::Radius(_) => DimensionKind::Radius,
            DimensionTarget::Diameter(_) => DimensionKind::Diameter,
        };
        let stored = halved(eval, kind, value);
        let constraint = match target {
            DimensionTarget::Linear(p, q) => Constraint::Distance(p, q, stored),
            DimensionTarget::Radius(c) => Constraint::Radius(c, stored),
            DimensionTarget::Diameter(c) => Constraint::Radius(c, stored),
        };
        proof {
            self.lemma_wf();
        }
        match self.add_constraint(constraint) {
            Ok(driver) => {
                let ghost constrained = *self;
                let id = self.insert_dimension(Dimension { constraint: driver, kind, offset });
                assert(is_stored_value(*eval, kind_of_target(target), value, stored));
                assert(self@ == with_dimension(old(self)@, id, driver, target, stored, offset));
                assert(adds_dimension(*eval, old(self)@, target, value, offset, id, self@));
                proof {
                    old(self).lemma_keeps_ids(constrained);
                    old(self).lemma_keeps_ids_on(constrained, *self);
                }
                Ok(id)
            },
            Err(e) => Err(e),
        }
    }

    /// Gives a dimension another shown value. Nothing is solved, and nothing
    /// changes if there is no such dimension.
    pub fn store_dimension_value<E: Fn(&Expr<T>, &Vec<T>) -> T>(
        &mut self,
        id: DimensionId,
        value: T,
        eval: &E,
    )
        requires
            old(self).wf(),
            evaluates_all(*eval),
        ensures
            final(self).wf(),
            old(self)@.dimensions.contains_key(id.raw) ==> exists|stored: T|
                is_stored_value(*eval, old(self)@.dimensions[id.raw].kind, value, stored)
                    && final(self)@ == #[trigger] with_stored(old(self)@, id, stored),
            !old(self)@.dimensions.contains_key(id.raw) ==> final(self)@ == old(self)@,
            old(self).keeps_ids(*final(self)),
    {
        proof {
            self.lemma_wf();
            self.lemma_keeps_ids_here();
        }
        if let Some(dimension) = self.dimension(id) {
            let stored = halved(eval, dimension.kind, value);
            match self.constraint(dimension.constraint) {
                Some(Constraint::Distance(p, q, _)) => {
                    self.replace_constraint(
                        dimension.constraint,
                        Constraint::Distance(p, q, stored),
                    );
                },
                Some(Constraint::Radius(e, _)) => {
                    self.replace_constraint(dimension.constraint, Constraint::Radius(e, stored));
                },
                _ => {},
            }
            assert(self@ == with_stored(old(self)@, id, stored));
        }
    }

    /// Moves the label of a dimension, and nothing else.
    pub fn set_dimension_offset(&mut self, id: DimensionId, offset: [T; 2])
        requires
            old(self).wf(),
        ensures
            final(self).wf(),
            final(self)@ == (if old(self)@.dimensions.contains_key(id.raw) {
                SketchView {
                    dimensions: old(self)@.dimensions.insert(
                        id.raw,
                        Dimension { offset, ..old(self)@.dimensions[id.raw] },
                    ),
                    ..old(self)@
                }
            } else {
                old(self)@
            }),
            old(self).keeps_ids(*final(self)),
    {
        proof {
            self.lemma_keeps_ids_here();
        }
        if self.dimension(id).is_some() {
            self.replace_offset(id, offset);
        }
    }

    /// The shown value of a dimension, if it exists and has a driving
    /// constraint.
    pub fn dimension_value<E: Fn(&Expr<T>, &Vec<T>) -> T>(&self, id: DimensionId, eval: &E) -> (
        value: Option<T>)
        requires
            self.wf(),
            evaluates_all(*eval),
        ensures
            match driver_value(self@, id) {
                Some(stored) => value matches Some(shown) && is_shown_value(
                    *eval,
                    self@.dimensions[id.raw].kind,
                    stored,
                    shown,
                ),
                None => value is None,
            },
    {
        match self.dimension(id) {
            Some(dimension) => {
                match self.constraint(dimension.constraint) {
                    Some(Constraint::Distance(_, _, v)) | Some(Constraint::Radius(_, v)) => Some(
                        doubled(eval, dimension.kind, v),
                    ),
                    _ => None,
                }
            },
            None => None,
        }
    }
}

/// Where the arithmetic halves and doubles exactly, a diameter that is stored
/// is shown again unchanged.
pub proof fn lemma_diameter_round_trip<T>(
    num: spec_fn(T) -> real,
    shown: T,
    stored: T,
    again: T,
)
    requires
        num(stored) == num(shown) / 2real,
        num(again) == num(stored) * 2real,
    ensures
        num(again) == num(shown),
{
}

} // verus!
