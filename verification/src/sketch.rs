//! The 2D sketch: points, entities, constraints and dimensions over one flat
//! vector of variables.
use vstd::prelude::*;

use crate::constraint::{Constraint, ConstraintError};
use crate::dimension::{Dimension, DimensionKind};
use crate::ids::{ConstraintId, DimensionId, EntityId, PointId, VarId};
use crate::slots::{
    Arena, MAX_SLOTS, are_slots, has_last_key, holds, in_slot_order, is_vacancy, keeps_keys,
    keeps_vacancy, lemma_keeps_keys, lemma_retired_restored, lemma_same_keys, slot_index,
    slot_order, stored,
};

verus! {

/// A point: two entries of the vector of variables.
#[derive(Debug, Clone, Copy, PartialEq, Eq, Structural)]
pub struct SketchPoint {
    /// Variable of the first coordinate.
    pub x: VarId,
    /// Variable of the second coordinate.
    pub y: VarId,
}

/// A geometric entity.
#[derive(Debug, Clone, Copy, PartialEq, Eq, Structural)]
pub enum SketchEntity {
    /// A segment between two points.
    Line {
        /// First end.
        p1: PointId,
        /// Second end.
        p2: PointId,
    },
    /// A circle around a point.
    Circle {
        /// The centre.
        center: PointId,
        /// Variable of the radius.
        radius: VarId,
    },
}

/// A 2D sketch in the coordinates of its plane.
///
/// Deleted entities do not give their variables back: the vector of variables
/// only grows.
pub struct Sketch<T> {
    vars: Vec<T>,
    points: Arena<SketchPoint>,
    entities: Arena<SketchEntity>,
    constraints: Arena<Constraint<T>>,
    dimensions: Arena<Dimension<T>>,
}

/// What a sketch holds.
#[verifier::ext_equal]
pub struct SketchView<T> {
    /// Value of each variable.
    pub vars: Seq<T>,
    /// The points.
    pub points: Map<u64, SketchPoint>,
    /// The entities.
    pub entities: Map<u64, SketchEntity>,
    /// The constraints.
    pub constraints: Map<u64, Constraint<T>>,
    /// The dimensions.
    pub dimensions: Map<u64, Dimension<T>>,
}

/// The entity is attached to the point.
pub open spec fn attached(entity: SketchEntity, point: PointId) -> bool {
    match entity {
        SketchEntity::Line { p1, p2 } => p1 == point || p2 == point,
        SketchEntity::Circle { center, .. } => center == point,
    }
}

/// Some entity is attached to the point.
pub open spec fn is_referenced(entities: Map<u64, SketchEntity>, point: PointId) -> bool {
    exists|e: u64| #[trigger] entities.contains_key(e) && attached(entities[e], point)
}

/// A constraint can refer to the point.
pub open spec fn point_check(points: Map<u64, SketchPoint>, id: PointId) -> Result<
    (),
    ConstraintError,
> {
    if points.contains_key(id.raw) {
        Ok(())
    } else {
        Err(ConstraintError::UnknownRef)
    }
}

/// A constraint can refer to the entity as a line.
pub open spec fn line_check(entities: Map<u64, SketchEntity>, id: EntityId) -> Result<
    (),
    ConstraintError,
> {
    if !entities.contains_key(id.raw) {
        Err(ConstraintError::UnknownRef)
    } else if entities[id.raw] is Line {
        Ok(())
    } else {
        Err(ConstraintError::NotALine)
    }
}

/// A constraint can refer to the entity as a circle.
pub open spec fn circle_check(entities: Map<u64, SketchEntity>, id: EntityId) -> Result<
    (),
    ConstraintError,
> {
    if !entities.contains_key(id.raw) {
        Err(ConstraintError::UnknownRef)
    } else if entities[id.raw] is Circle {
        Ok(())
    } else {
        Err(ConstraintError::NotACircle)
    }
}

/// The first error of the two, if there is one.
pub open spec fn both(
    a: Result<(), ConstraintError>,
    b: Result<(), ConstraintError>,
) -> Result<(), ConstraintError> {
    if a is Err {
        a
    } else {
        b
    }
}

/// Whether all that a constraint refers to exists and is of the right kind.
pub open spec fn constraint_check<T>(
    points: Map<u64, SketchPoint>,
    entities: Map<u64, SketchEntity>,
    c: Constraint<T>,
) -> Result<(), ConstraintError> {
    match c {
        Constraint::Coincident(p, q) | Constraint::Distance(p, q, _) => both(
            point_check(points, p),
            point_check(points, q),
        ),
        Constraint::Horizontal(l) | Constraint::Vertical(l) => line_check(entities, l),
        Constraint::Parallel(l1, l2)
        | Constraint::Perpendicular(l1, l2)
        | Constraint::Equal(l1, l2) => both(line_check(entities, l1), line_check(entities, l2)),
        Constraint::Radius(circle, _) => circle_check(entities, circle),
    }
}

/// The points exist, if the constraint is between points.
pub open spec fn joins<T>(points: Map<u64, SketchPoint>, c: Constraint<T>) -> bool {
    match c {
        Constraint::Coincident(p, q) | Constraint::Distance(p, q, _) => points.contains_key(p.raw)
            && points.contains_key(q.raw),
        _ => true,
    }
}

/// The constraint drives dimensions of the kind.
pub open spec fn drives<T>(c: Constraint<T>, kind: DimensionKind) -> bool {
    match kind {
        DimensionKind::Linear => c is Distance,
        DimensionKind::Radius | DimensionKind::Diameter => c is Radius,
    }
}

impl<T> SketchView<T> {
    /// The sketch that holds nothing.
    pub open spec fn empty() -> SketchView<T> {
        SketchView {
            vars: Seq::empty(),
            points: Map::empty(),
            entities: Map::empty(),
            constraints: Map::empty(),
            dimensions: Map::empty(),
        }
    }

    /// Every variable that a point or circle names exists, and no two of them
    /// share one.
    pub open spec fn vars_owned(self) -> bool {
        &&& forall|p: u64| #[trigger]
            self.points.contains_key(p) ==> {
                &&& self.points[p].x.index < self.vars.len()
                &&& self.points[p].y.index < self.vars.len()
                &&& self.points[p].x != self.points[p].y
            }
        &&& forall|e: u64| #[trigger]
            self.entities.contains_key(e) ==> (self.entities[e] matches SketchEntity::Circle {
                radius,
                ..
            } ==> radius.index < self.vars.len())
        &&& forall|p: u64, q: u64|
            #![trigger self.points.contains_key(p), self.points.contains_key(q)]
            self.points.contains_key(p) && self.points.contains_key(q) && p != q ==> {
                &&& self.points[p].x != self.points[q].x
                &&& self.points[p].y != self.points[q].y
                &&& self.points[p].x != self.points[q].y
            }
        &&& forall|p: u64, e: u64|
            #![trigger self.points.contains_key(p), self.entities.contains_key(e)]
            self.points.contains_key(p) && self.entities.contains_key(e) ==> (
            self.entities[e] matches SketchEntity::Circle { radius, .. } ==> radius
                != self.points[p].x && radius != self.points[p].y)
        &&& forall|d: u64, e: u64|
            #![trigger self.entities.contains_key(d), self.entities.contains_key(e)]
            self.entities.contains_key(d) && self.entities.contains_key(e) && d != e ==> (
            self.entities[d] matches SketchEntity::Circle { radius: r, .. } ==> (
            self.entities[e] matches SketchEntity::Circle { radius: s, .. } ==> r != s))
    }

    /// No constraint refers to anything that does not exist.
    pub open spec fn constraints_hold_up(self) -> bool {
        forall|c: u64| #[trigger]
            self.constraints.contains_key(c) ==> constraint_check(
                self.points,
                self.entities,
                self.constraints[c],
            ) is Ok
    }

    /// Every dimension has a driving constraint of its kind, and no two
    /// dimensions share one.
    pub open spec fn dimensions_driven(self) -> bool {
        &&& forall|d: u64| #[trigger]
            self.dimensions.contains_key(d) ==> {
                &&& self.constraints.contains_key(self.dimensions[d].constraint.raw)
                &&& drives(
                    self.constraints[self.dimensions[d].constraint.raw],
                    self.dimensions[d].kind,
                )
            }
        &&& forall|d: u64, e: u64|
            #![trigger self.dimensions.contains_key(d), self.dimensions.contains_key(e)]
            self.dimensions.contains_key(d) && self.dimensions.contains_key(e) && d != e
                ==> self.dimensions[d].constraint != self.dimensions[e].constraint
    }

    /// What holds of every sketch that is drawn.
    pub open spec fn sound(self) -> bool {
        &&& self.vars_owned()
        &&& self.constraints_hold_up()
        &&& self.dimensions_driven()
    }

    /// There is such a point, and its variables exist.
    pub open spec fn has_place(self, id: PointId) -> bool {
        &&& self.points.contains_key(id.raw)
        &&& self.points[id.raw].x.index < self.vars.len()
        &&& self.points[id.raw].y.index < self.vars.len()
    }

    /// The variable of the radius exists, if the entity is a circle.
    pub open spec fn has_radius(self, id: EntityId) -> bool {
        self.entities.contains_key(id.raw) ==> (
        self.entities[id.raw] matches SketchEntity::Circle { radius, .. } ==> radius.index
            < self.vars.len())
    }

    /// Every variable that a point or circle names exists.
    pub open spec fn readable(self) -> bool {
        &&& forall|p: u64| #[trigger]
            self.points.contains_key(p) ==> self.has_place(PointId { raw: p })
        &&& forall|e: u64| #[trigger]
            self.entities.contains_key(e) ==> self.has_radius(EntityId { raw: e })
    }

    /// All that points and entities name exists: every variable, and every
    /// point that an entity is attached to.
    pub open spec fn measurable(self) -> bool {
        &&& self.readable()
        &&& forall|e: u64, p: PointId|
            #![trigger self.entities.contains_key(e), attached(self.entities[e], p)]
            self.entities.contains_key(e) && attached(self.entities[e], p)
                ==> self.points.contains_key(p.raw)
    }

    /// Constraints between points are between points that exist.
    pub open spec fn joined(self) -> bool {
        forall|c: u64| #[trigger]
            self.constraints.contains_key(c) ==> joins(self.points, self.constraints[c])
    }

    /// All that points and entities name exists, and so do the points of
    /// constraints between points.
    pub open spec fn linked(self) -> bool {
        &&& self.measurable()
        &&& self.joined()
    }

    /// Position of a point.
    pub open spec fn position(self, id: PointId) -> [T; 2] {
        let p = self.points[id.raw];
        [self.vars[p.x.index as int], self.vars[p.y.index as int]]
    }

    /// The dimensions whose constraint exists.
    pub open spec fn driven_dimensions(self) -> Map<u64, Dimension<T>> {
        self.dimensions.restrict(
            Set::new(
                |d: u64|
                    self.dimensions.contains_key(d) && self.constraints.contains_key(
                        self.dimensions[d].constraint.raw,
                    ),
            ),
        )
    }

    /// The constraints that refer to nothing that does not exist.
    pub open spec fn valid_constraints(self) -> Map<u64, Constraint<T>> {
        self.constraints.restrict(
            Set::new(
                |c: u64|
                    self.constraints.contains_key(c) && constraint_check(
                        self.points,
                        self.entities,
                        self.constraints[c],
                    ) is Ok,
            ),
        )
    }

    /// The sketch without a point that no entity is attached to.
    pub open spec fn without_orphan(self, point: PointId) -> SketchView<T> {
        if is_referenced(self.entities, point) {
            self
        } else {
            SketchView { points: self.points.remove(point.raw), ..self }
        }
    }

    /// The sketch after an entity is deleted, with the points that no other
    /// entity is attached to, the constraints that referred to what is gone,
    /// and their dimensions.
    pub open spec fn without_entity(self, id: EntityId) -> SketchView<T> {
        if !self.entities.contains_key(id.raw) {
            self
        } else {
            let rest = SketchView { entities: self.entities.remove(id.raw), ..self };
            let cleared = match self.entities[id.raw] {
                SketchEntity::Line { p1, p2 } => rest.without_orphan(p1).without_orphan(p2),
                SketchEntity::Circle { center, .. } => rest.without_orphan(center),
            };
            let pruned = SketchView { constraints: cleared.valid_constraints(), ..cleared };
            SketchView { dimensions: pruned.driven_dimensions(), ..pruned }
        }
    }

    /// The sketch after a constraint is deleted, with its dimension.
    pub open spec fn without_constraint(self, id: ConstraintId) -> SketchView<T> {
        let rest = SketchView { constraints: self.constraints.remove(id.raw), ..self };
        SketchView { dimensions: rest.driven_dimensions(), ..rest }
    }
}

impl<T> View for Sketch<T> {
    type V = SketchView<T>;

    closed spec fn view(&self) -> SketchView<T> {
        SketchView {
            vars: self.vars@,
            points: self.points@,
            entities: self.entities@,
            constraints: self.constraints@,
            dimensions: self.dimensions@,
        }
    }
}

impl<T> Sketch<T> {
    /// The stores are in order, and what they hold fits together.
    pub closed spec fn wf(&self) -> bool {
        &&& self.stores_ok()
    }

    /// The id was given out to a point that is gone.
    pub closed spec fn is_retired_point(&self, id: PointId) -> bool {
        self.points.is_retired(id.raw)
    }

    /// The id was given out to an entity that is gone.
    pub closed spec fn is_retired_entity(&self, id: EntityId) -> bool {
        self.entities.is_retired(id.raw)
    }

    /// The id was given out to a constraint that is gone.
    pub closed spec fn is_retired_constraint(&self, id: ConstraintId) -> bool {
        self.constraints.is_retired(id.raw)
    }

    /// The id was given out to a dimension that is gone.
    pub closed spec fn is_retired_dimension(&self, id: DimensionId) -> bool {
        self.dimensions.is_retired(id.raw)
    }

    /// Something has the last id that its slot can give out before it begins
    /// again.
    pub open spec fn is_worn(&self) -> bool {
        ||| has_last_key(self@.points)
        ||| has_last_key(self@.entities)
        ||| has_last_key(self@.constraints)
        ||| has_last_key(self@.dimensions)
    }

    /// No id comes back in the later sketch: what is retired stays so, and the
    /// id of what is gone is retired.
    pub closed spec fn keeps_ids(&self, later: Sketch<T>) -> bool {
        &&& keeps_keys(self.points, later.points)
        &&& keeps_keys(self.entities, later.entities)
        &&& keeps_keys(self.constraints, later.constraints)
        &&& keeps_keys(self.dimensions, later.dimensions)
    }

    /// What it is that no id comes back.
    pub proof fn lemma_keeps_ids(&self, later: Sketch<T>)
        requires
            self.keeps_ids(later),
        ensures
            forall|id: PointId| #[trigger]
                later.is_retired_point(id) <== self.is_retired_point(id) || (
                self@.points.contains_key(id.raw) && !later@.points.contains_key(id.raw)),
            forall|id: EntityId| #[trigger]
                later.is_retired_entity(id) <== self.is_retired_entity(id) || (
                self@.entities.contains_key(id.raw) && !later@.entities.contains_key(id.raw)),
            forall|id: ConstraintId| #[trigger]
                later.is_retired_constraint(id) <== self.is_retired_constraint(id) || (
                self@.constraints.contains_key(id.raw) && !later@.constraints.contains_key(id.raw)),
            forall|id: DimensionId| #[trigger]
                later.is_retired_dimension(id) <== self.is_retired_dimension(id) || (
                self@.dimensions.contains_key(id.raw) && !later@.dimensions.contains_key(id.raw)),
    {
    }

    /// No id comes back where nothing changes.
    pub proof fn lemma_keeps_ids_here(&self)
        ensures
            self.keeps_ids(*self),
    {
    }

    /// No id comes back in what is later still.
    pub proof fn lemma_keeps_ids_on(&self, later: Sketch<T>, last: Sketch<T>)
        requires
            self.keeps_ids(later),
            later.keeps_ids(last),
        ensures
            self.keeps_ids(last),
    {
        lemma_keeps_keys(self.points, later.points, last.points);
        lemma_keeps_keys(self.entities, later.entities, last.entities);
        lemma_keeps_keys(self.constraints, later.constraints, last.constraints);
        lemma_keeps_keys(self.dimensions, later.dimensions, last.dimensions);
    }

    /// Nothing that is there has a retired id.
    pub proof fn lemma_not_retired(&self)
        requires
            self.wf(),
        ensures
            forall|id: PointId| #[trigger]
                self.is_retired_point(id) ==> !self@.points.contains_key(id.raw),
            forall|id: EntityId| #[trigger]
                self.is_retired_entity(id) ==> !self@.entities.contains_key(id.raw),
            forall|id: ConstraintId| #[trigger]
                self.is_retired_constraint(id) ==> !self@.constraints.contains_key(id.raw),
            forall|id: DimensionId| #[trigger]
                self.is_retired_dimension(id) ==> !self@.dimensions.contains_key(id.raw),
    {
        assert forall|id: PointId| #[trigger] self.is_retired_point(
            id,
        ) implies !self@.points.contains_key(id.raw) by {
            self.points.lemma_retired(id.raw);
        }
        assert forall|id: EntityId| #[trigger] self.is_retired_entity(
            id,
        ) implies !self@.entities.contains_key(id.raw) by {
            self.entities.lemma_retired(id.raw);
        }
        assert forall|id: ConstraintId| #[trigger] self.is_retired_constraint(
            id,
        ) implies !self@.constraints.contains_key(id.raw) by {
            self.constraints.lemma_retired(id.raw);
        }
        assert forall|id: DimensionId| #[trigger] self.is_retired_dimension(
            id,
        ) implies !self@.dimensions.contains_key(id.raw) by {
            self.dimensions.lemma_retired(id.raw);
        }
    }

    /// The lists have the generations of the vacant slots of the sketch.
    pub closed spec fn is_listed_by(&self, data: SketchData<T>) -> bool {
        &&& keeps_vacancy(self.points, data.points@)
        &&& keeps_vacancy(self.entities, data.entities@)
        &&& keeps_vacancy(self.constraints, data.constraints@)
        &&& keeps_vacancy(self.dimensions, data.dimensions@)
    }

    /// The vacant slots of the sketch go on from the generations of the lists.
    pub closed spec fn goes_on_from(&self, data: SketchData<T>) -> bool {
        &&& is_vacancy(data.points@, self.points.vacant())
        &&& is_vacancy(data.entities@, self.entities.vacant())
        &&& is_vacancy(data.constraints@, self.constraints.vacant())
        &&& is_vacancy(data.dimensions@, self.dimensions.vacant())
    }

    /// No id comes back in what is made from the lists of a sketch.
    pub proof fn lemma_retired_read(&self, data: SketchData<T>, back: Sketch<T>)
        requires
            self.wf(),
            data@ == self@,
            self.is_listed_by(data),
            back@ == data@,
            back.goes_on_from(data),
        ensures
            self.keeps_ids(back),
    {
        assert forall|k: u64| #[trigger] self.points@.contains_key(k) <==> holds(
            data.points@,
            k,
        ) by {
            assert(data@.points.contains_key(k) <==> holds(data.points@, k));
        }
        assert forall|k: u64| #[trigger] self.points.is_retired(k) implies back.points.is_retired(
            k,
        ) by {
            assert(back.points@ =~= stored(data.points@));
            lemma_retired_restored(self.points, data.points@, back.points, k);
        }
        assert forall|k: u64| #[trigger] self.entities@.contains_key(k) <==> holds(
            data.entities@,
            k,
        ) by {
            assert(data@.entities.contains_key(k) <==> holds(data.entities@, k));
        }
        assert forall|k: u64| #[trigger] self.entities.is_retired(k) implies back.entities.is_retired(
            k,
        ) by {
            assert(back.entities@ =~= stored(data.entities@));
            lemma_retired_restored(self.entities, data.entities@, back.entities, k);
        }
        assert forall|k: u64| #[trigger] self.constraints@.contains_key(k) <==> holds(
            data.constraints@,
            k,
        ) by {
            assert(data@.constraints.contains_key(k) <==> holds(data.constraints@, k));
        }
        assert forall|k: u64| #[trigger] self.constraints.is_retired(k) implies back.constraints.is_retired(
            k,
        ) by {
            assert(back.constraints@ =~= stored(data.constraints@));
            lemma_retired_restored(self.constraints, data.constraints@, back.constraints, k);
        }
        assert forall|k: u64| #[trigger] self.dimensions@.contains_key(k) <==> holds(
            data.dimensions@,
            k,
        ) by {
            assert(data@.dimensions.contains_key(k) <==> holds(data.dimensions@, k));
        }
        assert forall|k: u64| #[trigger] self.dimensions.is_retired(k) implies back.dimensions.is_retired(
            k,
        ) by {
            assert(back.dimensions@ =~= stored(data.dimensions@));
            lemma_retired_restored(self.dimensions, data.dimensions@, back.dimensions, k);
        }
    }

    spec fn stores_ok(&self) -> bool {
        &&& self.points.wf()
        &&& self.entities.wf()
        &&& self.constraints.wf()
        &&& self.dimensions.wf()
    }

    /// What holds of the contents of every sketch.
    pub proof fn lemma_wf(&self)
        requires
            self.wf(),
        ensures
            self@.points.dom().finite(),
            self@.entities.dom().finite(),
            self@.constraints.dom().finite(),
            self@.dimensions.dom().finite(),
            self@.points.len() <= MAX_SLOTS,
            self@.entities.len() <= MAX_SLOTS,
            self@.constraints.len() <= MAX_SLOTS,
            self@.dimensions.len() <= MAX_SLOTS,
            self@.vars.len() <= usize::MAX,
    {
        self.points.lemma_contents();
        self.entities.lemma_contents();
        self.constraints.lemma_contents();
        self.dimensions.lemma_contents();
        let count = self.vars.len();
        assert(count == self.vars@.len());
    }

    /// What the stores hold can be listed in slot order.
    pub proof fn lemma_orders(&self)
        requires
            self.wf(),
        ensures
            in_slot_order(slot_order(self@.points.dom()), self@.points.dom()),
            in_slot_order(slot_order(self@.entities.dom()), self@.entities.dom()),
            in_slot_order(slot_order(self@.constraints.dom()), self@.constraints.dom()),
            in_slot_order(slot_order(self@.dimensions.dom()), self@.dimensions.dom()),
    {
        self.points.lemma_order();
        self.entities.lemma_order();
        self.constraints.lemma_order();
        self.dimensions.lemma_order();
    }

    /// The sketch that holds nothing.
    pub fn new() -> (sketch: Self)
        ensures
            sketch.wf(),
            sketch@ == SketchView::<T>::empty(),
            sketch@.sound(),
            sketch@.linked(),
    {
        Sketch {
            vars: Vec::new(),
            points: Arena::new(),
            entities: Arena::new(),
            constraints: Arena::new(),
            dimensions: Arena::new(),
        }
    }
}

impl<T: Copy> Sketch<T> {
    /// Number of variables.
    pub fn var_count(&self) -> (count: usize)
        ensures
            count == self@.vars.len(),
    {
        self.vars.len()
    }

    fn alloc_var(&mut self, value: T) -> (id: VarId)
        ensures
            final(self)@ == (SketchView { vars: old(self)@.vars.push(value), ..old(self)@ }),
            final(self).stores_ok() == old(self).stores_ok(),
            final(self).points == old(self).points,
            final(self).entities == old(self).entities,
            final(self).constraints == old(self).constraints,
            final(self).dimensions == old(self).dimensions,
            id.index == old(self)@.vars.len(),
    {
        let index: usize = self.vars.len();
        self.vars.push(value);
        VarId { index }
    }

    /// Value of a variable.
    pub fn var(&self, id: VarId) -> (value: T)
        requires
            id.index < self@.vars.len(),
        ensures
            value == self@.vars[id.index as int],
    {
        self.vars[id.index]
    }

    /// Sets the value of a variable.
    pub fn set_var(&mut self, id: VarId, value: T)
        requires
            old(self).wf(),
            id.index < old(self)@.vars.len(),
        ensures
            final(self).wf(),
            final(self)@ == (SketchView {
                vars: old(self)@.vars.update(id.index as int, value),
                ..old(self)@
            }),
            old(self)@.sound() ==> final(self)@.sound(),
            old(self)@.linked() ==> final(self)@.linked(),
            old(self).keeps_ids(*final(self)),
    {
        self.vars.set(id.index, value);
    }

    /// A copy of all variables.
    pub fn var_values(&self) -> (values: Vec<T>)
        ensures
            values@ == self@.vars,
    {
        let mut values: Vec<T> = Vec::new();
        let mut i: usize = 0;
        while i < self.vars.len()
            invariant
                i <= self.vars@.len(),
                values@ == self.vars@.take(i as int),
            decreases self.vars@.len() - i,
        {
            values.push(self.vars[i]);
            assert(self.vars@.take(i + 1) =~= self.vars@.take(i as int).push(self.vars@[i as int]));
            i = i + 1;
        }
        assert(self.vars@.take(i as int) =~= self.vars@);
        values
    }

    /// Adds a point.
    pub fn add_point(&mut self, pos: [T; 2]) -> (id: PointId)
        requires
            old(self).wf(),
            old(self)@.points.len() < MAX_SLOTS,
        ensures
            final(self).wf(),
            !old(self)@.points.contains_key(id.raw),
            final(self)@.has_place(id),
            final(self)@.position(id) == pos,
            final(self)@ == (SketchView {
                vars: old(self)@.vars.push(pos[0]).push(pos[1]),
                points: old(self)@.points.insert(
                    id.raw,
                    SketchPoint {
                        x: VarId { index: old(self)@.vars.len() as usize },
                        y: VarId { index: (old(self)@.vars.len() + 1) as usize },
                    },
                ),
                ..old(self)@
            }),
            old(self)@.sound() ==> final(self)@.sound(),
            old(self)@.readable() ==> final(self)@.readable(),
            old(self)@.linked() ==> final(self)@.linked(),
            !old(self).is_retired_point(id),
            old(self).keeps_ids(*final(self)),
    {
        let x = self.alloc_var(pos[0]);
        let y = self.alloc_var(pos[1]);
        let id = PointId { raw: self.points.insert(SketchPoint { x, y }) };
        assert(self@.position(id)@ =~= pos@);
        id
    }

    /// The variables of a point, if it exists.
    pub fn point(&self, id: PointId) -> (point: Option<SketchPoint>)
        requires
            self.wf(),
        ensures
            point == (if self@.points.contains_key(id.raw) {
                Some(self@.points[id.raw])
            } else {
                None
            }),
    {
        match self.points.get(id.raw) {
            Some(point) => Some(*point),
            None => None,
        }
    }

    /// Position of a point.
    pub fn point_pos(&self, id: PointId) -> (pos: [T; 2])
        requires
            self.wf(),
            self@.has_place(id),
        ensures
            pos == self@.position(id),
    {
        let p = *self.points.at(id.raw);
        [self.vars[p.x.index], self.vars[p.y.index]]
    }

    /// Moves a point.
    pub fn set_point_pos(&mut self, id: PointId, pos: [T; 2])
        requires
            old(self).wf(),
            old(self)@.has_place(id),
        ensures
            final(self).wf(),
            final(self)@ == (SketchView {
                vars: old(self)@.vars.update(
                    old(self)@.points[id.raw].x.index as int,
                    pos[0],
                ).update(old(self)@.points[id.raw].y.index as int, pos[1]),
                ..old(self)@
            }),
            old(self)@.vars_owned() ==> final(self)@.position(id) == pos,
            old(self)@.vars_owned() ==> forall|q: PointId| #[trigger]
                old(self)@.points.contains_key(q.raw) && q != id ==> final(self)@.position(q)
                    == old(self)@.position(q),
            old(self)@.sound() ==> final(self)@.sound(),
            old(self)@.linked() ==> final(self)@.linked(),
            old(self).keeps_ids(*final(self)),
    {
        let p = *self.points.at(id.raw);
        self.vars.set(p.x.index, pos[0]);
        self.vars.set(p.y.index, pos[1]);
        proof {
            if old(self)@.vars_owned() {
                assert(old(self)@.points.contains_key(id.raw));
                assert(self@.position(id)@ =~= pos@);
            }
        }
    }

    /// Adds a segment between two points.
    pub fn add_line(&mut self, p1: PointId, p2: PointId) -> (id: EntityId)
        requires
            old(self).wf(),
            old(self)@.entities.len() < MAX_SLOTS,
        ensures
            final(self).wf(),
            !old(self)@.entities.contains_key(id.raw),
            final(self)@ == (SketchView {
                entities: old(self)@.entities.insert(id.raw, SketchEntity::Line { p1, p2 }),
                ..old(self)@
            }),
            old(self)@.linked() && old(self)@.points.contains_key(p1.raw)
                && old(self)@.points.contains_key(p2.raw) ==> final(self)@.linked(),
            old(self)@.sound() ==> final(self)@.sound(),
            old(self)@.readable() ==> final(self)@.readable(),
            !old(self).is_retired_entity(id),
            old(self).keeps_ids(*final(self)),
    {
        EntityId { raw: self.entities.insert(SketchEntity::Line { p1, p2 }) }
    }

    /// Adds a circle around a point.
    pub fn add_circle(&mut self, center: PointId, radius: T) -> (id: EntityId)
        requires
            old(self).wf(),
            old(self)@.entities.len() < MAX_SLOTS,
        ensures
            final(self).wf(),
            !old(self)@.entities.contains_key(id.raw),
            final(self)@ == (SketchView {
                vars: old(self)@.vars.push(radius),
                entities: old(self)@.entities.insert(
                    id.raw,
                    SketchEntity::Circle {
                        center,
                        radius: VarId { index: old(self)@.vars.len() as usize },
                    },
                ),
                ..old(self)@
            }),
            old(self)@.linked() && old(self)@.points.contains_key(center.raw)
                ==> final(self)@.linked(),
            old(self)@.sound() ==> final(self)@.sound(),
            old(self)@.readable() ==> final(self)@.readable(),
            !old(self).is_retired_entity(id),
            old(self).keeps_ids(*final(self)),
    {
        let radius = self.alloc_var(radius);
        EntityId { raw: self.entities.insert(SketchEntity::Circle { center, radius }) }
    }
}

impl<T: Copy> Sketch<T> {
    /// Radius of a circle; `None` if the entity is no circle or does not exist.
    pub fn circle_radius(&self, id: EntityId) -> (radius: Option<T>)
        requires
            self.wf(),
            self@.has_radius(id),
        ensures
            radius == (if self@.entities.contains_key(id.raw) {
                match self@.entities[id.raw] {
                    SketchEntity::Circle { radius, .. } => Some(self@.vars[radius.index as int]),
                    SketchEntity::Line { .. } => None,
                }
            } else {
                None
            }),
    {
        match self.entities.get(id.raw) {
            Some(SketchEntity::Circle { radius, .. }) => Some(self.vars[radius.index]),
            _ => None,
        }
    }

    /// All points with their positions, in slot order.
    pub fn points(&self) -> (list: Vec<(PointId, [T; 2])>)
        requires
            self.wf(),
            self@.readable(),
        ensures
            list@.len() == slot_order(self@.points.dom()).len(),
            forall|i: int|
                0 <= i < list@.len() ==> (#[trigger] list@[i]).0.raw == slot_order(
                    self@.points.dom(),
                )[i] && list@[i].1 == self@.position(list@[i].0),
            in_slot_order(slot_order(self@.points.dom()), self@.points.dom()),
    {
        let keys = self.points.keys();
        let mut list: Vec<(PointId, [T; 2])> = Vec::new();
        let mut i: usize = 0;
        while i < keys.len()
            invariant
                self.wf(),
                self@.readable(),
                in_slot_order(keys@, self@.points.dom()),
                i <= keys@.len(),
                list@.len() == i,
                forall|j: int|
                    0 <= j < i ==> (#[trigger] list@[j]).0.raw == keys@[j] && list@[j].1
                        == self@.position(list@[j].0),
            decreases keys@.len() - i,
        {
            assert(keys@.contains(keys@[i as int]));
            let id = PointId { raw: keys[i] };
            assert(self@.points.dom().contains(id.raw));
            assert(self@.points.contains_key(id.raw));
            list.push((id, self.point_pos(id)));
            i = i + 1;
        }
        list
    }

    /// The ids of all points, in slot order.
    pub(crate) fn point_ids(&self) -> (list: Vec<PointId>)
        requires
            self.wf(),
        ensures
            list@.len() == slot_order(self@.points.dom()).len(),
            forall|i: int|
                0 <= i < list@.len() ==> (#[trigger] list@[i]).raw == slot_order(
                    self@.points.dom(),
                )[i],
            in_slot_order(slot_order(self@.points.dom()), self@.points.dom()),
    {
        let keys = self.points.keys();
        let mut list: Vec<PointId> = Vec::new();
        let mut i: usize = 0;
        while i < keys.len()
            invariant
                i <= keys@.len(),
                list@.len() == i,
                forall|j: int| 0 <= j < i ==> (#[trigger] list@[j]).raw == keys@[j],
            decreases keys@.len() - i,
        {
            list.push(PointId { raw: keys[i] });
            i = i + 1;
        }
        list
    }

    /// All entities, in slot order.
    pub fn entities(&self) -> (list: Vec<(EntityId, SketchEntity)>)
        requires
            self.wf(),
        ensures
            list@ == slot_order(self@.entities.dom()).map_values(
                |k: u64| (EntityId { raw: k }, self@.entities[k]),
            ),
            in_slot_order(slot_order(self@.entities.dom()), self@.entities.dom()),
    {
        let keys = self.entities.keys();
        let mut list: Vec<(EntityId, SketchEntity)> = Vec::new();
        let mut i: usize = 0;
        while i < keys.len()
            invariant
                self.wf(),
                in_slot_order(keys@, self@.entities.dom()),
                i <= keys@.len(),
                list@.len() == i,
                forall|j: int|
                    0 <= j < i ==> #[trigger] list@[j] == (
                        EntityId { raw: keys@[j] },
                        self@.entities[keys@[j]],
                    ),
            decreases keys@.len() - i,
        {
            assert(keys@.contains(keys@[i as int]));
            list.push((EntityId { raw: keys[i] }, *self.entities.at(keys[i])));
            i = i + 1;
        }
        assert(list@ =~= keys@.map_values(
            |k: u64| (EntityId { raw: k }, self@.entities[k]),
        ));
        list
    }

    /// All constraints, in slot order.
    pub fn constraints(&self) -> (list: Vec<(ConstraintId, Constraint<T>)>)
        requires
            self.wf(),
        ensures
            list@ == slot_order(self@.constraints.dom()).map_values(
                |k: u64| (ConstraintId { raw: k }, self@.constraints[k]),
            ),
            in_slot_order(slot_order(self@.constraints.dom()), self@.constraints.dom()),
    {
        let keys = self.constraints.keys();
        let mut list: Vec<(ConstraintId, Constraint<T>)> = Vec::new();
        let mut i: usize = 0;
        while i < keys.len()
            invariant
                self.wf(),
                in_slot_order(keys@, self@.constraints.dom()),
                i <= keys@.len(),
                list@.len() == i,
                forall|j: int|
                    0 <= j < i ==> #[trigger] list@[j] == (
                        ConstraintId { raw: keys@[j] },
                        self@.constraints[keys@[j]],
                    ),
            decreases keys@.len() - i,
        {
            assert(keys@.contains(keys@[i as int]));
            list.push((ConstraintId { raw: keys[i] }, *self.constraints.at(keys[i])));
            i = i + 1;
        }
        assert(list@ =~= keys@.map_values(
            |k: u64| (ConstraintId { raw: k }, self@.constraints[k]),
        ));
        list
    }

    /// All dimensions, in slot order.
    pub fn dimensions(&self) -> (list: Vec<(DimensionId, Dimension<T>)>)
        requires
            self.wf(),
        ensures
            list@ == slot_order(self@.dimensions.dom()).map_values(
                |k: u64| (DimensionId { raw: k }, self@.dimensions[k]),
            ),
            in_slot_order(slot_order(self@.dimensions.dom()), self@.dimensions.dom()),
    {
        let keys = self.dimensions.keys();
        let mut list: Vec<(DimensionId, Dimension<T>)> = Vec::new();
        let mut i: usize = 0;
        while i < keys.len()
            invariant
                self.wf(),
                in_slot_order(keys@, self@.dimensions.dom()),
                i <= keys@.len(),
                list@.len() == i,
                forall|j: int|
                    0 <= j < i ==> #[trigger] list@[j] == (
                        DimensionId { raw: keys@[j] },
                        self@.dimensions[keys@[j]],
                    ),
            decreases keys@.len() - i,
        {
            assert(keys@.contains(keys@[i as int]));
            list.push((DimensionId { raw: keys[i] }, *self.dimensions.at(keys[i])));
            i = i + 1;
        }
        assert(list@ =~= keys@.map_values(
            |k: u64| (DimensionId { raw: k }, self@.dimensions[k]),
        ));
        list
    }

    /// An entity, if it exists.
    pub fn entity(&self, id: EntityId) -> (entity: Option<SketchEntity>)
        requires
            self.wf(),
        ensures
            entity == (if self@.entities.contains_key(id.raw) {
                Some(self@.entities[id.raw])
            } else {
                None
            }),
    {
        match self.entities.get(id.raw) {
            Some(entity) => Some(*entity),
            None => None,
        }
    }

    /// Number of entities.
    pub fn entity_count(&self) -> (count: usize)
        requires
            self.wf(),
        ensures
            count == self@.entities.len(),
    {
        self.entities.len()
    }

    /// A constraint, if it exists.
    pub fn constraint(&self, id: ConstraintId) -> (constraint: Option<Constraint<T>>)
        requires
            self.wf(),
        ensures
            constraint == (if self@.constraints.contains_key(id.raw) {
                Some(self@.constraints[id.raw])
            } else {
                None
            }),
    {
        match self.constraints.get(id.raw) {
            Some(constraint) => Some(*constraint),
            None => None,
        }
    }

    /// Number of constraints.
    pub fn constraint_count(&self) -> (count: usize)
        requires
            self.wf(),
        ensures
            count == self@.constraints.len(),
    {
        self.constraints.len()
    }

    /// A dimension, if it exists.
    pub fn dimension(&self, id: DimensionId) -> (dimension: Option<Dimension<T>>)
        requires
            self.wf(),
        ensures
            dimension == (if self@.dimensions.contains_key(id.raw) {
                Some(self@.dimensions[id.raw])
            } else {
                None
            }),
    {
        match self.dimensions.get(id.raw) {
            Some(dimension) => Some(*dimension),
            None => None,
        }
    }

    /// Number of dimensions.
    pub fn dimension_count(&self) -> (count: usize)
        requires
            self.wf(),
        ensures
            count == self@.dimensions.len(),
    {
        self.dimensions.len()
    }

    fn check_point(&self, id: PointId) -> (result: Result<(), ConstraintError>)
        requires
            self.points.wf(),
        ensures
            result == point_check(self@.points, id),
    {
        if self.points.contains(id.raw) {
            Ok(())
        } else {
            Err(ConstraintError::UnknownRef)
        }
    }

    fn check_line(&self, id: EntityId) -> (result: Result<(), ConstraintError>)
        requires
            self.entities.wf(),
        ensures
            result == line_check(self@.entities, id),
    {
        match self.entities.get(id.raw) {
            Some(SketchEntity::Line { .. }) => Ok(()),
            Some(_) => Err(ConstraintError::NotALine),
            None => Err(ConstraintError::UnknownRef),
        }
    }

    /// Whether all that a constraint refers to exists and is of the right
    /// kind.
    pub fn constraint_valid(&self, c: &Constraint<T>) -> (result: Result<(), ConstraintError>)
        requires
            self.wf(),
        ensures
            result == constraint_check(self@.points, self@.entities, *c),
    {
        self.check_constraint(c)
    }

    fn check_constraint(&self, c: &Constraint<T>) -> (result: Result<(), ConstraintError>)
        requires
            self.stores_ok(),
        ensures
            result == constraint_check(self@.points, self@.entities, *c),
    {
        match *c {
            Constraint::Coincident(p, q) | Constraint::Distance(p, q, _) => {
                match self.check_point(p) {
                    Ok(()) => self.check_point(q),
                    Err(e) => Err(e),
                }
            },
            Constraint::Horizontal(l) | Constraint::Vertical(l) => self.check_line(l),
            Constraint::Parallel(l1, l2)
            | Constraint::Perpendicular(l1, l2)
            | Constraint::Equal(l1, l2) => {
                match self.check_line(l1) {
                    Ok(()) => self.check_line(l2),
                    Err(e) => Err(e),
                }
            },
            Constraint::Radius(circle, _) => {
                match self.entities.get(circle.raw) {
                    Some(SketchEntity::Circle { .. }) => Ok(()),
                    Some(_) => Err(ConstraintError::NotACircle),
                    None => Err(ConstraintError::UnknownRef),
                }
            },
        }
    }

    fn is_point_referenced(&self, point: PointId) -> (found: bool)
        requires
            self.stores_ok(),
        ensures
            found == is_referenced(self@.entities, point),
    {
        let keys = self.entities.keys();
        let mut i: usize = 0;
        while i < keys.len()
            invariant
                self.stores_ok(),
                in_slot_order(keys@, self@.entities.dom()),
                i <= keys@.len(),
                forall|j: int| 0 <= j < i ==> !attached(self@.entities[#[trigger] keys@[j]], point),
            decreases keys@.len() - i,
        {
            assert(keys@.contains(keys@[i as int]));
            assert(self@.entities.contains_key(keys@[i as int]));
            let found = match *self.entities.at(keys[i]) {
                SketchEntity::Line { p1, p2 } => p1 == point || p2 == point,
                SketchEntity::Circle { center, .. } => center == point,
            };
            if found {
                return true;
            }
            i = i + 1;
        }
        proof {
            if is_referenced(self@.entities, point) {
                let e = choose|e: u64| #[trigger]
                    self@.entities.contains_key(e) && attached(self@.entities[e], point);
                assert(self@.entities.dom().contains(e));
                assert(keys@.contains(e));
            }
        }
        false
    }

    fn remove_orphan(&mut self, point: PointId)
        requires
            old(self).stores_ok(),
        ensures
            final(self).stores_ok(),
            final(self)@ == old(self)@.without_orphan(point),
            final(self).entities == old(self).entities,
            final(self).constraints == old(self).constraints,
            final(self).dimensions == old(self).dimensions,
            !old(self).is_worn() ==> old(self).keeps_ids(*final(self)) && !final(self).is_worn(),
    {
        if !self.is_point_referenced(point) {
            self.points.remove(point.raw);
        }
    }

    fn prune_constraints(&mut self)
        requires
            old(self).stores_ok(),
        ensures
            final(self).stores_ok(),
            final(self)@ == (SketchView {
                constraints: old(self)@.valid_constraints(),
                ..old(self)@
            }),
            !old(self).is_worn() ==> old(self).keeps_ids(*final(self)) && !final(self).is_worn(),
    {
        let keys = self.constraints.keys();
        let ghost kept = self@.valid_constraints();
        let mut i: usize = 0;
        while i < keys.len()
            invariant
                self.stores_ok(),
                in_slot_order(keys@, old(self)@.constraints.dom()),
                i <= keys@.len(),
                self@.vars == old(self)@.vars,
                self@.points == old(self)@.points,
                self@.entities == old(self)@.entities,
                self@.dimensions == old(self)@.dimensions,
                self.points == old(self).points,
                self.entities == old(self).entities,
                self.dimensions == old(self).dimensions,
                !old(self).is_worn() ==> keeps_keys(old(self).constraints, self.constraints),
                kept == old(self)@.valid_constraints(),
                self@.constraints.submap_of(old(self)@.constraints),
                forall|k: u64| #[trigger]
                    self@.constraints.contains_key(k) <==> old(self)@.constraints.contains_key(k)
                        && (kept.contains_key(k) || !keys@.take(i as int).contains(k)),
            decreases keys@.len() - i,
        {
            let key = keys[i];
            assert(keys@.contains(keys@[i as int]));
            assert(old(self)@.constraints.contains_key(key));
            proof {
                crate::slots::lemma_slot_order_distinct(keys@, old(self)@.constraints.dom());
                assert(!keys@.take(i as int).contains(key));
                assert(self@.constraints.contains_key(key));
                assert forall|k: u64| #[trigger]
                    keys@.take(i + 1).contains(k) <==> keys@.take(i as int).contains(k) || k
                        == key by {
                    assert(keys@.take(i + 1) =~= keys@.take(i as int).push(key));
                    if keys@.take(i as int).contains(k) {
                        let j = keys@.take(i as int).index_of(k);
                        assert(keys@.take(i + 1)[j] == k);
                    }
                    if k == key {
                        assert(keys@.take(i + 1)[i as int] == k);
                    }
                }
            }
            let constraint = *self.constraints.at(key);
            if self.check_constraint(&constraint).is_err() {
                let ghost earlier = self.constraints;
                self.constraints.remove(key);
                proof {
                    if !old(self).is_worn() {
                        assert(old(self).constraints@.contains_key(key));
                        lemma_keeps_keys(old(self).constraints, earlier, self.constraints);
                    }
                }
            }
            i = i + 1;
        }
        proof {
            assert(keys@.take(i as int) =~= keys@);
            assert forall|k: u64| old(self)@.constraints.contains_key(k) implies keys@.contains(
                k,
            ) by {
                assert(old(self)@.constraints.dom().contains(k));
            }
            assert(self@.constraints =~= kept);
        }
    }

    fn prune_dangling_dimensions(&mut self)
        requires
            old(self).stores_ok(),
        ensures
            final(self).stores_ok(),
            final(self)@ == (SketchView {
                dimensions: old(self)@.driven_dimensions(),
                ..old(self)@
            }),
            !old(self).is_worn() ==> old(self).keeps_ids(*final(self)) && !final(self).is_worn(),
    {
        let keys = self.dimensions.keys();
        let ghost kept = self@.driven_dimensions();
        let mut i: usize = 0;
        while i < keys.len()
            invariant
                self.stores_ok(),
                in_slot_order(keys@, old(self)@.dimensions.dom()),
                i <= keys@.len(),
                self@.vars == old(self)@.vars,
                self@.points == old(self)@.points,
                self@.entities == old(self)@.entities,
                self@.constraints == old(self)@.constraints,
                self.points == old(self).points,
                self.entities == old(self).entities,
                self.constraints == old(self).constraints,
                !old(self).is_worn() ==> keeps_keys(old(self).dimensions, self.dimensions),
                kept == old(self)@.driven_dimensions(),
                self@.dimensions.submap_of(old(self)@.dimensions),
                forall|k: u64| #[trigger]
                    self@.dimensions.contains_key(k) <==> old(self)@.dimensions.contains_key(k) && (
                    kept.contains_key(k) || !keys@.take(i as int).contains(k)),
            decreases keys@.len() - i,
        {
            let key = keys[i];
            assert(keys@.contains(keys@[i as int]));
            assert(old(self)@.dimensions.contains_key(key));
            proof {
                crate::slots::lemma_slot_order_distinct(keys@, old(self)@.dimensions.dom());
                assert(!keys@.take(i as int).contains(key));
                assert(self@.dimensions.contains_key(key));
                assert forall|k: u64| #[trigger]
                    keys@.take(i + 1).contains(k) <==> keys@.take(i as int).contains(k) || k
                        == key by {
                    assert(keys@.take(i + 1) =~= keys@.take(i as int).push(key));
                    if keys@.take(i as int).contains(k) {
                        let j = keys@.take(i as int).index_of(k);
                        assert(keys@.take(i + 1)[j] == k);
                    }
                    if k == key {
                        assert(keys@.take(i + 1)[i as int] == k);
                    }
                }
            }
            let driver = self.dimensions.at(key).constraint;
            if !self.constraints.contains(driver.raw) {
                let ghost earlier = self.dimensions;
                self.dimensions.remove(key);
                proof {
                    if !old(self).is_worn() {
                        assert(old(self).dimensions@.contains_key(key));
                        lemma_keeps_keys(old(self).dimensions, earlier, self.dimensions);
                    }
                }
            }
            i = i + 1;
        }
        proof {
            assert(keys@.take(i as int) =~= keys@);
            assert forall|k: u64| old(self)@.dimensions.contains_key(k) implies keys@.contains(
                k,
            ) by {
                assert(old(self)@.dimensions.dom().contains(k));
            }
            assert(self@.dimensions =~= kept);
        }
    }

    /// Deletes an entity. Points that no other entity is attached to go with
    /// it, then all constraints that refer to what is gone, then the
    /// dimensions of those constraints.
    pub fn delete_entity(&mut self, id: EntityId)
        requires
            old(self).wf(),
        ensures
            final(self).wf(),
            final(self)@ == old(self)@.without_entity(id),
            old(self)@.sound() ==> final(self)@.sound(),
            old(self)@.readable() ==> final(self)@.readable(),
            old(self)@.linked() ==> final(self)@.linked(),
            !old(self).is_worn() ==> old(self).keeps_ids(*final(self)) && !final(self).is_worn(),
    {
        let ghost before = self@;
        let removed = self.entities.remove(id.raw);
        let ghost first = *self;
        proof {
            if !old(self).is_worn() {
                assert(old(self).keeps_ids(first) && !first.is_worn());
            }
        }
        if let Some(entity) = removed {
            assert(self@ == SketchView { entities: before.entities.remove(id.raw), ..before });
            match entity {
                SketchEntity::Line { p1, p2 } => {
                    self.remove_orphan(p1);
                    let ghost second = *self;
                    self.remove_orphan(p2);
                    proof {
                        if !old(self).is_worn() {
                            first.lemma_keeps_ids_on(second, *self);
                        }
                    }
                },
                SketchEntity::Circle { center, .. } => {
                    self.remove_orphan(center);
                },
            }
            let ghost third = *self;
            self.prune_constraints();
            let ghost fourth = *self;
            self.prune_dangling_dimensions();
            proof {
                if !old(self).is_worn() {
                    old(self).lemma_keeps_ids_on(first, third);
                    old(self).lemma_keeps_ids_on(third, fourth);
                    old(self).lemma_keeps_ids_on(fourth, *self);
                }
            }
        } else {
            assert(self@.entities =~= before.entities);
        }
    }

    /// Adds a constraint whose references are valid. Nothing is solved.
    pub fn add_constraint(&mut self, c: Constraint<T>) -> (result: Result<
        ConstraintId,
        ConstraintError,
    >)
        requires
            old(self).wf(),
            old(self)@.constraints.len() < MAX_SLOTS,
        ensures
            final(self).wf(),
            match constraint_check(old(self)@.points, old(self)@.entities, c) {
                Ok(()) => result matches Ok(id) && !old(self)@.constraints.contains_key(id.raw)
                    && final(self)@ == (SketchView {
                    constraints: old(self)@.constraints.insert(id.raw, c),
                    ..old(self)@
                }),
                Err(e) => result == Err::<ConstraintId, ConstraintError>(e) && final(self)@ == old(
                    self,
                )@,
            },
            result matches Ok(id) ==> !old(self).is_retired_constraint(id),
            old(self)@.sound() ==> final(self)@.sound(),
            old(self)@.linked() ==> final(self)@.linked(),
            old(self).keeps_ids(*final(self)),
    {
        match self.constraint_valid(&c) {
            Ok(()) => Ok(ConstraintId { raw: self.constraints.insert(c) }),
            Err(e) => Err(e),
        }
    }

    /// Deletes a constraint and the dimension that it drives.
    pub fn delete_constraint(&mut self, id: ConstraintId)
        requires
            old(self).wf(),
        ensures
            final(self).wf(),
            final(self)@ == old(self)@.without_constraint(id),
            old(self)@.sound() ==> final(self)@.sound(),
            old(self)@.linked() ==> final(self)@.linked(),
            !old(self).is_worn() ==> old(self).keeps_ids(*final(self)) && !final(self).is_worn(),
    {
        self.constraints.remove(id.raw);
        let ghost first = *self;
        proof {
            if !old(self).is_worn() {
                assert(old(self).keeps_ids(first) && !first.is_worn());
            }
        }
        self.prune_dangling_dimensions();
        proof {
            if !old(self).is_worn() {
                old(self).lemma_keeps_ids_on(first, *self);
            }
        }
    }

    /// Adds a dimension over a constraint that drives none.
    pub(crate) fn insert_dimension(&mut self, dimension: Dimension<T>) -> (id: DimensionId)
        requires
            old(self).wf(),
            old(self)@.dimensions.len() < MAX_SLOTS,
        ensures
            final(self).wf(),
            !old(self)@.dimensions.contains_key(id.raw),
            final(self)@ == (SketchView {
                dimensions: old(self)@.dimensions.insert(id.raw, dimension),
                ..old(self)@
            }),
            !old(self).is_retired_dimension(id),
            old(self).keeps_ids(*final(self)),
    {
        DimensionId { raw: self.dimensions.insert(dimension) }
    }

    /// Replaces a constraint by one with the same references.
    pub(crate) fn replace_constraint(&mut self, id: ConstraintId, c: Constraint<T>)
        requires
            old(self).wf(),
            old(self)@.constraints.contains_key(id.raw),
        ensures
            final(self).wf(),
            final(self)@ == (SketchView {
                constraints: old(self)@.constraints.insert(id.raw, c),
                ..old(self)@
            }),
            old(self).keeps_ids(*final(self)),
    {
        self.constraints.set(id.raw, c);
        proof {
            assert(self.constraints@.dom() =~= old(self).constraints@.dom());
            lemma_same_keys(old(self).constraints, self.constraints);
        }
    }

    /// Replaces the place of a label.
    pub(crate) fn replace_offset(&mut self, id: DimensionId, offset: [T; 2])
        requires
            old(self).wf(),
            old(self)@.dimensions.contains_key(id.raw),
        ensures
            final(self).wf(),
            final(self)@ == (SketchView {
                dimensions: old(self)@.dimensions.insert(
                    id.raw,
                    Dimension { offset, ..old(self)@.dimensions[id.raw] },
                ),
                ..old(self)@
            }),
            old(self).keeps_ids(*final(self)),
    {
        let dimension = *self.dimensions.at(id.raw);
        self.dimensions.set(
            id.raw,
            Dimension { constraint: dimension.constraint, kind: dimension.kind, offset },
        );
        proof {
            assert(self.dimensions@.dom() =~= old(self).dimensions@.dom());
            lemma_same_keys(old(self).dimensions, self.dimensions);
        }
    }

    /// Deletes a dimension together with its driving constraint.
    pub fn remove_dimension(&mut self, id: DimensionId)
        requires
            old(self).wf(),
        ensures
            final(self).wf(),
            final(self)@ == (if old(self)@.dimensions.contains_key(id.raw) {
                SketchView {
                    constraints: old(self)@.constraints.remove(
                        old(self)@.dimensions[id.raw].constraint.raw,
                    ),
                    dimensions: old(self)@.dimensions.remove(id.raw),
                    ..old(self)@
                }
            } else {
                old(self)@
            }),
            old(self)@.sound() ==> final(self)@.sound(),
            old(self)@.linked() ==> final(self)@.linked(),
            !old(self).is_worn() ==> old(self).keeps_ids(*final(self)) && !final(self).is_worn(),
    {
        if let Some(dimension) = self.dimensions.remove(id.raw) {
            self.constraints.remove(dimension.constraint.raw);
        } else {
            assert(self@.dimensions =~= old(self)@.dimensions);
        }
    }

    /// A sketch with the same contents.
    pub fn duplicate(&self) -> (copy: Self)
        requires
            self.wf(),
        ensures
            copy.wf(),
            copy@ == self@,
            self.keeps_ids(copy),
    {
        let copy = Sketch {
            vars: self.var_values(),
            points: self.points.duplicate(),
            entities: self.entities.duplicate(),
            constraints: self.constraints.duplicate(),
            dimensions: self.dimensions.duplicate(),
        };
        proof {
            lemma_same_keys(self.points, copy.points);
            lemma_same_keys(self.entities, copy.entities);
            lemma_same_keys(self.constraints, copy.constraints);
            lemma_same_keys(self.dimensions, copy.dimensions);
        }
        copy
    }
}

/// A sketch as plain lists: the values of the variables, and the slots of each
/// store.
#[derive(Debug, Clone, PartialEq)]
pub struct SketchData<T> {
    /// Value of each variable.
    pub vars: Vec<T>,
    /// The points.
    pub points: Vec<(Option<SketchPoint>, u32)>,
    /// The entities.
    pub entities: Vec<(Option<SketchEntity>, u32)>,
    /// The constraints.
    pub constraints: Vec<(Option<Constraint<T>>, u32)>,
    /// The dimensions.
    pub dimensions: Vec<(Option<Dimension<T>>, u32)>,
}

impl<T> View for SketchData<T> {
    type V = SketchView<T>;

    open spec fn view(&self) -> SketchView<T> {
        SketchView {
            vars: self.vars@,
            points: stored(self.points@),
            entities: stored(self.entities@),
            constraints: stored(self.constraints@),
            dimensions: stored(self.dimensions@),
        }
    }
}

impl<T> SketchData<T> {
    /// The lists describe a sketch: each can be the slots of a store.
    pub open spec fn valid(&self) -> bool {
        &&& are_slots(self.points@)
        &&& are_slots(self.entities@)
        &&& are_slots(self.constraints@)
        &&& are_slots(self.dimensions@)
    }
}

impl<T: Copy> Sketch<T> {
    /// The sketch as plain lists.
    pub fn to_data(&self) -> (data: SketchData<T>)
        requires
            self.wf(),
        ensures
            data.valid(),
            data@ == self@,
            self.is_listed_by(data),
    {
        let data = SketchData {
            vars: self.var_values(),
            points: self.points.slots(),
            entities: self.entities.slots(),
            constraints: self.constraints.slots(),
            dimensions: self.dimensions.slots(),
        };
        assert(data@ =~= self@);
        data
    }

    /// The sketch that the lists describe; `None` if they describe none.
    pub fn from_data(data: SketchData<T>) -> (sketch: Option<Self>)
        ensures
            sketch is Some <==> data.valid(),
            sketch matches Some(sketch) ==> sketch.wf() && sketch@ == data@ && sketch.goes_on_from(
                data,
            ),
    {
        let vars = data.vars;
        let points = Arena::restore(data.points);
        let entities = Arena::restore(data.entities);
        let constraints = Arena::restore(data.constraints);
        let dimensions = Arena::restore(data.dimensions);
        match (points, entities, constraints, dimensions) {
            (Some(points), Some(entities), Some(constraints), Some(dimensions)) => {
                let sketch = Sketch { vars, points, entities, constraints, dimensions };
                assert(sketch@ =~= data@);
                Some(sketch)
            },
            _ => None,
        }
    }

    /// Whether every variable that a point or circle names exists.
    pub fn is_readable(&self) -> (readable: bool)
        requires
            self.wf(),
        ensures
            readable == self@.readable(),
    {
        let count: usize = self.vars.len();
        let points = self.points.keys();
        let mut i: usize = 0;
        while i < points.len()
            invariant
                self.wf(),
                count == self@.vars.len(),
                in_slot_order(points@, self@.points.dom()),
                i <= points@.len(),
                forall|a: int|
                    0 <= a < i ==> self@.has_place(PointId { raw: #[trigger] points@[a] }),
            decreases points@.len() - i,
        {
            let key = points[i];
            assert(points@.contains(points@[i as int]));
            assert(self@.points.dom().contains(key));
            assert(self@.points.contains_key(key));
            let p = *self.points.at(key);
            if p.x.index >= count || p.y.index >= count {
                assert(!self@.has_place(PointId { raw: key }));
                return false;
            }
            i = i + 1;
        }
        let entities = self.entities.keys();
        let mut j: usize = 0;
        while j < entities.len()
            invariant
                self.wf(),
                count == self@.vars.len(),
                in_slot_order(entities@, self@.entities.dom()),
                j <= entities@.len(),
                forall|a: int|
                    0 <= a < j ==> self@.has_radius(EntityId { raw: #[trigger] entities@[a] }),
            decreases entities@.len() - j,
        {
            let key = entities[j];
            assert(entities@.contains(entities@[j as int]));
            assert(self@.entities.dom().contains(key));
            assert(self@.entities.contains_key(key));
            if let SketchEntity::Circle { radius, .. } = *self.entities.at(key) {
                if radius.index >= count {
                    assert(!self@.has_radius(EntityId { raw: key }));
                    return false;
                }
            }
            j = j + 1;
        }
        assert forall|p: u64| #[trigger] self@.points.contains_key(p) implies self@.has_place(
            PointId { raw: p },
        ) by {
            assert(self@.points.dom().contains(p));
            let a = choose|a: int| 0 <= a < points@.len() && points@[a] == p;
            assert(self@.has_place(PointId { raw: points@[a] }));
        }
        assert forall|e: u64| #[trigger] self@.entities.contains_key(e) implies self@.has_radius(
            EntityId { raw: e },
        ) by {
            assert(self@.entities.dom().contains(e));
            let a = choose|a: int| 0 <= a < entities@.len() && entities@[a] == e;
            assert(self@.has_radius(EntityId { raw: entities@[a] }));
        }
        true
    }

    /// Whether constraints between points are between points that exist.
    pub fn is_joined(&self) -> (joined: bool)
        requires
            self.wf(),
        ensures
            joined == self@.joined(),
    {
        let constraints = self.constraints.keys();
        let mut i: usize = 0;
        while i < constraints.len()
            invariant
                self.wf(),
                in_slot_order(constraints@, self@.constraints.dom()),
                i <= constraints@.len(),
                forall|a: int|
                    0 <= a < i ==> joins(
                        self@.points,
                        self@.constraints[#[trigger] constraints@[a]],
                    ),
            decreases constraints@.len() - i,
        {
            let key = constraints[i];
            assert(constraints@.contains(constraints@[i as int]));
            assert(self@.constraints.dom().contains(key));
            assert(self@.constraints.contains_key(key));
            let both_there = match *self.constraints.at(key) {
                Constraint::Coincident(p, q) | Constraint::Distance(p, q, _) => {
                    self.points.contains(p.raw) && self.points.contains(q.raw)
                },
                _ => true,
            };
            if !both_there {
                return false;
            }
            i = i + 1;
        }
        assert forall|c: u64| #[trigger] self@.constraints.contains_key(c) implies joins(
            self@.points,
            self@.constraints[c],
        ) by {
            assert(self@.constraints.dom().contains(c));
            let a = choose|a: int| 0 <= a < constraints@.len() && constraints@[a] == c;
            assert(joins(self@.points, self@.constraints[constraints@[a]]));
        }
        true
    }

    /// Whether all that points and entities name exists, and so do the points
    /// of constraints between points.
    pub fn is_linked(&self) -> (linked: bool)
        requires
            self.wf(),
        ensures
            linked == self@.linked(),
    {
        if !self.is_readable() || !self.is_joined() {
            return false;
        }
        let entities = self.entities.keys();
        let mut i: usize = 0;
        while i < entities.len()
            invariant
                self.wf(),
                self@.readable(),
                self@.joined(),
                in_slot_order(entities@, self@.entities.dom()),
                i <= entities@.len(),
                forall|a: int, p: PointId|
                    #![trigger entities@[a], attached(self@.entities[entities@[a]], p)]
                    0 <= a < i && attached(self@.entities[entities@[a]], p)
                        ==> self@.points.contains_key(p.raw),
            decreases entities@.len() - i,
        {
            let e = entities[i];
            assert(entities@.contains(entities@[i as int]));
            assert(self@.entities.dom().contains(e));
            assert(self@.entities.contains_key(e));
            let both_there = match *self.entities.at(e) {
                SketchEntity::Line { p1, p2 } => {
                    assert(attached(self@.entities[e], p1));
                    assert(attached(self@.entities[e], p2));
                    self.points.contains(p1.raw) && self.points.contains(p2.raw)
                },
                SketchEntity::Circle { center, .. } => {
                    assert(attached(self@.entities[e], center));
                    self.points.contains(center.raw)
                },
            };
            if !both_there {
                return false;
            }
            i = i + 1;
        }
        assert forall|e: u64, p: PointId|
            #![trigger self@.entities.contains_key(e), attached(self@.entities[e], p)]
            self@.entities.contains_key(e) && attached(
                self@.entities[e],
                p,
            ) implies self@.points.contains_key(p.raw) by {
            assert(self@.entities.dom().contains(e));
            let a = choose|a: int| 0 <= a < entities@.len() && entities@[a] == e;
            assert(attached(self@.entities[entities@[a]], p));
        }
        true
    }
}

} // verus!
