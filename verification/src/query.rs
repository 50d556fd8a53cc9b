//! Questions about the constraints of a sketch.
use vstd::prelude::*;

use crate::constraint::Constraint;
use crate::ids::{ConstraintId, DimensionId, EntityId, PointId};
use crate::sketch::{Sketch, SketchView};
use crate::slots::{in_slot_order, slot_order};

verus! {

/// Kind of a constraint, without what it refers to.
#[derive(Debug, Clone, Copy, PartialEq, Eq, Structural)]
pub enum ConstraintKind {
    /// Two points coincide.
    Coincident,
    /// A line is horizontal.
    Horizontal,
    /// A line is vertical.
    Vertical,
    /// Two lines are parallel.
    Parallel,
    /// Two lines are perpendicular.
    Perpendicular,
    /// Distance of two points.
    Distance,
    /// Radius of a circle.
    Radius,
    /// Two lines have the same length.
    Equal,
}

/// Something that a constraint refers to.
#[derive(Debug, Clone, Copy, PartialEq, Eq, Hash, Structural)]
pub enum ConstraintRef {
    /// A point.
    Point(PointId),
    /// An entity.
    Entity(EntityId),
}

/// Description of a constraint.
#[derive(Debug, Clone, PartialEq)]
pub struct ConstraintInfo {
    /// Its kind.
    pub kind: ConstraintKind,
    /// What it refers to, in its own order.
    pub refs: Vec<ConstraintRef>,
    /// The dimension that it drives.
    pub dimension: Option<DimensionId>,
}

/// What a constraint refers to, in its own order.
pub open spec fn refs_spec<T>(c: Constraint<T>) -> Seq<ConstraintRef> {
    match c {
        Constraint::Coincident(p, q) | Constraint::Distance(p, q, _) => seq![
            ConstraintRef::Point(p),
            ConstraintRef::Point(q),
        ],
        Constraint::Horizontal(l) | Constraint::Vertical(l) | Constraint::Radius(l, _) => seq![
            ConstraintRef::Entity(l),
        ],
        Constraint::Parallel(a, b) | Constraint::Perpendicular(a, b) | Constraint::Equal(
            a,
            b,
        ) => seq![ConstraintRef::Entity(a), ConstraintRef::Entity(b)],
    }
}

/// The kind of a constraint.
pub open spec fn kind_spec<T>(c: Constraint<T>) -> ConstraintKind {
    match c {
        Constraint::Coincident(..) => ConstraintKind::Coincident,
        Constraint::Horizontal(_) => ConstraintKind::Horizontal,
        Constraint::Vertical(_) => ConstraintKind::Vertical,
        Constraint::Parallel(..) => ConstraintKind::Parallel,
        Constraint::Perpendicular(..) => ConstraintKind::Perpendicular,
        Constraint::Distance(..) => ConstraintKind::Distance,
        Constraint::Radius(..) => ConstraintKind::Radius,
        Constraint::Equal(..) => ConstraintKind::Equal,
    }
}

/// What a constraint refers to, in its own order.
pub fn refs_of<T: Copy>(c: &Constraint<T>) -> (refs: Vec<ConstraintRef>)
    ensures
        refs@ == refs_spec(*c),
{
    let mut refs: Vec<ConstraintRef> = Vec::new();
    match *c {
        Constraint::Coincident(p, q) | Constraint::Distance(p, q, _) => {
            refs.push(ConstraintRef::Point(p));
            refs.push(ConstraintRef::Point(q));
        },
        Constraint::Horizontal(l) | Constraint::Vertical(l) | Constraint::Radius(l, _) => {
            refs.push(ConstraintRef::Entity(l));
        },
        Constraint::Parallel(a, b) | Constraint::Perpendicular(a, b) | Constraint::Equal(a, b) => {
            refs.push(ConstraintRef::Entity(a));
            refs.push(ConstraintRef::Entity(b));
        },
    }
    assert(refs@ =~= refs_spec(*c));
    refs
}

/// The kind of a constraint.
pub fn kind_of<T: Copy>(c: &Constraint<T>) -> (kind: ConstraintKind)
    ensures
        kind == kind_spec(*c),
{
    match *c {
        Constraint::Coincident(..) => ConstraintKind::Coincident,
        Constraint::Horizontal(_) => ConstraintKind::Horizontal,
        Constraint::Vertical(_) => ConstraintKind::Vertical,
        Constraint::Parallel(..) => ConstraintKind::Parallel,
        Constraint::Perpendicular(..) => ConstraintKind::Perpendicular,
        Constraint::Distance(..) => ConstraintKind::Distance,
        Constraint::Radius(..) => ConstraintKind::Radius,
        Constraint::Equal(..) => ConstraintKind::Equal,
    }
}

/// The keys of the constraints that refer to an element, in slot order.
pub open spec fn referring<T>(view: SketchView<T>, element: ConstraintRef) -> Seq<u64> {
    slot_order(view.constraints.dom()).filter(
        |k: u64| refs_spec(view.constraints[k]).contains(element),
    )
}

fn has_ref(refs: &Vec<ConstraintRef>, element: ConstraintRef) -> (found: bool)
    ensures
        found == refs@.contains(element),
{
    let mut i: usize = 0;
    while i < refs.len()
        invariant
            i <= refs@.len(),
            forall|j: int| 0 <= j < i ==> refs@[j] != element,
        decreases refs@.len() - i,
    {
        if refs[i] == element {
            return true;
        }
        i = i + 1;
    }
    false
}

impl<T: Copy> Sketch<T> {
    /// All constraints that refer to an element, in slot order.
    pub fn constraints_on(&self, element: ConstraintRef) -> (ids: Vec<ConstraintId>)
        requires
            self.wf(),
        ensures
            ids@ == referring(self@, element).map_values(|k: u64| ConstraintId { raw: k }),
    {
        let list = self.constraints();
        let ghost keys = slot_order(self@.constraints.dom());
        let ghost wanted = |k: u64| refs_spec(self@.constraints[k]).contains(element);
        let ghost name = |k: u64| ConstraintId { raw: k };
        let mut ids: Vec<ConstraintId> = Vec::new();
        let mut i: usize = 0;
        proof {
            reveal(Seq::filter);
        }
        while i < list.len()
            invariant
                list@.len() == keys.len(),
                forall|j: int|
                    0 <= j < list@.len() ==> #[trigger] list@[j] == (
                        ConstraintId { raw: keys[j] },
                        self@.constraints[keys[j]],
                    ),
                i <= list@.len(),
                wanted == (|k: u64| refs_spec(self@.constraints[k]).contains(element)),
                name == (|k: u64| ConstraintId { raw: k }),
                ids@ == keys.take(i as int).filter(wanted).map_values(name),
            decreases list@.len() - i,
        {
            proof {
                reveal(Seq::filter);
                assert(keys.take(i + 1).drop_last() =~= keys.take(i as int));
            }
            let ghost before = keys.take(i as int).filter(wanted);
            let (id, c) = list[i];
            if has_ref(&refs_of(&c), element) {
                ids.push(id);
                assert(before.push(keys[i as int]).map_values(name) =~= before.map_values(
                    name,
                ).push(id));
            }
            i = i + 1;
        }
        assert(keys.take(i as int) =~= keys);
        assert(keys.filter(wanted) == referring(self@, element));
        ids
    }

    /// Description of a constraint, if it exists.
    pub fn constraint_info(&self, id: ConstraintId) -> (info: Option<ConstraintInfo>)
        requires
            self.wf(),
        ensures
            match info {
                Some(info) => {
                    &&& self@.constraints.contains_key(id.raw)
                    &&& info.kind == kind_spec(self@.constraints[id.raw])
                    &&& info.refs@ == refs_spec(self@.constraints[id.raw])
                    &&& match info.dimension {
                        Some(d) => self@.dimensions.contains_key(d.raw)
                            && self@.dimensions[d.raw].constraint == id,
                        None => forall|d: u64| #[trigger]
                            self@.dimensions.contains_key(d) ==> self@.dimensions[d].constraint
                                != id,
                    }
                },
                None => !self@.constraints.contains_key(id.raw),
            },
    {
        match self.constraint(id) {
            Some(c) => Some(
                ConstraintInfo {
                    kind: kind_of(&c),
                    refs: refs_of(&c),
                    dimension: self.driving_dimension(id),
                },
            ),
            None => None,
        }
    }

    fn driving_dimension(&self, constraint: ConstraintId) -> (dimension: Option<DimensionId>)
        requires
            self.wf(),
        ensures
            match dimension {
                Some(d) => self@.dimensions.contains_key(d.raw)
                    && self@.dimensions[d.raw].constraint == constraint,
                None => forall|d: u64| #[trigger]
                    self@.dimensions.contains_key(d) ==> self@.dimensions[d].constraint
                        != constraint,
            },
    {
        let list = self.dimensions();
        let ghost keys = slot_order(self@.dimensions.dom());
        let mut i: usize = 0;
        while i < list.len()
            invariant
                in_slot_order(keys, self@.dimensions.dom()),
                list@.len() == keys.len(),
                forall|j: int|
                    0 <= j < list@.len() ==> #[trigger] list@[j] == (
                        DimensionId { raw: keys[j] },
                        self@.dimensions[keys[j]],
                    ),
                i <= list@.len(),
                forall|j: int| 0 <= j < i ==> (#[trigger] list@[j]).1.constraint != constraint,
            decreases list@.len() - i,
        {
            if list[i].1.constraint == constraint {
                assert(keys.contains(keys[i as int]));
                assert(self@.dimensions.dom().contains(keys[i as int]));
                return Some(list[i].0);
            }
            i = i + 1;
        }
        proof {
            assert forall|d: u64| #[trigger] self@.dimensions.contains_key(
                d,
            ) implies self@.dimensions[d].constraint != constraint by {
                assert(self@.dimensions.dom().contains(d));
                let j = choose|j: int| 0 <= j < keys.len() && keys[j] == d;
                assert(list@[j].1.constraint != constraint);
            }
        }
        None
    }
}

} // verus!
