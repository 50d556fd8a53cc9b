//! Identifiers of points, entities, constraints, dimensions, features and
//! variables.
use vstd::prelude::*;

verus! {

/// Stable, generation-based identifier of a sketch point.
#[derive(Debug, Clone, Copy, PartialEq, Eq, PartialOrd, Ord, Hash, Structural)]
pub struct PointId {
    /// Key under which the slot map knows the point.
    pub raw: u64,
}

/// Stable, generation-based identifier of a sketch entity.
#[derive(Debug, Clone, Copy, PartialEq, Eq, PartialOrd, Ord, Hash, Structural)]
pub struct EntityId {
    /// Key under which the slot map knows the entity.
    pub raw: u64,
}

/// Stable, generation-based identifier of a constraint.
#[derive(Debug, Clone, Copy, PartialEq, Eq, PartialOrd, Ord, Hash, Structural)]
pub struct ConstraintId {
    /// Key under which the slot map knows the constraint.
    pub raw: u64,
}

/// Stable, generation-based identifier of a dimension.
#[derive(Debug, Clone, Copy, PartialEq, Eq, PartialOrd, Ord, Hash, Structural)]
pub struct DimensionId {
    /// Key under which the slot map knows the dimension.
    pub raw: u64,
}

/// Stable, generation-based identifier of a feature.
#[derive(Debug, Clone, Copy, PartialEq, Eq, PartialOrd, Ord, Hash, Structural)]
pub struct FeatureId {
    /// Key under which the slot map knows the feature.
    pub raw: u64,
}

/// Index into the flat vector of variables of a sketch.
#[derive(Debug, Clone, Copy, PartialEq, Eq, PartialOrd, Ord, Hash, Structural)]
pub struct VarId {
    /// Position in the vector.
    pub index: usize,
}

} // verus!
