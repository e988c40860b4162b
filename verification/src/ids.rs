//! Identifiers of roads, intersections and amenities.
//!
//! Each kind of entity is numbered densely from zero, so an identifier is also
//! the position of its entity in the list that owns it.

use vstd::prelude::*;

verus! {

/// Position of a road in a graph's list of roads.
#[derive(Clone, Copy, Debug, PartialEq, Eq, Hash, PartialOrd, Ord, Structural)]
pub struct RoadID(pub usize);

/// Position of an intersection in a graph's list of intersections.
#[derive(Clone, Copy, Debug, PartialEq, Eq, Hash, PartialOrd, Ord, Structural)]
pub struct IntersectionID(pub usize);

/// Position of an amenity in a graph's list of amenities.
#[derive(Clone, Copy, Debug, PartialEq, Eq, Hash, PartialOrd, Ord, Structural)]
pub struct AmenityID(pub usize);

} // verus!
