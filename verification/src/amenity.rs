//! Amenities, and the rule that tells which map entities are amenities.

use vstd::prelude::*;
use crate::ids::AmenityID;
use crate::tags::Tags;

verus! {

/// The map entity that an amenity was taken from.
#[derive(Clone, Copy, Debug, PartialEq, Eq, Structural)]
pub enum OsmID {
    Node(i64),
    Way(i64),
    Relation(i64),
}

/// The category under which an entity with these tags counts as an amenity:
/// the value of `amenity` where there is one, else that of `shop`.
pub open spec fn amenity_kind(tags: Map<Seq<char>, Seq<char>>) -> Option<Seq<char>> {
    if tags.contains_key("amenity"@) {
        Some(tags["amenity"@])
    } else if tags.contains_key("shop"@) {
        Some(tags["shop"@])
    } else {
        None
    }
}

/// The name that an entity with these tags has.
pub open spec fn amenity_name(tags: Map<Seq<char>, Seq<char>>) -> Option<Seq<char>> {
    if tags.contains_key("name"@) {
        Some(tags["name"@])
    } else {
        None
    }
}

/// The view of an optional string.
pub open spec fn text_of(s: Option<String>) -> Option<Seq<char>> {
    match s {
        Some(t) => Some(t@),
        None => None,
    }
}

/// A shop or service that people walk to.
pub struct Amenity {
    pub id: AmenityID,
    pub osm_id: OsmID,
    /// The category: the value of the entity's `amenity` or `shop` tag.
    pub kind: String,
    pub name: Option<String>,
}

impl Amenity {
    /// Makes the amenity that an entity with these tags stands for, if it
    /// stands for one.
    pub fn maybe_new(tags: &Tags, osm_id: OsmID, id: AmenityID) -> (made: Option<Amenity>)
        ensures
            made is Some <==> amenity_kind(tags@) is Some,
            made is Some ==> {
                let a = made->0;
                &&& a.id == id
                &&& a.osm_id == osm_id
                &&& Some(a.kind@) == amenity_kind(tags@)
                &&& text_of(a.name) == amenity_name(tags@)
            },
    {
        match Amenity::is_amenity(tags) {
            Some(kind) => {
                let name = match tags.get("name") {
                    Some(n) => Some(n.clone()),
                    None => None,
                };
                Some(Amenity { id, osm_id, kind, name })
            },
            None => None,
        }
    }

    /// Tells whether an entity with these tags counts as an amenity, and
    /// returns its category.
    pub fn is_amenity(tags: &Tags) -> (kind: Option<String>)
        ensures
            text_of(kind) == amenity_kind(tags@),
    {
        match tags.get("amenity") {
            Some(k) => Some(k.clone()),
            None => match tags.get("shop") {
                Some(k) => Some(k.clone()),
                None => None,
            },
        }
    }
}

} // verus!
