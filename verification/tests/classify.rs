use walkshed::amenity::{Amenity, OsmID};
use walkshed::ids::AmenityID;
use walkshed::tags::{is_walkable, Tags};

fn tags(pairs: &[(&str, &str)]) -> Tags {
    let mut tags = Tags::new();
    for (k, v) in pairs {
        tags.insert(k.to_string(), v.to_string());
    }
    tags
}

#[test]
fn tags_lookup() {
    let t = tags(&[("highway", "footway"), ("name", "Mill Lane")]);
    assert!(t.has("highway"));
    assert!(!t.has("shop"));
    assert!(t.is("highway", "footway"));
    assert!(!t.is("highway", "path"));
    assert!(!t.is("area", "yes"));
    assert_eq!(t.get("name").map(|s| s.as_str()), Some("Mill Lane"));
    assert_eq!(t.get("foot"), None);
}

#[test]
fn tags_later_value_replaces_earlier() {
    let t = tags(&[("highway", "proposed"), ("highway", "path")]);
    assert_eq!(t.get("highway").map(|s| s.as_str()), Some("path"));
    assert!(is_walkable(&t));
}

#[test]
fn empty_tags_hold_nothing() {
    let t = Tags::new();
    assert!(!t.has("highway"));
    assert_eq!(t.get(""), None);
}

#[test]
fn highway_is_walkable() {
    assert!(is_walkable(&tags(&[("highway", "residential")])));
    assert!(is_walkable(&tags(&[("highway", "footway"), ("foot", "yes"), ("area", "no")])));
}

#[test]
fn way_without_highway_is_not_walkable() {
    assert!(!is_walkable(&tags(&[("building", "yes")])));
    assert!(!is_walkable(&Tags::new()));
}

#[test]
fn proposed_highway_is_not_walkable() {
    assert!(!is_walkable(&tags(&[("highway", "proposed")])));
}

#[test]
fn area_is_not_walkable() {
    assert!(!is_walkable(&tags(&[("highway", "pedestrian"), ("area", "yes")])));
}

#[test]
fn way_closed_to_pedestrians_is_not_walkable() {
    assert!(!is_walkable(&tags(&[("highway", "motorway"), ("foot", "no")])));
}

#[test]
fn amenity_tag_makes_an_amenity() {
    let t = tags(&[("amenity", "cafe"), ("name", "Corner Cafe")]);
    let a = Amenity::maybe_new(&t, OsmID::Node(42), AmenityID(7)).unwrap();
    assert_eq!(a.id, AmenityID(7));
    assert_eq!(a.osm_id, OsmID::Node(42));
    assert_eq!(a.kind, "cafe");
    assert_eq!(a.name.as_deref(), Some("Corner Cafe"));
}

#[test]
fn shop_tag_makes_an_amenity_without_name() {
    let t = tags(&[("shop", "bakery")]);
    let a = Amenity::maybe_new(&t, OsmID::Way(-3), AmenityID(0)).unwrap();
    assert_eq!(a.osm_id, OsmID::Way(-3));
    assert_eq!(a.kind, "bakery");
    assert_eq!(a.name, None);
}

#[test]
fn amenity_tag_goes_before_shop_tag() {
    let t = tags(&[("shop", "convenience"), ("amenity", "fuel")]);
    let a = Amenity::maybe_new(&t, OsmID::Relation(1), AmenityID(1)).unwrap();
    assert_eq!(a.kind, "fuel");
    assert_eq!(Amenity::is_amenity(&t).as_deref(), Some("fuel"));
}

#[test]
fn entity_without_amenity_or_shop_is_no_amenity() {
    let t = tags(&[("highway", "residential"), ("name", "High Street")]);
    assert!(Amenity::maybe_new(&t, OsmID::Way(5), AmenityID(0)).is_none());
    assert_eq!(Amenity::is_amenity(&t), None);
}
