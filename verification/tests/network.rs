use rstar::primitives::GeomWithData;
use rstar::RTree;
use walkshed::amenity::{Amenity, OsmID};
use walkshed::graph::{Graph, Road};
use walkshed::ids::{AmenityID, IntersectionID, RoadID};
use walkshed::scrape::{find_fault, scrape_osm, snap_amenities, Edge, GraphError, Junction};

fn amenity(id: usize, kind: &str) -> Amenity {
    Amenity { id: AmenityID(id), osm_id: OsmID::Node(100 + id as i64), kind: kind.to_string(), name: None }
}

fn edge(id: usize, src: usize, dst: usize, length_mm: u32) -> Edge {
    Edge { id, src, dst, length_mm }
}

fn junction(id: usize, edges: &[usize]) -> Junction {
    Junction { id, edges: edges.to_vec() }
}

/// 0 --e0-- 1 --e1-- 2
fn line() -> (Vec<Junction>, Vec<Edge>) {
    (
        vec![junction(0, &[0]), junction(1, &[0, 1]), junction(2, &[1])],
        vec![edge(0, 0, 1, 80_460), edge(1, 1, 2, 134_100)],
    )
}

#[test]
fn walking_cost_of_a_road() {
    let road = |length_mm| Road {
        id: RoadID(0),
        src_i: IntersectionID(0),
        dst_i: IntersectionID(1),
        length_mm,
        amenities: Vec::new(),
    };
    // 1 341 mm take a second; what is left of a millisecond counts as one
    assert_eq!(road(1_341).get_cost(), 1_000);
    assert_eq!(road(1_342).get_cost(), 1_001);
    assert_eq!(road(80_460).get_cost(), 60_000);
    assert_eq!(road(1_000_000).get_cost(), 745_713);
    assert_eq!(road(2).get_cost(), 2);
    assert_eq!(road(1).get_cost(), 1);
    // no road is free
    assert_eq!(road(0).get_cost(), 1);
    assert_eq!(road(u32::MAX).get_cost(), 3_202_809_318);
}

#[test]
fn other_side_of_a_road() {
    let road = Road {
        id: RoadID(3),
        src_i: IntersectionID(4),
        dst_i: IntersectionID(9),
        length_mm: 10,
        amenities: Vec::new(),
    };
    assert_eq!(road.other_side(IntersectionID(4)), IntersectionID(9));
    assert_eq!(road.other_side(IntersectionID(9)), IntersectionID(4));
    assert_eq!(road.other_side(IntersectionID(1)), IntersectionID(4));
}

#[test]
fn assembles_a_line_with_snapped_amenities() {
    let (junctions, edges) = line();
    let amenities = vec![amenity(0, "cafe"), amenity(1, "pub"), amenity(2, "bank"), amenity(3, "bar")];
    let nearest = vec![Some(RoadID(1)), Some(RoadID(0)), None, Some(RoadID(1))];
    let g = scrape_osm(&junctions, &edges, amenities, &nearest).unwrap();
    assert_eq!(g.roads.len(), 2);
    assert_eq!(g.intersections.len(), 3);
    assert_eq!(g.amenities.len(), 4);
    assert_eq!(g.roads[0].id, RoadID(0));
    assert_eq!(g.roads[0].src_i, IntersectionID(0));
    assert_eq!(g.roads[0].dst_i, IntersectionID(1));
    assert_eq!(g.roads[0].length_mm, 80_460);
    assert_eq!(g.roads[0].amenities, vec![AmenityID(1)]);
    assert_eq!(g.roads[1].amenities, vec![AmenityID(0), AmenityID(3)]);
    assert_eq!(g.intersections[1].id, IntersectionID(1));
    assert_eq!(g.intersections[1].roads, vec![RoadID(0), RoadID(1)]);
    assert_eq!(g.amenities[2].kind, "bank");
}

#[test]
fn assembling_twice_gives_the_same_graph() {
    let build = || {
        let (junctions, edges) = line();
        let amenities = vec![amenity(0, "cafe"), amenity(1, "pub")];
        let nearest = vec![Some(RoadID(1)), Some(RoadID(1))];
        scrape_osm(&junctions, &edges, amenities, &nearest).unwrap()
    };
    let (a, b) = (build(), build());
    assert_eq!(a.roads.len(), b.roads.len());
    assert_eq!(a.intersections.len(), b.intersections.len());
    assert_eq!(a.amenities.len(), b.amenities.len());
    for r in 0..a.roads.len() {
        assert_eq!(a.roads[r].src_i, b.roads[r].src_i);
        assert_eq!(a.roads[r].dst_i, b.roads[r].dst_i);
        assert_eq!(a.roads[r].length_mm, b.roads[r].length_mm);
        assert_eq!(a.roads[r].amenities, b.roads[r].amenities);
    }
}

#[test]
fn network_without_ways_is_an_empty_graph() {
    let g = Graph::new(&Vec::new(), &Vec::new(), vec![amenity(0, "cafe")], &vec![None]).unwrap();
    assert!(g.roads.is_empty());
    assert!(g.intersections.is_empty());
    assert_eq!(g.amenities.len(), 1);
}

#[test]
fn graph_new_assembles_as_scrape_does() {
    let (junctions, edges) = line();
    let g = Graph::new(&junctions, &edges, vec![amenity(0, "cafe")], &vec![Some(RoadID(0))]).unwrap();
    assert_eq!(g.roads[0].amenities, vec![AmenityID(0)]);
    assert!(g.roads[1].amenities.is_empty());
}

#[test]
fn edge_out_of_place_is_a_broken_road() {
    let (junctions, mut edges) = line();
    edges[1].id = 5;
    assert_eq!(find_fault(&junctions, &edges, &Vec::new(), &Vec::new()), Some(GraphError::BrokenRoad));
    assert_eq!(scrape_osm(&junctions, &edges, Vec::new(), &Vec::new()).err(), Some(GraphError::BrokenRoad));
}

#[test]
fn edge_to_a_missing_junction_is_a_broken_road() {
    let (junctions, mut edges) = line();
    edges[1].dst = 3;
    assert_eq!(scrape_osm(&junctions, &edges, Vec::new(), &Vec::new()).err(), Some(GraphError::BrokenRoad));
}

#[test]
fn edge_that_its_end_does_not_list_is_a_broken_road() {
    let (mut junctions, edges) = line();
    junctions[2].edges.clear();
    assert_eq!(scrape_osm(&junctions, &edges, Vec::new(), &Vec::new()).err(), Some(GraphError::BrokenRoad));
}

#[test]
fn junction_out_of_place_is_a_broken_intersection() {
    let (mut junctions, edges) = line();
    junctions[0].id = 1;
    assert_eq!(
        scrape_osm(&junctions, &edges, Vec::new(), &Vec::new()).err(),
        Some(GraphError::BrokenIntersection)
    );
}

#[test]
fn junction_listing_a_foreign_edge_is_a_broken_intersection() {
    let (mut junctions, edges) = line();
    junctions[0].edges.push(1);
    assert_eq!(
        scrape_osm(&junctions, &edges, Vec::new(), &Vec::new()).err(),
        Some(GraphError::BrokenIntersection)
    );
    let (mut junctions, edges) = line();
    junctions[0].edges.push(7);
    assert_eq!(
        scrape_osm(&junctions, &edges, Vec::new(), &Vec::new()).err(),
        Some(GraphError::BrokenIntersection)
    );
}

#[test]
fn amenity_out_of_place_is_a_broken_amenity() {
    let (junctions, edges) = line();
    let amenities = vec![amenity(0, "cafe"), amenity(0, "pub")];
    assert_eq!(
        scrape_osm(&junctions, &edges, amenities, &vec![None, None]).err(),
        Some(GraphError::BrokenAmenity)
    );
}

#[test]
fn nearest_roads_that_do_not_fit_are_a_broken_snap() {
    let (junctions, edges) = line();
    assert_eq!(
        scrape_osm(&junctions, &edges, vec![amenity(0, "cafe")], &Vec::new()).err(),
        Some(GraphError::BrokenSnap)
    );
    assert_eq!(
        scrape_osm(&junctions, &edges, vec![amenity(0, "cafe")], &vec![Some(RoadID(2))]).err(),
        Some(GraphError::BrokenSnap)
    );
}

#[test]
fn first_fault_is_reported() {
    let (mut junctions, mut edges) = line();
    edges[0].src = 9;
    junctions[1].id = 0;
    assert_eq!(
        scrape_osm(&junctions, &edges, vec![amenity(4, "cafe")], &Vec::new()).err(),
        Some(GraphError::BrokenRoad)
    );
}

#[test]
fn snapping_appends_in_the_order_of_the_amenities() {
    let mut roads = vec![
        Road { id: RoadID(0), src_i: IntersectionID(0), dst_i: IntersectionID(1), length_mm: 5, amenities: vec![AmenityID(9)] },
        Road { id: RoadID(1), src_i: IntersectionID(1), dst_i: IntersectionID(2), length_mm: 6, amenities: Vec::new() },
    ];
    let amenities = vec![amenity(0, "a"), amenity(1, "b"), amenity(2, "c")];
    snap_amenities(&mut roads, &amenities, &vec![Some(RoadID(0)), None, Some(RoadID(0))]);
    assert_eq!(roads[0].amenities, vec![AmenityID(9), AmenityID(0), AmenityID(2)]);
    assert!(roads[1].amenities.is_empty());
    assert_eq!(roads[0].length_mm, 5);
    assert_eq!(roads[1].src_i, IntersectionID(1));
}

#[test]
fn without_roads_nothing_is_snapped() {
    let mut roads: Vec<Road> = Vec::new();
    snap_amenities(&mut roads, &vec![amenity(0, "a")], &vec![None]);
    assert!(roads.is_empty());
}

#[test]
fn roads_of_an_intersection() {
    let (junctions, edges) = line();
    let g = scrape_osm(&junctions, &edges, Vec::new(), &Vec::new()).unwrap();
    let at_1: Vec<RoadID> = g.roads_per_intersection(IntersectionID(1)).iter().map(|r| r.id).collect();
    assert_eq!(at_1, vec![RoadID(0), RoadID(1)]);
    assert!(g.roads_per_intersection(IntersectionID(3)).is_empty());
}

#[test]
fn edge_between_two_intersections() {
    let (junctions, edges) = line();
    let g = scrape_osm(&junctions, &edges, Vec::new(), &Vec::new()).unwrap();
    assert_eq!(g.find_edge(IntersectionID(1), IntersectionID(2)).map(|r| r.id), Some(RoadID(1)));
    assert_eq!(g.find_edge(IntersectionID(2), IntersectionID(1)).map(|r| r.id), Some(RoadID(1)));
    assert!(g.find_edge(IntersectionID(0), IntersectionID(2)).is_none());
    assert!(g.find_edge(IntersectionID(5), IntersectionID(0)).is_none());
}

#[test]
fn cheapest_edge_between_two_intersections() {
    // roads 0 and 1 both join 0 and 1; road 1 is the shorter one; roads 2
    // and 3 both join 1 and 2 and are equally long
    let junctions = vec![junction(0, &[0, 1]), junction(1, &[0, 1, 3, 2]), junction(2, &[2, 3])];
    let edges = vec![edge(0, 0, 1, 412_000), edge(1, 1, 0, 100_000), edge(2, 1, 2, 5_000), edge(3, 2, 1, 5_000)];
    let g = scrape_osm(&junctions, &edges, Vec::new(), &Vec::new()).unwrap();
    assert_eq!(g.find_edge(IntersectionID(0), IntersectionID(1)).map(|r| r.id), Some(RoadID(0)));
    assert_eq!(g.find_cheapest_edge(IntersectionID(0), IntersectionID(1)).map(|r| r.id), Some(RoadID(1)));
    assert_eq!(g.find_cheapest_edge(IntersectionID(1), IntersectionID(0)).map(|r| r.id), Some(RoadID(1)));
    // of two cheapest the first in the list counts
    assert_eq!(g.find_cheapest_edge(IntersectionID(1), IntersectionID(2)).map(|r| r.id), Some(RoadID(3)));
    assert_eq!(g.find_cheapest_edge(IntersectionID(2), IntersectionID(1)).map(|r| r.id), Some(RoadID(2)));
    assert!(g.find_cheapest_edge(IntersectionID(0), IntersectionID(2)).is_none());
    assert!(g.find_cheapest_edge(IntersectionID(7), IntersectionID(0)).is_none());
}

#[test]
fn amenity_at_the_midpoint_of_a_road_snaps_to_it() {
    let lines = vec![
        geo::LineString::from(vec![(0.0, 0.0), (100.0, 0.0)]),
        geo::LineString::from(vec![(0.0, 1000.0), (100.0, 1000.0)]),
        geo::LineString::from(vec![(5000.0, -40.0), (5000.0, 40.0)]),
    ];
    let index = RTree::bulk_load(
        lines.iter().cloned().enumerate().map(|(r, l)| GeomWithData::new(l, RoadID(r))).collect(),
    );
    let points = vec![geo::Point::new(50.0, 1000.0), geo::Point::new(50.0, 0.0)];
    let nearest: Vec<Option<RoadID>> =
        points.iter().map(|p| index.nearest_neighbor(p).map(|found| found.data)).collect();
    let junctions = vec![
        junction(0, &[0]),
        junction(1, &[0]),
        junction(2, &[1]),
        junction(3, &[1]),
        junction(4, &[2]),
        junction(5, &[2]),
    ];
    let edges = vec![edge(0, 0, 1, 100_000), edge(1, 2, 3, 100_000), edge(2, 4, 5, 80_000)];
    let g = scrape_osm(&junctions, &edges, vec![amenity(0, "cafe"), amenity(1, "pub")], &nearest).unwrap();
    assert_eq!(g.roads[1].amenities, vec![AmenityID(0)]);
    assert_eq!(g.roads[0].amenities, vec![AmenityID(1)]);
    assert!(g.roads[2].amenities.is_empty());
}
