use walkshed::amenity::{Amenity, OsmID};
use walkshed::find::{CalculateRequest, Person};
use walkshed::graph::Graph;
use walkshed::ids::{AmenityID, IntersectionID, RoadID};
use walkshed::model::{MapModel, RouteRequest};
use walkshed::nodes::NodeMap;
use walkshed::route::{path_to_roads, RouteError, Router};
use walkshed::scrape::{scrape_osm, Edge, GraphError, Junction};

fn person(name: &str, home: usize, minutes: u64) -> Person {
    Person { name: name.to_string(), home: Some(IntersectionID(home)), max_time_minutes: minutes }
}

/// 0 --r0-- 1 --r1-- 2 --r3-- 5      3 --r2-- 4      6
///          \________r4_______/
/// r4 joins 1 and 5 directly, and is longer than r1 and r3 together.
fn town() -> Graph {
    let junctions = vec![
        Junction { id: 0, edges: vec![0] },
        Junction { id: 1, edges: vec![0, 1, 4] },
        Junction { id: 2, edges: vec![1, 3] },
        Junction { id: 3, edges: vec![2] },
        Junction { id: 4, edges: vec![2] },
        Junction { id: 5, edges: vec![3, 4] },
        Junction { id: 6, edges: vec![] },
    ];
    let edges = vec![
        Edge { id: 0, src: 0, dst: 1, length_mm: 80_460 },
        Edge { id: 1, src: 1, dst: 2, length_mm: 134_100 },
        Edge { id: 2, src: 3, dst: 4, length_mm: 13_410 },
        Edge { id: 3, src: 5, dst: 2, length_mm: 13_410 },
        Edge { id: 4, src: 1, dst: 5, length_mm: 500_000 },
    ];
    let amenities = vec![Amenity {
        id: AmenityID(0),
        osm_id: OsmID::Node(1),
        kind: "cafe".to_string(),
        name: None,
    }];
    scrape_osm(&junctions, &edges, amenities, &vec![Some(RoadID(3))]).unwrap()
}

#[test]
fn node_map_numbers_in_order_of_first_use() {
    let mut map = NodeMap::new();
    assert_eq!(map.len(), 0);
    assert_eq!(map.get(IntersectionID(8)), None);
    assert_eq!(map.get_or_insert(IntersectionID(8)), 0);
    assert_eq!(map.get_or_insert(IntersectionID(2)), 1);
    assert_eq!(map.get_or_insert(IntersectionID(8)), 0);
    assert_eq!(map.get_or_insert(IntersectionID(0)), 2);
    assert_eq!(map.len(), 3);
    assert_eq!(map.get(IntersectionID(2)), Some(1));
    assert_eq!(map.get(IntersectionID(1)), None);
    assert_eq!(map.get(IntersectionID(100)), None);
    assert_eq!(map.translate_id(0), IntersectionID(8));
    assert_eq!(map.translate_id(1), IntersectionID(2));
    assert_eq!(map.translate_id(2), IntersectionID(0));
}

#[test]
fn route_along_a_line() {
    let g = town();
    let mut router = Router::new(&g.roads).unwrap();
    assert_eq!(router.route(&g, IntersectionID(0), IntersectionID(2)), Ok(vec![RoadID(0), RoadID(1)]));
    assert_eq!(router.route(&g, IntersectionID(0), IntersectionID(1)), Ok(vec![RoadID(0)]));
}

#[test]
fn route_takes_the_cheaper_way() {
    let g = town();
    let mut router = Router::new(&g.roads).unwrap();
    assert_eq!(router.route(&g, IntersectionID(1), IntersectionID(5)), Ok(vec![RoadID(1), RoadID(3)]));
    assert_eq!(
        router.route(&g, IntersectionID(0), IntersectionID(5)),
        Ok(vec![RoadID(0), RoadID(1), RoadID(3)])
    );
}

#[test]
fn route_back_takes_the_same_roads_in_reverse() {
    let g = town();
    let mut router = Router::new(&g.roads).unwrap();
    for (a, b) in [(0, 2), (0, 5), (1, 5), (3, 4), (2, 0)] {
        let there = router.route(&g, IntersectionID(a), IntersectionID(b)).unwrap();
        let mut back = router.route(&g, IntersectionID(b), IntersectionID(a)).unwrap();
        back.reverse();
        assert_eq!(there, back);
    }
}

#[test]
fn route_to_itself_fails() {
    let g = town();
    let mut router = Router::new(&g.roads).unwrap();
    assert_eq!(router.route(&g, IntersectionID(1), IntersectionID(1)), Err(RouteError::IdenticalEndpoints));
    assert_eq!(router.route(&g, IntersectionID(6), IntersectionID(6)), Err(RouteError::IdenticalEndpoints));
}

#[test]
fn route_between_separate_parts_fails() {
    let g = town();
    let mut router = Router::new(&g.roads).unwrap();
    assert_eq!(router.route(&g, IntersectionID(0), IntersectionID(3)), Err(RouteError::NoPathFound));
    assert_eq!(router.route(&g, IntersectionID(4), IntersectionID(5)), Err(RouteError::NoPathFound));
    // the graph is as it was: a later query is answered
    assert_eq!(router.route(&g, IntersectionID(3), IntersectionID(4)), Ok(vec![RoadID(2)]));
}

#[test]
fn route_from_an_intersection_without_roads_fails() {
    let g = town();
    let mut router = Router::new(&g.roads).unwrap();
    assert_eq!(router.route(&g, IntersectionID(6), IntersectionID(0)), Err(RouteError::NoPathFound));
    assert_eq!(router.route(&g, IntersectionID(0), IntersectionID(60)), Err(RouteError::NoPathFound));
}

#[test]
fn router_of_no_roads_finds_no_path() {
    let g = Graph::new(&Vec::new(), &Vec::new(), Vec::new(), &Vec::new()).unwrap();
    let mut router = Router::new(&g.roads).unwrap();
    assert_eq!(router.route(&g, IntersectionID(0), IntersectionID(1)), Err(RouteError::NoPathFound));
}

#[test]
fn shortest_roads_are_routed_too() {
    let junctions = vec![
        Junction { id: 0, edges: vec![0] },
        Junction { id: 1, edges: vec![0, 1] },
        Junction { id: 2, edges: vec![1] },
    ];
    let edges = vec![Edge { id: 0, src: 0, dst: 1, length_mm: 1 }, Edge { id: 1, src: 1, dst: 2, length_mm: 0 }];
    let g = scrape_osm(&junctions, &edges, Vec::new(), &Vec::new()).unwrap();
    let mut router = Router::new(&g.roads).unwrap();
    assert_eq!(router.route(&g, IntersectionID(0), IntersectionID(1)), Ok(vec![RoadID(0)]));
    assert_eq!(router.route(&g, IntersectionID(2), IntersectionID(0)), Ok(vec![RoadID(1), RoadID(0)]));
}

#[test]
fn route_takes_the_cheaper_of_two_roads_between_the_same_intersections() {
    // roads 0 and 1 both join 0 and 1; road 0 is listed first and is the
    // longer one
    let junctions = vec![
        Junction { id: 0, edges: vec![0, 1] },
        Junction { id: 1, edges: vec![0, 1, 2] },
        Junction { id: 2, edges: vec![2] },
    ];
    let edges = vec![
        Edge { id: 0, src: 0, dst: 1, length_mm: 412_000 },
        Edge { id: 1, src: 0, dst: 1, length_mm: 100_000 },
        Edge { id: 2, src: 1, dst: 2, length_mm: 50_000 },
    ];
    let g = scrape_osm(&junctions, &edges, Vec::new(), &Vec::new()).unwrap();
    let mut router = Router::new(&g.roads).unwrap();
    assert_eq!(router.route(&g, IntersectionID(0), IntersectionID(1)), Ok(vec![RoadID(1)]));
    assert_eq!(router.route(&g, IntersectionID(1), IntersectionID(0)), Ok(vec![RoadID(1)]));
    assert_eq!(router.route(&g, IntersectionID(2), IntersectionID(0)), Ok(vec![RoadID(2), RoadID(1)]));
}

#[test]
fn road_from_an_intersection_to_itself_is_never_on_a_route() {
    let junctions = vec![Junction { id: 0, edges: vec![0, 1] }, Junction { id: 1, edges: vec![1] }];
    let edges = vec![Edge { id: 0, src: 0, dst: 0, length_mm: 10 }, Edge { id: 1, src: 1, dst: 0, length_mm: 10 }];
    let g = scrape_osm(&junctions, &edges, Vec::new(), &Vec::new()).unwrap();
    let mut router = Router::new(&g.roads).unwrap();
    assert_eq!(router.route(&g, IntersectionID(0), IntersectionID(1)), Ok(vec![RoadID(1)]));
    assert_eq!(router.route(&g, IntersectionID(0), IntersectionID(0)), Err(RouteError::IdenticalEndpoints));
}

#[test]
fn both_ends_of_every_road_are_routed_both_ways() {
    let g = town();
    let mut router = Router::new(&g.roads).unwrap();
    for road in &g.roads {
        assert!(router.route(&g, road.src_i, road.dst_i).is_ok());
        assert!(router.route(&g, road.dst_i, road.src_i).is_ok());
    }
}

#[test]
fn route_passes_no_intersection_twice() {
    let g = town();
    let mut router = Router::new(&g.roads).unwrap();
    for a in 0..6 {
        for b in 0..6 {
            if let Ok(roads) = router.route(&g, IntersectionID(a), IntersectionID(b)) {
                assert!(!roads.is_empty());
                let mut passed = vec![IntersectionID(a)];
                for r in roads {
                    let next = g.roads[r.0].other_side(*passed.last().unwrap());
                    assert!(!passed.contains(&next));
                    passed.push(next);
                }
                assert_eq!(*passed.last().unwrap(), IntersectionID(b));
            }
        }
    }
}

#[test]
fn path_becomes_roads() {
    let g = town();
    let mut map = NodeMap::new();
    // nodes 0, 1, 2, 3 stand for intersections 5, 2, 1, 3
    for i in [5, 2, 1, 3] {
        map.get_or_insert(IntersectionID(i));
    }
    assert_eq!(path_to_roads(&g, &map, Some(vec![0, 1, 2])), Ok(vec![RoadID(3), RoadID(1)]));
    assert_eq!(path_to_roads(&g, &map, Some(vec![2, 0])), Ok(vec![RoadID(4)]));
    assert_eq!(path_to_roads(&g, &map, Some(vec![2])), Ok(Vec::new()));
    assert_eq!(path_to_roads(&g, &map, Some(Vec::new())), Ok(Vec::new()));
}

#[test]
fn no_path_is_no_route() {
    let g = town();
    let map = NodeMap::new();
    assert_eq!(path_to_roads(&g, &map, None), Err(RouteError::NoPathFound));
}

#[test]
fn path_with_a_node_of_no_intersection_is_refused() {
    let g = town();
    let mut map = NodeMap::new();
    map.get_or_insert(IntersectionID(1));
    map.get_or_insert(IntersectionID(2));
    assert_eq!(path_to_roads(&g, &map, Some(vec![0, 1, 2])), Err(RouteError::UnknownNode));
    assert_eq!(path_to_roads(&g, &map, Some(vec![7, 0])), Err(RouteError::UnknownNode));
}

#[test]
fn path_over_a_missing_road_is_refused() {
    let g = town();
    let mut map = NodeMap::new();
    for i in [0, 1, 2] {
        map.get_or_insert(IntersectionID(i));
    }
    assert_eq!(path_to_roads(&g, &map, Some(vec![0, 2])), Err(RouteError::MissingRoad));
    // the first failure on the path is the one reported
    assert_eq!(path_to_roads(&g, &map, Some(vec![0, 2, 9])), Err(RouteError::MissingRoad));
    assert_eq!(path_to_roads(&g, &map, Some(vec![0, 9, 2])), Err(RouteError::UnknownNode));
}

#[test]
fn model_answers_both_queries() {
    let mut model = MapModel::new(town()).unwrap();
    assert_eq!(model.get_graph().roads.len(), 5);
    let pois = model.find_pois(CalculateRequest { people: vec![person("ann", 2, 1), person("bob", 5, 1)] });
    assert_eq!(pois.len(), 1);
    assert_eq!(pois[0].amenity, AmenityID(0));
    assert_eq!(pois[0].times_per_person, vec![("ann".to_string(), 10), ("bob".to_string(), 10)]);
    let roads = model.routes_to(RouteRequest {
        people: vec![person("ann", 0, 1), person("bob", 5, 1)],
        point: Some(IntersectionID(2)),
    });
    assert_eq!(roads, Ok(vec![RoadID(0), RoadID(1), RoadID(3)]));
}

#[test]
fn routes_of_several_people_follow_each_other() {
    let mut model = MapModel::new(town()).unwrap();
    let roads = model.routes_to(RouteRequest {
        people: vec![person("bob", 5, 1), person("ann", 0, 1), person("cy", 2, 1)],
        point: Some(IntersectionID(1)),
    });
    assert_eq!(roads, Ok(vec![RoadID(3), RoadID(1), RoadID(0), RoadID(1)]));
}

#[test]
fn one_failing_route_fails_the_request() {
    let mut model = MapModel::new(town()).unwrap();
    let separate = model.routes_to(RouteRequest {
        people: vec![person("ann", 0, 1), person("dan", 3, 1)],
        point: Some(IntersectionID(2)),
    });
    assert_eq!(separate, Err(RouteError::NoPathFound));
    let at_home = model.routes_to(RouteRequest {
        people: vec![person("ann", 0, 1), person("cy", 2, 1)],
        point: Some(IntersectionID(2)),
    });
    assert_eq!(at_home, Err(RouteError::IdenticalEndpoints));
}

#[test]
fn nobody_walks_to_a_point_off_the_map() {
    let mut model = MapModel::new(town()).unwrap();
    let roads = model.routes_to(RouteRequest { people: vec![person("ann", 0, 1)], point: None });
    assert_eq!(roads, Ok(Vec::new()));
    let nobody = Person { name: "n".to_string(), home: None, max_time_minutes: 1 };
    let roads = model.routes_to(RouteRequest { people: vec![nobody], point: Some(IntersectionID(2)) });
    assert_eq!(roads, Ok(Vec::new()));
    let roads = model.routes_to(RouteRequest { people: Vec::new(), point: Some(IntersectionID(2)) });
    assert_eq!(roads, Ok(Vec::new()));
}

#[test]
fn empty_model_returns_empty_results() {
    let g = Graph::new(&Vec::new(), &Vec::new(), Vec::new(), &Vec::new()).unwrap();
    let mut model = MapModel::new(g).unwrap();
    let nobody = || Person { name: "n".to_string(), home: None, max_time_minutes: 1 };
    assert!(model.find_pois(CalculateRequest { people: vec![nobody()] }).is_empty());
    assert_eq!(model.routes_to(RouteRequest { people: vec![nobody()], point: None }), Ok(Vec::new()));
}

fn cost_of(g: &Graph, roads: &[RoadID]) -> u64 {
    roads.iter().map(|r| g.roads[r.0].get_cost()).sum()
}

#[test]
fn route_there_costs_what_the_route_back_costs() {
    let g = town();
    let mut router = Router::new(&g.roads).unwrap();
    for a in 0..6 {
        for b in 0..6 {
            let there = router.route(&g, IntersectionID(a), IntersectionID(b));
            let back = router.route(&g, IntersectionID(b), IntersectionID(a));
            match (there, back) {
                (Ok(t), Ok(b)) => assert_eq!(cost_of(&g, &t), cost_of(&g, &b)),
                (Err(t), Err(b)) => assert_eq!(t, b),
                _ => panic!("a route one way and none the other"),
            }
        }
    }
}

#[test]
fn route_is_a_walk_from_start_to_end() {
    let g = town();
    let mut router = Router::new(&g.roads).unwrap();
    for (a, b) in [(0, 5), (5, 0), (2, 1), (4, 3)] {
        let roads = router.route(&g, IntersectionID(a), IntersectionID(b)).unwrap();
        let mut at = IntersectionID(a);
        for r in roads {
            assert!(g.intersections[at.0].roads.contains(&r));
            at = g.roads[r.0].other_side(at);
        }
        assert_eq!(at, IntersectionID(b));
    }
}

#[test]
fn route_costs_as_much_as_the_search_says() {
    // the amenity is on r3, which ends at intersection 5: the walk to it
    // from 0 is the route from 0 to 2 and then r3
    let g = town();
    let mut router = Router::new(&g.roads).unwrap();
    let roads = router.route(&g, IntersectionID(0), IntersectionID(2)).unwrap();
    let costs = walkshed::search::reach_costs(&g, IntersectionID(0), u64::MAX);
    assert_eq!(costs[0], Some(cost_of(&g, &roads) + g.roads[3].get_cost()));
    assert_eq!(costs[0], Some(60_000 + 100_000 + 10_000));
}

#[test]
fn failures_say_what_failed() {
    assert_eq!(RouteError::IdenticalEndpoints.describe(), "start = end");
    assert_eq!(RouteError::NoPathFound.describe(), "No path");
    assert_eq!(RouteError::TooHeavy.describe(), "the costs of the roads are too large to add up");
    assert_eq!(RouteError::UnknownNode.describe(), "the path names a node of no intersection");
    assert_eq!(RouteError::MissingRoad.describe(), "no road between two intersections of the path");
    assert_eq!(GraphError::BrokenRoad.describe(), "a road does not join two intersections that list it");
    assert_eq!(GraphError::BrokenIntersection.describe(), "an intersection lists what is no road of its own");
    assert_eq!(GraphError::BrokenAmenity.describe(), "an amenity is out of place");
    assert_eq!(GraphError::BrokenSnap.describe(), "the nearest roads do not fit the amenities");
}
