use walkshed::amenity::{Amenity, OsmID};
use walkshed::find::{find_pois, get_costs, time_limit, CalculateRequest, Person};
use walkshed::search::reach_costs;
use walkshed::graph::Graph;
use walkshed::ids::{AmenityID, IntersectionID, RoadID};
use walkshed::queue::{CostQueue, PriorityQueueItem};
use walkshed::scrape::{scrape_osm, Edge, Junction};

fn amenity(id: usize, kind: &str, name: Option<&str>) -> Amenity {
    Amenity {
        id: AmenityID(id),
        osm_id: OsmID::Way(200 + id as i64),
        kind: kind.to_string(),
        name: name.map(|n| n.to_string()),
    }
}

fn person(name: &str, home: usize, minutes: u64) -> Person {
    Person { name: name.to_string(), home: Some(IntersectionID(home)), max_time_minutes: minutes }
}

/// 0 --r0 (60 s)-- 1 --r1 (100 s)-- 2      3 --r2 (10 s)-- 4
/// amenity 0 on r0, amenity 1 on r1, amenity 2 on r2, amenity 3 on no road
fn town() -> Graph {
    let junctions = vec![
        Junction { id: 0, edges: vec![0] },
        Junction { id: 1, edges: vec![0, 1] },
        Junction { id: 2, edges: vec![1] },
        Junction { id: 3, edges: vec![2] },
        Junction { id: 4, edges: vec![2] },
    ];
    let edges = vec![
        Edge { id: 0, src: 0, dst: 1, length_mm: 80_460 },
        Edge { id: 1, src: 1, dst: 2, length_mm: 134_100 },
        Edge { id: 2, src: 3, dst: 4, length_mm: 13_410 },
    ];
    let amenities = vec![
        amenity(0, "cafe", Some("Corner Cafe")),
        amenity(1, "bakery", None),
        amenity(2, "pub", None),
        amenity(3, "bank", None),
    ];
    let nearest = vec![Some(RoadID(0)), Some(RoadID(1)), Some(RoadID(2)), None];
    scrape_osm(&junctions, &edges, amenities, &nearest).unwrap()
}

/// Two intersections joined by one road of the given length, with one amenity.
fn one_road(length_mm: u32) -> Graph {
    let junctions = vec![Junction { id: 0, edges: vec![0] }, Junction { id: 1, edges: vec![0] }];
    let edges = vec![Edge { id: 0, src: 0, dst: 1, length_mm }];
    scrape_osm(&junctions, &edges, vec![amenity(0, "cafe", None)], &vec![Some(RoadID(0))]).unwrap()
}

#[test]
fn queue_hands_out_the_cheapest_first() {
    let mut q = CostQueue::new();
    assert_eq!(q.len(), 0);
    assert_eq!(q.pop(), None);
    q.push(PriorityQueueItem::new(30, IntersectionID(3)));
    q.push(PriorityQueueItem::new(10, IntersectionID(1)));
    q.push(PriorityQueueItem::new(20, IntersectionID(2)));
    q.push(PriorityQueueItem::new(10, IntersectionID(1)));
    assert_eq!(q.len(), 4);
    assert_eq!(q.pop(), Some(PriorityQueueItem { cost: 10, value: IntersectionID(1) }));
    assert_eq!(q.pop(), Some(PriorityQueueItem { cost: 10, value: IntersectionID(1) }));
    assert_eq!(q.pop(), Some(PriorityQueueItem { cost: 20, value: IntersectionID(2) }));
    assert_eq!(q.pop(), Some(PriorityQueueItem { cost: 30, value: IntersectionID(3) }));
    assert_eq!(q.pop(), None);
    assert_eq!(q.len(), 0);
}

#[test]
fn time_limit_in_milliseconds() {
    assert_eq!(time_limit(&person("a", 0, 0)), 0);
    assert_eq!(time_limit(&person("a", 0, 15)), 900_000);
    assert_eq!(time_limit(&person("a", 0, u64::MAX / 60_000)), (u64::MAX / 60_000) * 60_000);
    assert_eq!(time_limit(&person("a", 0, u64::MAX / 60_000 + 1)), u64::MAX);
    assert_eq!(time_limit(&person("a", 0, u64::MAX)), u64::MAX);
}

#[test]
fn amenity_on_a_single_road_is_reached_within_budget() {
    // 80 460 mm at 1 341 mm/s take 60 s
    let g = one_road(80_460);
    assert_eq!(get_costs(&g, &person("a", 0, 1)), vec![Some(60_000)]);
    assert_eq!(get_costs(&g, &person("a", 1, 1)), vec![Some(60_000)]);
    assert_eq!(get_costs(&g, &person("a", 0, 5)), vec![Some(60_000)]);
}

#[test]
fn amenity_on_a_single_road_is_not_reached_beyond_budget() {
    // 80 461 mm take a little more than a minute
    let g = one_road(80_461);
    assert_eq!(get_costs(&g, &person("a", 0, 1)), vec![None]);
    assert_eq!(get_costs(&g, &person("a", 0, 0)), vec![None]);
    assert_eq!(get_costs(&g, &person("a", 0, 2)), vec![Some(60_001)]);
}

#[test]
fn costs_are_the_least_along_the_roads() {
    let g = town();
    assert_eq!(
        reach_costs(&g, IntersectionID(0), 1_000_000),
        vec![Some(60_000), Some(160_000), None, None]
    );
    assert_eq!(
        reach_costs(&g, IntersectionID(1), 1_000_000),
        vec![Some(60_000), Some(100_000), None, None]
    );
    assert_eq!(
        reach_costs(&g, IntersectionID(2), 1_000_000),
        vec![Some(160_000), Some(100_000), None, None]
    );
    assert_eq!(reach_costs(&g, IntersectionID(4), 1_000_000), vec![None, None, Some(10_000), None]);
}

#[test]
fn budget_cuts_the_search() {
    let g = town();
    assert_eq!(reach_costs(&g, IntersectionID(0), 159_999), vec![Some(60_000), None, None, None]);
    assert_eq!(reach_costs(&g, IntersectionID(0), 160_000), vec![Some(60_000), Some(160_000), None, None]);
    assert_eq!(reach_costs(&g, IntersectionID(0), 59_999), vec![None, None, None, None]);
    assert_eq!(reach_costs(&g, IntersectionID(0), u64::MAX), vec![Some(60_000), Some(160_000), None, None]);
}

#[test]
fn shorter_way_round_wins() {
    // a triangle: 0-1 (10 s), 1-2 (10 s), 0-2 (50 s); the amenity is on a
    // spur 2-3 (1 s)
    let junctions = vec![
        Junction { id: 0, edges: vec![2, 0] },
        Junction { id: 1, edges: vec![0, 1] },
        Junction { id: 2, edges: vec![1, 2, 3] },
        Junction { id: 3, edges: vec![3] },
    ];
    let edges = vec![
        Edge { id: 0, src: 0, dst: 1, length_mm: 13_410 },
        Edge { id: 1, src: 2, dst: 1, length_mm: 13_410 },
        Edge { id: 2, src: 0, dst: 2, length_mm: 67_050 },
        Edge { id: 3, src: 2, dst: 3, length_mm: 1_341 },
    ];
    let g = scrape_osm(&junctions, &edges, vec![amenity(0, "cafe", None)], &vec![Some(RoadID(3))]).unwrap();
    assert_eq!(reach_costs(&g, IntersectionID(0), 600_000), vec![Some(21_000)]);
    assert_eq!(reach_costs(&g, IntersectionID(0), 20_999), vec![None]);
}

#[test]
fn longer_budget_never_removes_an_amenity() {
    let g = town();
    let mut before = get_costs(&g, &person("a", 0, 0));
    for minutes in 1..6 {
        let after = get_costs(&g, &person("a", 0, minutes));
        for a in 0..before.len() {
            if before[a].is_some() {
                assert_eq!(after[a], before[a]);
            }
        }
        before = after;
    }
    assert_eq!(before, vec![Some(60_000), Some(160_000), None, None]);
}

#[test]
fn person_without_home_reaches_nothing() {
    let g = town();
    let nobody = Person { name: "n".to_string(), home: None, max_time_minutes: 60 };
    assert_eq!(get_costs(&g, &nobody), vec![None, None, None, None]);
    assert_eq!(get_costs(&g, &person("far", 17, 60)), vec![None, None, None, None]);
}

#[test]
fn empty_graph_gives_empty_results() {
    let g = Graph::new(&Vec::new(), &Vec::new(), Vec::new(), &Vec::new()).unwrap();
    let nobody = Person { name: "n".to_string(), home: None, max_time_minutes: 60 };
    assert!(get_costs(&g, &nobody).is_empty());
    assert!(find_pois(&g, CalculateRequest { people: vec![nobody] }).is_empty());
}

#[test]
fn pois_of_one_person() {
    let g = town();
    let pois = find_pois(&g, CalculateRequest { people: vec![person("ann", 0, 3)] });
    assert_eq!(pois.len(), 2);
    assert_eq!(pois[0].amenity, AmenityID(0));
    assert_eq!(pois[0].osm_id, OsmID::Way(200));
    assert_eq!(pois[0].kind, "cafe");
    assert_eq!(pois[0].name.as_deref(), Some("Corner Cafe"));
    assert_eq!(pois[0].times_per_person, vec![("ann".to_string(), 60)]);
    assert_eq!(pois[1].amenity, AmenityID(1));
    assert_eq!(pois[1].kind, "bakery");
    assert_eq!(pois[1].name, None);
    assert_eq!(pois[1].times_per_person, vec![("ann".to_string(), 160)]);
}

#[test]
fn pois_are_what_everybody_reaches() {
    let g = town();
    let people = vec![person("ann", 0, 3), person("bob", 2, 2)];
    let pois = find_pois(&g, CalculateRequest { people });
    assert_eq!(pois.len(), 1);
    assert_eq!(pois[0].amenity, AmenityID(1));
    assert_eq!(pois[0].times_per_person, vec![("ann".to_string(), 160), ("bob".to_string(), 100)]);
}

#[test]
fn costs_are_given_in_whole_seconds() {
    // 80 461 mm take 60 001 ms, which are 60 whole seconds
    let g = one_road(80_461);
    let pois = find_pois(&g, CalculateRequest { people: vec![person("ann", 0, 2)] });
    assert_eq!(pois[0].times_per_person, vec![("ann".to_string(), 60)]);
}

#[test]
fn dropping_a_person_never_shrinks_the_result() {
    let g = town();
    let all = find_pois(
        &g,
        CalculateRequest { people: vec![person("ann", 0, 3), person("bob", 2, 2), person("cy", 1, 2)] },
    );
    let common: Vec<AmenityID> = all.iter().map(|p| p.amenity).collect();
    assert_eq!(common, vec![AmenityID(1)]);
    for left_out in 0..3 {
        let mut people = vec![person("ann", 0, 3), person("bob", 2, 2), person("cy", 1, 2)];
        people.remove(left_out);
        let fewer: Vec<AmenityID> =
            find_pois(&g, CalculateRequest { people }).iter().map(|p| p.amenity).collect();
        for a in &common {
            assert!(fewer.contains(a));
        }
    }
    let without_bob: Vec<AmenityID> =
        find_pois(&g, CalculateRequest { people: vec![person("ann", 0, 3), person("cy", 1, 2)] })
            .iter()
            .map(|p| p.amenity)
            .collect();
    assert_eq!(without_bob, vec![AmenityID(0), AmenityID(1)]);
}

#[test]
fn people_in_different_parts_share_nothing() {
    let g = town();
    let pois = find_pois(&g, CalculateRequest { people: vec![person("ann", 0, 30), person("dan", 3, 30)] });
    assert!(pois.is_empty());
}

#[test]
fn request_without_people_has_no_pois() {
    let g = town();
    assert!(find_pois(&g, CalculateRequest { people: Vec::new() }).is_empty());
}

#[test]
fn unsnapped_amenity_is_never_reached() {
    let g = town();
    for start in 0..5 {
        assert_eq!(reach_costs(&g, IntersectionID(start), u64::MAX)[3], None);
    }
}

#[test]
fn queue_orders_many_entries() {
    let mut q = CostQueue::new();
    let mut cost: u64 = 7;
    for i in 0..200 {
        cost = (cost * 31 + 11) % 1_009;
        q.push(PriorityQueueItem::new(cost, IntersectionID(i)));
    }
    assert_eq!(q.len(), 200);
    let mut last = 0;
    let mut seen = vec![false; 200];
    while let Some(item) = q.pop() {
        assert!(last <= item.cost);
        last = item.cost;
        assert!(!seen[item.value.0]);
        seen[item.value.0] = true;
    }
    assert!(seen.iter().all(|s| *s));
    assert_eq!(q.len(), 0);
}

#[test]
fn search_on_a_grid_finds_the_least_costs() {
    // a 4 x 4 grid of intersections; every road takes 10 s; an amenity on
    // the road between the last two intersections of the last row
    let side = 4;
    let mut junctions: Vec<Junction> = (0..side * side).map(|id| Junction { id, edges: vec![] }).collect();
    let mut edges = Vec::new();
    for row in 0..side {
        for col in 0..side {
            let here = row * side + col;
            for there in [(col + 1 < side).then_some(here + 1), (row + 1 < side).then_some(here + side)]
                .into_iter()
                .flatten()
            {
                let id = edges.len();
                edges.push(Edge { id, src: here, dst: there, length_mm: 13_410 });
                junctions[here].edges.push(id);
                junctions[there].edges.push(id);
            }
        }
    }
    let last = edges.len() - 1;
    assert_eq!((edges[last].src, edges[last].dst), (14, 15));
    let g = scrape_osm(&junctions, &edges, vec![amenity(0, "cafe", None)], &vec![Some(RoadID(last))]).unwrap();
    // from the first corner, intersection 14 is 5 roads away, and the
    // amenity's road is one more
    assert_eq!(reach_costs(&g, IntersectionID(0), 1_000_000), vec![Some(60_000)]);
    assert_eq!(reach_costs(&g, IntersectionID(0), 59_999), vec![None]);
    assert_eq!(reach_costs(&g, IntersectionID(15), 1_000_000), vec![Some(10_000)]);
    assert_eq!(reach_costs(&g, IntersectionID(3), 1_000_000), vec![Some(40_000)]);
}

#[test]
fn road_of_no_length_costs_a_millisecond() {
    let g = one_road(0);
    assert_eq!(reach_costs(&g, IntersectionID(0), 0), vec![None]);
    assert_eq!(reach_costs(&g, IntersectionID(0), 1), vec![Some(1)]);
}
