//! The street graph: roads, intersections and what holds of an assembled graph.

use vstd::prelude::*;
use crate::amenity::Amenity;
use crate::ids::{AmenityID, IntersectionID, RoadID};
use crate::scrape::{built_from, fault_of, scrape_osm, Edge, GraphError, Junction};

verus! {

/// Walking speed, in millimetres per second.
pub const WALKING_SPEED_MM_PER_S: u64 = 1341;

/// Milliseconds needed to walk a road of `length_mm` millimetres, rounded
/// up, and one millisecond at the least. No step from one intersection to
/// another is free: so a cheapest walk never turns in circles, and the
/// hierarchy of the router, which takes positive weights only, holds every
/// road at the cost that the search counts for it.
pub open spec fn walking_cost(length_mm: int) -> int {
    if length_mm <= 0 {
        1
    } else {
        (length_mm * 1000 + (WALKING_SPEED_MM_PER_S - 1)) / (WALKING_SPEED_MM_PER_S as int)
    }
}

/// Rounding up loses nothing against a budget of whole milliseconds: a road
/// of some length is walked within the budget exactly when its length
/// divided by the speed is no more than the budget.
pub proof fn lemma_within_budget(length_mm: int, budget_ms: int)
    requires
        length_mm >= 1,
    ensures
        walking_cost(length_mm) <= budget_ms <==> length_mm * 1000 <= budget_ms
            * WALKING_SPEED_MM_PER_S,
{
}

/// A walkable segment between two intersections.
pub struct Road {
    pub id: RoadID,
    pub src_i: IntersectionID,
    pub dst_i: IntersectionID,
    /// Length of the road's geometry, in millimetres.
    pub length_mm: u32,
    /// The amenities snapped to this road.
    pub amenities: Vec<AmenityID>,
}

impl Road {
    /// The intersection at the other end of the road from `i`. For an `i` that
    /// is not the source, this is the source.
    pub fn other_side(&self, i: IntersectionID) -> (other: IntersectionID)
        ensures
            other == self.spec_other_side(i),
    {
        if self.src_i == i {
            self.dst_i
        } else {
            self.src_i
        }
    }

    /// What `other_side` returns.
    pub open spec fn spec_other_side(&self, i: IntersectionID) -> IntersectionID {
        if self.src_i == i {
            self.dst_i
        } else {
            self.src_i
        }
    }

    /// Amenity `a` is snapped to this road.
    pub open spec fn carries(&self, a: int) -> bool {
        exists|j: int| 0 <= j < self.amenities.len() && (#[trigger] self.amenities[j]).0 == a
    }

    /// Time to walk the road, in milliseconds.
    pub fn get_cost(&self) -> (cost: u64)
        ensures
            cost == walking_cost(self.length_mm as int),
            1 <= cost <= u32::MAX,
    {
        if self.length_mm == 0 {
            1
        } else {
            let scaled: u64 = self.length_mm as u64 * 1000 + (WALKING_SPEED_MM_PER_S - 1);
            scaled / WALKING_SPEED_MM_PER_S
        }
    }
}

/// A junction of roads, or the end of one.
pub struct Intersection {
    pub id: IntersectionID,
    /// The roads that start or end here.
    pub roads: Vec<RoadID>,
}

/// The street network with the amenities along it.
pub struct Graph {
    pub roads: Vec<Road>,
    pub intersections: Vec<Intersection>,
    pub amenities: Vec<Amenity>,
}

impl Graph {
    /// Assembles the graph that the records of a street network describe,
    /// or says what is wrong with them.
    pub fn new(
        junctions: &Vec<Junction>,
        edges: &Vec<Edge>,
        amenities: Vec<Amenity>,
        nearest: &Vec<Option<RoadID>>,
    ) -> (made: Result<Graph, GraphError>)
        ensures
            match made {
                Ok(g) => {
                    &&& fault_of(junctions@, edges@, amenities@, nearest@) is None
                    &&& built_from(g, junctions@, edges@, amenities@, nearest@)
                    &&& g.wf()
                },
                Err(e) => fault_of(junctions@, edges@, amenities@, nearest@) == Some(e),
            },
    {
        scrape_osm(junctions, edges, amenities, nearest)
    }

    /// Road `r` is in the list of intersection `i`.
    pub open spec fn incident(&self, i: int, r: int) -> bool {
        &&& 0 <= i < self.intersections.len()
        &&& exists|k: int|
            0 <= k < self.intersections[i].roads.len() && (
            #[trigger] self.intersections[i].roads[k]).0 == r
    }

    /// Amenity `a` is snapped to road `r`.
    pub open spec fn carries(&self, r: int, a: int) -> bool {
        0 <= r < self.roads.len() && self.roads[r].carries(a)
    }

    /// What holds of road `r` in an assembled graph: it sits at the position
    /// that its identifier names, it joins two intersections of the graph, both
    /// of which list it, and it carries amenities of the graph.
    pub open spec fn road_ok(&self, r: int) -> bool {
        let road = self.roads[r];
        &&& road.id.0 == r
        &&& self.incident(road.src_i.0 as int, r)
        &&& self.incident(road.dst_i.0 as int, r)
        &&& forall|j: int|
            0 <= j < road.amenities.len() ==> (#[trigger] road.amenities[j]).0
                < self.amenities.len()
    }

    /// What holds of intersection `i` in an assembled graph: it sits at the
    /// position that its identifier names, and each road that it lists is a
    /// road of the graph that starts or ends at `i`.
    pub open spec fn intersection_ok(&self, i: int) -> bool {
        let x = self.intersections[i];
        &&& x.id.0 == i
        &&& forall|k: int|
            0 <= k < x.roads.len() ==> {
                let r = (#[trigger] x.roads[k]).0 as int;
                &&& r < self.roads.len()
                &&& (self.roads[r].src_i.0 == i || self.roads[r].dst_i.0 == i)
            }
    }

    /// No amenity is snapped twice, to one road or to two.
    pub open spec fn snapped_once(&self) -> bool {
        forall|r1: int, j1: int, r2: int, j2: int|
            0 <= r1 < self.roads.len() && 0 <= j1 < self.roads[r1].amenities.len() && 0 <= r2
                < self.roads.len() && 0 <= j2 < self.roads[r2].amenities.len() && (
            #[trigger] self.roads[r1].amenities[j1]) == (#[trigger] self.roads[r2].amenities[j2])
                ==> r1 == r2 && j1 == j2
    }

    /// The invariant of an assembled graph.
    pub open spec fn wf(&self) -> bool {
        &&& forall|r: int| 0 <= r < self.roads.len() ==> #[trigger] self.road_ok(r)
        &&& forall|i: int| 0 <= i < self.intersections.len() ==> #[trigger] self.intersection_ok(i)
        &&& forall|a: int|
            0 <= a < self.amenities.len() ==> (#[trigger] self.amenities[a]).id.0 == a
        &&& self.snapped_once()
    }

    /// Time to walk road `r`, in milliseconds.
    pub open spec fn road_cost(&self, r: int) -> int {
        walking_cost(self.roads[r].length_mm as int)
    }

    /// The end of road `r` that one arrives at when leaving from `i`.
    pub open spec fn far_end(&self, r: int, i: int) -> int {
        if self.roads[r].src_i.0 == i {
            self.roads[r].dst_i.0 as int
        } else {
            self.roads[r].src_i.0 as int
        }
    }

    /// Where one stands after taking the roads of `walk` in turn from `start`.
    pub open spec fn walk_end(&self, start: int, walk: Seq<int>) -> int
        decreases walk.len(),
    {
        if walk.len() == 0 {
            start
        } else {
            self.far_end(walk.last(), self.walk_end(start, walk.drop_last()))
        }
    }

    /// `walk` can be walked from `start`: `start` is an intersection, and each
    /// road is listed at the intersection where the one before it ended.
    pub open spec fn is_walk(&self, start: int, walk: Seq<int>) -> bool
        decreases walk.len(),
    {
        if walk.len() == 0 {
            0 <= start < self.intersections.len()
        } else {
            &&& self.is_walk(start, walk.drop_last())
            &&& self.incident(self.walk_end(start, walk.drop_last()), walk.last())
        }
    }

    /// Time to walk all roads of `walk`, in milliseconds.
    pub open spec fn walk_cost(&self, walk: Seq<int>) -> int
        decreases walk.len(),
    {
        if walk.len() == 0 {
            0
        } else {
            self.walk_cost(walk.drop_last()) + self.road_cost(walk.last())
        }
    }

    /// `walk` leads from `start` along a road, its last, that carries `a`.
    pub open spec fn walk_serves(&self, start: int, walk: Seq<int>, a: int) -> bool {
        &&& self.is_walk(start, walk)
        &&& walk.len() > 0
        &&& self.carries(walk.last(), a)
    }

    /// `walk` leads from `start` to intersection `to`.
    pub open spec fn walk_reaches(&self, start: int, walk: Seq<int>, to: int) -> bool {
        self.is_walk(start, walk) && self.walk_end(start, walk) == to
    }

    /// A walk costs no less than the walk without its last road, and both end
    /// at intersections of the graph.
    pub proof fn lemma_walk_step(&self, start: int, walk: Seq<int>)
        requires
            self.wf(),
            self.is_walk(start, walk),
        ensures
            0 <= self.walk_cost(walk),
            0 <= self.walk_end(start, walk) < self.intersections.len(),
            walk.len() > 0 ==> self.walk_cost(walk.drop_last()) <= self.walk_cost(walk),
        decreases walk.len(),
    {
        if walk.len() > 0 {
            let before = walk.drop_last();
            self.lemma_walk_step(start, before);
            let u = self.walk_end(start, before);
            let r = walk.last();
            let k = choose|k: int|
                0 <= k < self.intersections[u].roads.len() && (
                #[trigger] self.intersections[u].roads[k]).0 == r;
            assert(self.intersection_ok(u));
            assert(self.road_ok(r));
        }
    }

    /// Two roads that carry the same amenity are one road.
    pub proof fn lemma_one_road(&self, r1: int, r2: int, a: int)
        requires
            self.wf(),
            self.carries(r1, a),
            self.carries(r2, a),
        ensures
            r1 == r2,
    {
        let j1 = choose|j: int|
            0 <= j < self.roads[r1].amenities.len() && (#[trigger] self.roads[r1].amenities[j]).0
                == a;
        let j2 = choose|j: int|
            0 <= j < self.roads[r2].amenities.len() && (#[trigger] self.roads[r2].amenities[j]).0
                == a;
        assert(self.roads[r1].amenities[j1] == self.roads[r2].amenities[j2]);
    }

    /// A road taken first: where road `r` is listed at `start` and `rest` can
    /// be walked from its far end, `r` followed by `rest` can be walked from
    /// `start`, ends where `rest` ends, and costs what both cost.
    pub proof fn lemma_walk_on(&self, start: int, r: int, rest: Seq<int>)
        requires
            self.wf(),
            self.incident(start, r),
            self.is_walk(self.far_end(r, start), rest),
        ensures
            self.is_walk(start, seq![r] + rest),
            self.walk_end(start, seq![r] + rest) == self.walk_end(self.far_end(r, start), rest),
            self.walk_cost(seq![r] + rest) == self.road_cost(r) + self.walk_cost(rest),
        decreases rest.len(),
    {
        let whole = seq![r] + rest;
        if rest.len() == 0 {
            assert(whole.drop_last() =~= Seq::<int>::empty());
            assert(self.is_walk(start, whole.drop_last()));
            assert(self.walk_cost(whole.drop_last()) == 0);
        } else {
            self.lemma_walk_on(start, r, rest.drop_last());
            assert(whole.drop_last() =~= seq![r] + rest.drop_last());
        }
    }

    /// A walk in two parts: its first `k` roads are a walk, the others are a
    /// walk from where the first end, and the whole costs what both cost.
    pub proof fn lemma_walk_parts(&self, start: int, walk: Seq<int>, k: int)
        requires
            self.wf(),
            self.is_walk(start, walk),
            0 <= k <= walk.len(),
        ensures
            self.is_walk(start, walk.take(k)),
            self.is_walk(self.walk_end(start, walk.take(k)), walk.skip(k)),
            self.walk_end(self.walk_end(start, walk.take(k)), walk.skip(k)) == self.walk_end(
                start,
                walk,
            ),
            self.walk_cost(walk) == self.walk_cost(walk.take(k)) + self.walk_cost(walk.skip(k)),
        decreases walk.len(),
    {
        if k == walk.len() {
            assert(walk.take(k) =~= walk);
            assert(walk.skip(k) =~= Seq::<int>::empty());
            self.lemma_walk_step(start, walk);
        } else {
            let before = walk.drop_last();
            self.lemma_walk_parts(start, before, k);
            assert(walk.take(k) =~= before.take(k));
            assert(walk.skip(k).drop_last() =~= before.skip(k));
            assert(walk.skip(k).last() == walk.last());
        }
    }

    /// Two walks in a row: where `rest` can be walked from the end of
    /// `first`, both together are a walk that ends where `rest` ends and
    /// costs what both cost.
    pub proof fn lemma_walk_joined(&self, start: int, first: Seq<int>, rest: Seq<int>)
        requires
            self.wf(),
            self.is_walk(start, first),
            self.is_walk(self.walk_end(start, first), rest),
        ensures
            self.is_walk(start, first + rest),
            self.walk_end(start, first + rest) == self.walk_end(
                self.walk_end(start, first),
                rest,
            ),
            self.walk_cost(first + rest) == self.walk_cost(first) + self.walk_cost(rest),
        decreases rest.len(),
    {
        if rest.len() == 0 {
            assert(first + rest =~= first);
        } else {
            self.lemma_walk_joined(start, first, rest.drop_last());
            assert((first + rest).drop_last() =~= first + rest.drop_last());
            assert((first + rest).last() == rest.last());
        }
    }

    /// A walk can be walked back: the same roads in reverse order lead from
    /// its end to its start, at the same cost.
    pub proof fn lemma_walk_back(&self, start: int, walk: Seq<int>)
        requires
            self.wf(),
            self.is_walk(start, walk),
        ensures
            self.walk_reaches(self.walk_end(start, walk), walk.reverse(), start),
            self.walk_cost(walk.reverse()) == self.walk_cost(walk),
        decreases walk.len(),
    {
        self.lemma_walk_step(start, walk);
        if walk.len() == 0 {
            assert(walk.reverse() =~= walk);
        } else {
            let before = walk.drop_last();
            let r = walk.last();
            let u = self.walk_end(start, before);
            let v = self.far_end(r, u);
            self.lemma_walk_back(start, before);
            let k = choose|k: int|
                0 <= k < self.intersections[u].roads.len() && (
                #[trigger] self.intersections[u].roads[k]).0 == r;
            self.lemma_listed_road(u, k);
            assert(self.intersection_ok(u));
            assert(self.road_ok(r));
            assert(self.incident(v, r));
            assert(self.far_end(r, v) == u);
            self.lemma_walk_on(v, r, before.reverse());
            assert(walk.reverse() =~= seq![r] + before.reverse());
        }
    }

    /// The road at position `k` of intersection `i` is a road of the graph,
    /// and leads to an intersection of the graph.
    pub proof fn lemma_listed_road(&self, i: int, k: int)
        requires
            self.wf(),
            0 <= i < self.intersections.len(),
            0 <= k < self.intersections[i].roads.len(),
        ensures
            0 <= self.intersections[i].roads[k].0 < self.roads.len(),
            self.incident(i, self.intersections[i].roads[k].0 as int),
            0 <= self.far_end(self.intersections[i].roads[k].0 as int, i)
                < self.intersections.len(),
    {
        assert(self.intersection_ok(i));
        assert(self.road_ok(self.intersections[i].roads[k].0 as int));
    }

    /// Road `r` starts or ends at intersection `i`.
    pub open spec fn ends_at(&self, r: int, i: int) -> bool {
        self.roads[r].src_i.0 == i || self.roads[r].dst_i.0 == i
    }

    /// The first road of `list`, from position `from` on, that starts or
    /// ends at intersection `to`.
    pub open spec fn first_joining(&self, list: Seq<RoadID>, to: int, from: int) -> Option<int>
        decreases list.len() - from,
    {
        if from < 0 || from >= list.len() {
            None
        } else if self.ends_at(list[from].0 as int, to) {
            Some(list[from].0 as int)
        } else {
            self.first_joining(list, to, from + 1)
        }
    }

    /// The first road in the list of intersection `i1` that starts or ends
    /// at intersection `i2`.
    pub open spec fn edge_between(&self, i1: int, i2: int) -> Option<int> {
        if 0 <= i1 < self.intersections.len() {
            self.first_joining(self.intersections[i1].roads@, i2, 0)
        } else {
            None
        }
    }

    /// The cheapest road among the first `upto` of `list` that starts or
    /// ends at intersection `to`; of several cheapest, the first.
    pub open spec fn cheapest_joining(&self, list: Seq<RoadID>, to: int, upto: int) -> Option<int>
        decreases upto,
    {
        if upto <= 0 {
            None
        } else {
            let before = self.cheapest_joining(list, to, upto - 1);
            let r = list[upto - 1].0 as int;
            if self.ends_at(r, to) && (before is None || self.road_cost(r) < self.road_cost(
                before.unwrap(),
            )) {
                Some(r)
            } else {
                before
            }
        }
    }

    /// The road by which one walks from intersection `i1` to intersection
    /// `i2`: the cheapest in the list of `i1` that starts or ends at `i2`,
    /// and of several cheapest the first.
    pub open spec fn cheapest_between(&self, i1: int, i2: int) -> Option<int> {
        if 0 <= i1 < self.intersections.len() {
            self.cheapest_joining(
                self.intersections[i1].roads@,
                i2,
                self.intersections[i1].roads.len() as int,
            )
        } else {
            None
        }
    }

    /// What holds of the cheapest road among the first `upto` of a list.
    proof fn lemma_cheapest_joining(&self, i1: int, i2: int, upto: int)
        requires
            self.wf(),
            0 <= i1 < self.intersections.len(),
            0 <= upto <= self.intersections[i1].roads.len(),
        ensures
            self.cheapest_joining(self.intersections[i1].roads@, i2, upto) is Some ==> {
                let r = self.cheapest_joining(self.intersections[i1].roads@, i2, upto).unwrap();
                &&& 0 <= r < self.roads.len()
                &&& self.incident(i1, r)
                &&& self.ends_at(r, i2)
            },
            forall|k: int|
                0 <= k < upto && self.ends_at((#[trigger] self.intersections[i1].roads[k]).0 as int, i2)
                    ==> self.cheapest_joining(self.intersections[i1].roads@, i2, upto) is Some
                    && self.road_cost(
                    self.cheapest_joining(self.intersections[i1].roads@, i2, upto).unwrap(),
                ) <= self.road_cost(self.intersections[i1].roads[k].0 as int),
        decreases upto,
    {
        if upto > 0 {
            self.lemma_cheapest_joining(i1, i2, upto - 1);
            self.lemma_listed_road(i1, upto - 1);
        }
    }

    /// The road between two intersections is a road of the graph that joins
    /// them, and no road that joins them is cheaper.
    pub proof fn lemma_cheapest_between(&self, i1: int, i2: int)
        requires
            self.wf(),
        ensures
            self.cheapest_between(i1, i2) is Some ==> {
                let r = self.cheapest_between(i1, i2).unwrap();
                &&& 0 <= r < self.roads.len()
                &&& self.incident(i1, r)
                &&& self.ends_at(r, i2)
            },
            forall|r: int|
                #[trigger] self.incident(i1, r) && self.ends_at(r, i2) ==> self.cheapest_between(
                    i1,
                    i2,
                ) is Some && self.road_cost(self.cheapest_between(i1, i2).unwrap())
                    <= self.road_cost(r),
    {
        if 0 <= i1 < self.intersections.len() {
            let list = self.intersections[i1].roads@;
            self.lemma_cheapest_joining(i1, i2, list.len() as int);
            assert forall|r: int| #[trigger] self.incident(i1, r) && self.ends_at(r, i2) implies self.cheapest_between(
                i1,
                i2,
            ) is Some && self.road_cost(self.cheapest_between(i1, i2).unwrap()) <= self.road_cost(
                r,
            ) by {
                let k = choose|k: int| 0 <= k < list.len() && (#[trigger] list[k]).0 == r;
                assert(self.ends_at(self.intersections[i1].roads[k].0 as int, i2));
            }
        }
    }

    /// Every road costs a millisecond at least.
    pub proof fn lemma_costs_positive(&self)
        ensures
            forall|r: int| 0 <= r < self.roads.len() ==> #[trigger] self.road_cost(r) >= 1,
    {
    }

    /// The road by which one walks from `i1` to `i2`, if there is one: the
    /// cheapest that joins them, so that a route costs as little as its path.
    pub fn find_cheapest_edge(&self, i1: IntersectionID, i2: IntersectionID) -> (found: Option<
        &Road,
    >)
        requires
            self.wf(),
        ensures
            match found {
                Some(road) => self.cheapest_between(i1.0 as int, i2.0 as int) is Some && *road
                    == self.roads[self.cheapest_between(i1.0 as int, i2.0 as int).unwrap()],
                None => self.cheapest_between(i1.0 as int, i2.0 as int) is None,
            },
    {
        if i1.0 >= self.intersections.len() {
            return None;
        }
        let list = &self.intersections[i1.0].roads;
        let mut best: Option<&Road> = None;
        let mut k: usize = 0;
        while k < list.len()
            invariant
                self.wf(),
                i1.0 < self.intersections.len(),
                list == &self.intersections[i1.0 as int].roads,
                k <= list.len(),
                match best {
                    Some(road) => self.cheapest_joining(list@, i2.0 as int, k as int) is Some
                        && *road == self.roads[self.cheapest_joining(
                        list@,
                        i2.0 as int,
                        k as int,
                    ).unwrap()],
                    None => self.cheapest_joining(list@, i2.0 as int, k as int) is None,
                },
            decreases list.len() - k,
        {
            proof {
                self.lemma_listed_road(i1.0 as int, k as int);
                self.lemma_cheapest_joining(i1.0 as int, i2.0 as int, k as int);
            }
            let road = &self.roads[list[k].0];
            if road.src_i == i2 || road.dst_i == i2 {
                let cheaper = match best {
                    Some(held) => road.get_cost() < held.get_cost(),
                    None => true,
                };
                if cheaper {
                    best = Some(road);
                }
            }
            k += 1;
        }
        best
    }

    /// The roads that start or end at intersection `i`, in the order of its
    /// list. An `i` that is no intersection of the graph has no roads.
    pub fn roads_per_intersection(&self, i: IntersectionID) -> (roads: Vec<&Road>)
        requires
            self.wf(),
        ensures
            i.0 >= self.intersections.len() ==> roads.len() == 0,
            i.0 < self.intersections.len() ==> {
                &&& roads.len() == self.intersections[i.0 as int].roads.len()
                &&& forall|k: int|
                    0 <= k < roads.len() ==> *(#[trigger] roads[k])
                        == self.roads[self.intersections[i.0 as int].roads[k].0 as int]
            },
    {
        let mut roads: Vec<&Road> = Vec::new();
        if i.0 >= self.intersections.len() {
            return roads;
        }
        let list = &self.intersections[i.0].roads;
        while roads.len() < list.len()
            invariant
                self.wf(),
                i.0 < self.intersections.len(),
                list == &self.intersections[i.0 as int].roads,
                roads.len() <= list.len(),
                forall|k: int|
                    0 <= k < roads.len() ==> *(#[trigger] roads[k]) == self.roads[list[k].0 as int],
            decreases list.len() - roads.len(),
        {
            proof {
                self.lemma_listed_road(i.0 as int, roads.len() as int);
            }
            roads.push(&self.roads[list[roads.len()].0]);
        }
        roads
    }

    /// The first road in the list of `i1` that starts or ends at `i2`, if
    /// there is one. Where several roads join the two, `find_cheapest_edge`
    /// is the one to ask for a route.
    pub fn find_edge(&self, i1: IntersectionID, i2: IntersectionID) -> (found: Option<&Road>)
        requires
            self.wf(),
        ensures
            match found {
                Some(road) => self.edge_between(i1.0 as int, i2.0 as int) is Some && *road
                    == self.roads[self.edge_between(i1.0 as int, i2.0 as int)->0],
                None => self.edge_between(i1.0 as int, i2.0 as int) is None,
            },
    {
        if i1.0 >= self.intersections.len() {
            return None;
        }
        let list = &self.intersections[i1.0].roads;
        let mut k: usize = 0;
        while k < list.len()
            invariant
                self.wf(),
                i1.0 < self.intersections.len(),
                list == &self.intersections[i1.0 as int].roads,
                k <= list.len(),
                self.edge_between(i1.0 as int, i2.0 as int) == self.first_joining(
                    list@,
                    i2.0 as int,
                    k as int,
                ),
            decreases list.len() - k,
        {
            proof {
                self.lemma_listed_road(i1.0 as int, k as int);
            }
            let road = &self.roads[list[k].0];
            if road.src_i == i2 || road.dst_i == i2 {
                return Some(road);
            }
            k += 1;
        }
        None
    }
}

} // verus!
