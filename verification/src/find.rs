//! Which amenities a person reaches on foot within a time budget, and which
//! amenities every person of a group reaches.

use vstd::prelude::*;
use crate::amenity::{text_of, OsmID};
use crate::graph::Graph;
use crate::ids::{AmenityID, IntersectionID};
use crate::search::{is_reach_cost, nothing_recorded, reach_costs, reachable_within};

verus! {

/// The least cost, in milliseconds, of a walk from `start` that ends on a
/// road carrying amenity `a`. It means nothing where there is no such walk.
pub open spec fn reach_cost(g: Graph, start: int, a: int) -> int {
    choose|cost: int| is_reach_cost(g, start, a, cost)
}

/// There is one least cost, and `reach_cost` is it.
pub proof fn lemma_reach_cost(g: Graph, start: int, a: int, cost: int)
    requires
        is_reach_cost(g, start, a, cost),
    ensures
        reach_cost(g, start, a) == cost,
{
    let other = reach_cost(g, start, a);
    assert(is_reach_cost(g, start, a, other));
    let w1 = choose|w: Seq<int>| #[trigger] g.walk_serves(start, w, a) && g.walk_cost(w) == cost;
    let w2 = choose|w: Seq<int>| #[trigger] g.walk_serves(start, w, a) && g.walk_cost(w) == other;
    assert(g.walk_serves(start, w1, a) && g.walk_serves(start, w2, a));
}

/// A time budget of so many minutes, in milliseconds; what does not fit 64
/// bits counts as the largest budget there is.
pub open spec fn budget_ms(minutes: u64) -> int {
    if minutes * 60_000 <= u64::MAX {
        minutes * 60_000
    } else {
        u64::MAX as int
    }
}

/// Somebody who walks from home for at most so many minutes.
pub struct Person {
    pub name: String,
    /// The intersection nearest to the person's home, if there is any.
    pub home: Option<IntersectionID>,
    pub max_time_minutes: u64,
}

impl Person {
    /// The number of the home intersection; -1 for a person without one.
    pub open spec fn start(&self) -> int {
        match self.home {
            Some(home) => home.0 as int,
            None => -1,
        }
    }

    /// The person reaches amenity `a` within the time budget.
    pub open spec fn reaches(&self, g: Graph, a: int) -> bool {
        &&& 0 <= self.start() < g.intersections.len()
        &&& reachable_within(g, self.start(), a, budget_ms(self.max_time_minutes))
    }

    /// What the person's cheapest walk to amenity `a` costs, in milliseconds.
    pub open spec fn cost_to(&self, g: Graph, a: int) -> int {
        reach_cost(g, self.start(), a)
    }
}

/// The people for whom common amenities are sought.
pub struct CalculateRequest {
    pub people: Vec<Person>,
}

/// An amenity that everybody reaches.
pub struct POI {
    pub amenity: AmenityID,
    pub osm_id: OsmID,
    pub kind: String,
    pub name: Option<String>,
    /// For each person, in the order of the request: the name, and the cost
    /// of the walk in whole seconds.
    pub times_per_person: Vec<(String, u64)>,
}

/// There are people, and each of them reaches amenity `a`.
pub open spec fn reached_by_all(g: Graph, people: Seq<Person>, a: int) -> bool {
    &&& people.len() > 0
    &&& forall|j: int| 0 <= j < people.len() ==> (#[trigger] people[j]).reaches(g, a)
}

/// `poi` says of amenity `a` what the graph holds of it, and for each person
/// the cost of the cheapest walk to it.
pub open spec fn poi_of(g: Graph, people: Seq<Person>, a: int, poi: POI) -> bool {
    &&& poi.amenity.0 == a
    &&& poi.osm_id == g.amenities[a].osm_id
    &&& poi.kind@ == g.amenities[a].kind@
    &&& text_of(poi.name) == text_of(g.amenities[a].name)
    &&& poi.times_per_person.len() == people.len()
    &&& forall|j: int|
        0 <= j < people.len() ==> {
            &&& (#[trigger] poi.times_per_person[j]).0@ == people[j].name@
            &&& poi.times_per_person[j].1 == people[j].cost_to(g, a) / 1000
        }
}

/// An amenity on a road at the start costs what that road costs, and is
/// within reach where the road is.
pub proof fn lemma_amenity_next_door(g: Graph, start: int, r: int, a: int, limit: int)
    requires
        g.wf(),
        g.incident(start, r),
        g.carries(r, a),
    ensures
        is_reach_cost(g, start, a, g.road_cost(r)),
        reachable_within(g, start, a, limit) <==> g.road_cost(r) <= limit,
{
    let w = Seq::<int>::empty().push(r);
    assert(w.drop_last() =~= Seq::<int>::empty());
    assert(g.is_walk(start, w.drop_last()));
    assert(g.walk_cost(w.drop_last()) == 0);
    assert(g.walk_serves(start, w, a) && g.walk_cost(w) == g.road_cost(r));
    assert forall|other: Seq<int>| #[trigger] g.walk_serves(start, other, a) implies g.road_cost(r)
        <= g.walk_cost(other) by {
        g.lemma_one_road(other.last(), r, a);
        g.lemma_walk_step(start, other.drop_last());
    }
}

/// A longer budget takes no amenity away, and leaves the cost of each as it
/// was.
pub proof fn lemma_longer_budget(g: Graph, shorter: Person, longer: Person, a: int)
    requires
        shorter.home == longer.home,
        shorter.max_time_minutes <= longer.max_time_minutes,
        shorter.reaches(g, a),
    ensures
        longer.reaches(g, a),
        longer.cost_to(g, a) == shorter.cost_to(g, a),
{
    assert(budget_ms(shorter.max_time_minutes) <= budget_ms(longer.max_time_minutes))
        by (nonlinear_arith)
        requires
            shorter.max_time_minutes <= longer.max_time_minutes,
    ;
    let w = choose|w: Seq<int>| #[trigger]
        g.walk_serves(shorter.start(), w, a) && g.walk_cost(w) <= budget_ms(
            shorter.max_time_minutes,
        );
    assert(g.walk_serves(longer.start(), w, a));
}

/// Where one of several people is left out, what all reached is still
/// reached by all who remain.
pub proof fn lemma_fewer_people(g: Graph, people: Seq<Person>, left_out: int, a: int)
    requires
        people.len() >= 2,
        0 <= left_out < people.len(),
        reached_by_all(g, people, a),
    ensures
        reached_by_all(g, people.remove(left_out), a),
{
    let fewer = people.remove(left_out);
    assert forall|j: int| 0 <= j < fewer.len() implies (#[trigger] fewer[j]).reaches(g, a) by {
        if j < left_out {
            assert(people[j].reaches(g, a));
        } else {
            assert(people[j + 1].reaches(g, a));
        }
    }
}

/// The person's time budget in milliseconds.
pub fn time_limit(person: &Person) -> (limit: u64)
    ensures
        limit == budget_ms(person.max_time_minutes),
{
    if person.max_time_minutes <= u64::MAX / 60_000 {
        person.max_time_minutes * 60_000
    } else {
        u64::MAX
    }
}

/// For each amenity, the least cost in milliseconds at which the person
/// reaches it within the time budget; `None` for an amenity out of reach. A
/// person without a home intersection reaches nothing.
pub fn get_costs(graph: &Graph, person: &Person) -> (costs: Vec<Option<u64>>)
    requires
        graph.wf(),
    ensures
        costs.len() == graph.amenities.len(),
        forall|a: int|
            0 <= a < costs.len() ==> ((#[trigger] costs[a]) is Some <==> person.reaches(
                *graph,
                a,
            )),
        forall|a: int|
            0 <= a < costs.len() && (#[trigger] costs[a]) is Some ==> costs[a]->0
                == person.cost_to(*graph, a),
        forall|a: int|
            0 <= a < costs.len() && (#[trigger] costs[a]) is Some ==> is_reach_cost(
                *graph,
                person.start(),
                a,
                costs[a]->0 as int,
            ),
{
    match person.home {
        Some(home) => {
            if home.0 < graph.intersections.len() {
                let costs = reach_costs(graph, home, time_limit(person));
                proof {
                    assert forall|a: int|
                        0 <= a < costs.len() && (#[trigger] costs[a]) is Some implies costs[a]->0
                        == person.cost_to(*graph, a) by {
                        lemma_reach_cost(*graph, home.0 as int, a, costs[a]->0 as int);
                    }
                }
                costs
            } else {
                nothing_recorded(graph.amenities.len())
            }
        },
        None => nothing_recorded(graph.amenities.len()),
    }
}

/// The entry for amenity `a`, if everybody reaches it.
fn common_poi(graph: &Graph, people: &Vec<Person>, per_person: &Vec<Vec<Option<u64>>>, a: usize) -> (poi:
    Option<POI>)
    requires
        graph.wf(),
        a < graph.amenities.len(),
        people.len() > 0,
        per_person.len() == people.len(),
        forall|j: int|
            0 <= j < people.len() ==> {
                &&& (#[trigger] per_person[j]).len() == graph.amenities.len()
                &&& per_person[j][a as int] is Some <==> people[j].reaches(*graph, a as int)
                &&& per_person[j][a as int] is Some ==> per_person[j][a as int]->0
                    == people[j].cost_to(*graph, a as int)
            },
    ensures
        poi is Some <==> reached_by_all(*graph, people@, a as int),
        poi is Some ==> poi_of(*graph, people@, a as int, poi->0),
{
    let mut times: Vec<(String, u64)> = Vec::new();
    let mut everybody = true;
    let mut j: usize = 0;
    while j < people.len()
        invariant
            j <= people.len(),
            per_person.len() == people.len(),
            a < graph.amenities.len(),
            forall|i: int|
                0 <= i < people.len() ==> {
                    &&& (#[trigger] per_person[i]).len() == graph.amenities.len()
                    &&& per_person[i][a as int] is Some <==> people[i].reaches(*graph, a as int)
                    &&& per_person[i][a as int] is Some ==> per_person[i][a as int]->0
                        == people[i].cost_to(*graph, a as int)
                },
            everybody ==> times.len() == j,
            everybody ==> forall|i: int|
                0 <= i < j ==> {
                    &&& (#[trigger] people[i]).reaches(*graph, a as int)
                    &&& times[i].0@ == people[i].name@
                    &&& times[i].1 == people[i].cost_to(*graph, a as int) / 1000
                },
            !everybody ==> exists|i: int|
                0 <= i < j && !(#[trigger] people[i]).reaches(*graph, a as int),
        decreases people.len() - j,
    {
        if everybody {
            assert(per_person[j as int].len() == graph.amenities.len());
            match per_person[j][a] {
                Some(cost) => {
                    times.push((people[j].name.clone(), cost / 1000));
                },
                None => {
                    everybody = false;
                    assert(!people[j as int].reaches(*graph, a as int));
                },
            }
        }
        j += 1;
    }
    if everybody {
        let amenity = &graph.amenities[a];
        let name = match &amenity.name {
            Some(n) => Some(n.clone()),
            None => None,
        };
        Some(
            POI {
                amenity: AmenityID(a),
                osm_id: amenity.osm_id,
                kind: amenity.kind.clone(),
                name,
                times_per_person: times,
            },
        )
    } else {
        None
    }
}

/// The amenities that every person of the request reaches within their own
/// time budget, in the order of the amenities' identifiers, each with every
/// person's cost. A request without people has no common amenities.
pub fn find_pois(graph: &Graph, req: CalculateRequest) -> (pois: Vec<POI>)
    requires
        graph.wf(),
    ensures
        forall|i: int|
            0 <= i < pois.len() ==> {
                let a = (#[trigger] pois[i]).amenity.0 as int;
                &&& a < graph.amenities.len()
                &&& reached_by_all(*graph, req.people@, a)
                &&& poi_of(*graph, req.people@, a, pois[i])
            },
        forall|i: int, j: int|
            0 <= i < j < pois.len() ==> (#[trigger] pois[i]).amenity.0 < (
            #[trigger] pois[j]).amenity.0,
        forall|a: int|
            0 <= a < graph.amenities.len() && reached_by_all(*graph, req.people@, a)
                ==> exists|i: int| 0 <= i < pois.len() && (#[trigger] pois[i]).amenity.0 == a,
{
    let mut pois: Vec<POI> = Vec::new();
    if req.people.len() == 0 {
        return pois;
    }
    let mut per_person: Vec<Vec<Option<u64>>> = Vec::new();
    while per_person.len() < req.people.len()
        invariant
            graph.wf(),
            per_person.len() <= req.people.len(),
            forall|j: int|
                0 <= j < per_person.len() ==> {
                    &&& (#[trigger] per_person[j]).len() == graph.amenities.len()
                    &&& forall|a: int|
                        0 <= a < graph.amenities.len() ==> {
                            &&& (#[trigger] per_person[j][a]) is Some <==> req.people[j].reaches(
                                *graph,
                                a,
                            )
                            &&& per_person[j][a] is Some ==> per_person[j][a]->0
                                == req.people[j].cost_to(*graph, a)
                        }
                },
        decreases req.people.len() - per_person.len(),
    {
        let costs = get_costs(graph, &req.people[per_person.len()]);
        per_person.push(costs);
    }
    let mut a: usize = 0;
    while a < graph.amenities.len()
        invariant
            graph.wf(),
            a <= graph.amenities.len(),
            req.people.len() > 0,
            per_person.len() == req.people.len(),
            forall|j: int|
                0 <= j < per_person.len() ==> {
                    &&& (#[trigger] per_person[j]).len() == graph.amenities.len()
                    &&& forall|b: int|
                        0 <= b < graph.amenities.len() ==> {
                            &&& (#[trigger] per_person[j][b]) is Some <==> req.people[j].reaches(
                                *graph,
                                b,
                            )
                            &&& per_person[j][b] is Some ==> per_person[j][b]->0
                                == req.people[j].cost_to(*graph, b)
                        }
                },
            forall|i: int|
                0 <= i < pois.len() ==> {
                    let b = (#[trigger] pois[i]).amenity.0 as int;
                    &&& b < a
                    &&& reached_by_all(*graph, req.people@, b)
                    &&& poi_of(*graph, req.people@, b, pois[i])
                },
            forall|i: int, j: int|
                0 <= i < j < pois.len() ==> (#[trigger] pois[i]).amenity.0 < (
                #[trigger] pois[j]).amenity.0,
            forall|b: int|
                0 <= b < a && reached_by_all(*graph, req.people@, b) ==> exists|i: int|
                    0 <= i < pois.len() && (#[trigger] pois[i]).amenity.0 == b,
        decreases graph.amenities.len() - a,
    {
        let ghost before = pois@;
        match common_poi(graph, &req.people, &per_person, a) {
            Some(poi) => {
                pois.push(poi);
                assert forall|b: int|
                    0 <= b < a + 1 && reached_by_all(*graph, req.people@, b) implies exists|
                    i: int,
                | 0 <= i < pois.len() && (#[trigger] pois[i]).amenity.0 == b by {
                    if b < a {
                        let i = choose|i: int|
                            0 <= i < before.len() && (#[trigger] before[i]).amenity.0 == b;
                        assert(pois[i].amenity.0 == b);
                    } else {
                        assert(pois[pois.len() - 1].amenity.0 == b);
                    }
                }
            },
            None => {},
        }
        a += 1;
    }
    pois
}

} // verus!
