//! The map model that a host application queries: an assembled graph with
//! the hierarchy of its roads.

use vstd::prelude::*;
use crate::find::{find_pois, poi_of, reached_by_all, CalculateRequest, Person, POI};
use crate::graph::Graph;
use crate::ids::{IntersectionID, RoadID};
use crate::route::{
    cheapest_walk, connected, road_numbers, roads_fit, same_route, RouteError, Router,
};

verus! {

/// The people who walk to a common point.
pub struct RouteRequest {
    pub people: Vec<Person>,
    /// The intersection nearest to the point, if there is any.
    pub point: Option<IntersectionID>,
}

/// The person has a route to intersection `point`: the home is another
/// intersection, and some walk leads from it to `point`. A person without a
/// home intersection needs none.
pub open spec fn has_route(g: Graph, person: Person, point: IntersectionID) -> bool {
    person.home matches Some(home) ==> home != point && connected(
        g,
        home.0 as int,
        point.0 as int,
    )
}

/// `walk` is what the person walks to intersection `point`: a cheapest walk
/// from home, and nothing for a person without a home intersection.
pub open spec fn is_segment(g: Graph, person: Person, point: IntersectionID, walk: Seq<int>) -> bool {
    match person.home {
        Some(home) => cheapest_walk(g, home.0 as int, point.0 as int, walk),
        None => walk.len() == 0,
    }
}

/// `roads` are the walks of the people to `point`, one after the other, cut
/// at `cuts`: the walk of person `k` starts at position `cuts[k]` and ends
/// before `cuts[k + 1]`.
pub open spec fn are_routes(
    g: Graph,
    people: Seq<Person>,
    point: IntersectionID,
    cuts: Seq<int>,
    roads: Seq<int>,
) -> bool {
    &&& cuts.len() == people.len() + 1
    &&& cuts[0] == 0
    &&& cuts[people.len() as int] == roads.len()
    &&& forall|k: int| 0 <= k < people.len() ==> #[trigger] is_part(g, people, point, cuts, roads, k)
}

/// `roads` are the walks of the people to `point`, one after the other, in
/// the order of the people.
pub open spec fn routes_of(
    g: Graph,
    people: Seq<Person>,
    point: IntersectionID,
    roads: Seq<RoadID>,
) -> bool {
    exists|cuts: Seq<int>| #[trigger] are_routes(g, people, point, cuts, road_numbers(roads))
}

/// The roads from position `cuts[k]` to before `cuts[k + 1]` are what person
/// `k` walks to `point`.
pub open spec fn is_part(
    g: Graph,
    people: Seq<Person>,
    point: IntersectionID,
    cuts: Seq<int>,
    roads: Seq<int>,
    k: int,
) -> bool {
    &&& 0 <= cuts[k] <= cuts[k + 1] <= roads.len()
    &&& is_segment(g, people[k], point, roads.subrange(cuts[k], cuts[k + 1]))
}

/// A graph, ready for queries.
pub struct MapModel {
    graph: Graph,
    router: Router,
}

impl MapModel {
    /// The graph that is queried.
    pub closed spec fn graph(&self) -> Graph {
        self.graph
    }

    /// The router that answers for the graph.
    pub closed spec fn router(&self) -> Router {
        self.router
    }

    /// The graph is an assembled graph, and the router was prepared from
    /// its roads.
    pub open spec fn wf(&self) -> bool {
        &&& self.graph().wf()
        &&& self.router().wf()
        &&& self.router().serves(self.graph().roads@)
    }

    /// The roads that the first `upto` people walk to `point`, one route
    /// after the other. A person without a home intersection walks nowhere.
    /// The first route that fails makes the whole fail.
    pub open spec fn planned_routes(&self, people: Seq<Person>, point: IntersectionID, upto: int) -> Result<
        Seq<RoadID>,
        RouteError,
    >
        decreases upto,
    {
        if upto <= 0 {
            Ok(Seq::empty())
        } else {
            match self.planned_routes(people, point, upto - 1) {
                Err(e) => Err(e),
                Ok(before) => match people[upto - 1].home {
                    None => Ok(before),
                    Some(home) => match self.router().planned_route(self.graph(), home, point) {
                        Err(e) => Err(e),
                        Ok(roads) => Ok(before + roads),
                    },
                },
            }
        }
    }

    /// Prepares the hierarchy of an assembled graph.
    pub fn new(graph: Graph) -> (made: Result<MapModel, RouteError>)
        requires
            graph.wf(),
        ensures
            match made {
                Ok(model) => roads_fit(graph.roads@) && model.wf() && model.graph() == graph,
                Err(e) => e == RouteError::TooHeavy && !roads_fit(graph.roads@),
            },
    {
        match Router::new(&graph.roads) {
            Ok(router) => Ok(MapModel { graph, router }),
            Err(e) => Err(e),
        }
    }

    /// The graph that is queried.
    pub fn get_graph(&self) -> (graph: &Graph)
        ensures
            *graph == self.graph(),
    {
        &self.graph
    }

    /// The amenities that every person of the request reaches, as
    /// `find::find_pois` returns them.
    pub fn find_pois(&self, req: CalculateRequest) -> (pois: Vec<POI>)
        requires
            self.wf(),
        ensures
            forall|i: int|
                0 <= i < pois.len() ==> {
                    let a = (#[trigger] pois[i]).amenity.0 as int;
                    &&& a < self.graph().amenities.len()
                    &&& reached_by_all(self.graph(), req.people@, a)
                    &&& poi_of(self.graph(), req.people@, a, pois[i])
                },
            forall|i: int, j: int|
                0 <= i < j < pois.len() ==> (#[trigger] pois[i]).amenity.0 < (
                #[trigger] pois[j]).amenity.0,
            forall|a: int|
                0 <= a < self.graph().amenities.len() && reached_by_all(
                    self.graph(),
                    req.people@,
                    a,
                ) ==> exists|i: int| 0 <= i < pois.len() && (#[trigger] pois[i]).amenity.0 == a,
    {
        find_pois(&self.graph, req)
    }

    /// The roads that each person walks to the point of the request: the
    /// routes of all people, one after the other, in the order of the
    /// request. Where there is no intersection nearest to the point, nobody
    /// walks. The request fails as the first route fails that does: for a
    /// person who is at the point already, or from whose home no walk leads
    /// there. Where it does not fail, everybody's part is a cheapest walk
    /// from home to the point.
    pub fn routes_to(&mut self, req: RouteRequest) -> (result: Result<Vec<RoadID>, RouteError>)
        requires
            old(self).wf(),
        ensures
            final(self).wf(),
            final(self).graph() == old(self).graph(),
            match req.point {
                Some(point) => same_route(
                    result,
                    old(self).planned_routes(req.people@, point, req.people.len() as int),
                ),
                None => result is Ok && result.unwrap().len() == 0,
            },
            result matches Err(e) ==> e == RouteError::IdenticalEndpoints || e
                == RouteError::NoPathFound,
            req.point matches Some(point) ==> (result is Ok <==> forall|k: int|
                0 <= k < req.people.len() ==> has_route(
                    old(self).graph(),
                    #[trigger] req.people[k],
                    point,
                )),
            req.point matches Some(point) ==> (result matches Ok(roads) ==> routes_of(
                old(self).graph(),
                req.people@,
                point,
                roads@,
            )),
    {
        let mut roads: Vec<RoadID> = Vec::new();
        let end = match req.point {
            Some(point) => point,
            None => {
                return Ok(roads);
            },
        };
        let mut i: usize = 0;
        let ghost mut cuts: Seq<int> = seq![0int];
        while i < req.people.len()
            invariant
                i <= req.people.len(),
                req.point == Some(end),
                cuts.len() == i + 1,
                cuts[0] == 0,
                cuts[i as int] == roads.len(),
                forall|k: int|
                    0 <= k < i ==> #[trigger] is_part(
                        old(self).graph(),
                        req.people@,
                        end,
                        cuts,
                        road_numbers(roads@),
                        k,
                    ),
                forall|k: int|
                    0 <= k < i ==> has_route(old(self).graph(), #[trigger] req.people[k], end),
                self.wf(),
                self.graph() == old(self).graph(),
                self.router().nodes() == old(self).router().nodes(),
                self.router().hierarchy() == old(self).router().hierarchy(),
                self.router().node_limit() == old(self).router().node_limit(),
                old(self).planned_routes(req.people@, end, i as int) == Ok::<Seq<RoadID>, RouteError>(
                    roads@,
                ),
            decreases req.people.len() - i,
        {
            let ghost before = roads@;
            let ghost cuts_before = cuts;
            match req.people[i].home {
                Some(start) => {
                    let ghost wanted = old(self).router().planned_route(
                        old(self).graph(),
                        start,
                        end,
                    );
                    assert(wanted == self.router().planned_route(self.graph(), start, end));
                    match self.router.route(&self.graph, start, end) {
                        Ok(mut more) => {
                            assert(wanted == Ok::<Seq<RoadID>, RouteError>(more@));
                            let ghost walked = more@;
                            roads.append(&mut more);
                            assert(roads@.subrange(before.len() as int, roads.len() as int)
                                =~= walked);
                        },
                        Err(e) => {
                            proof {
                                assert(wanted == Err::<Seq<RoadID>, RouteError>(e));
                                assert(!has_route(old(self).graph(), req.people[i as int], end));
                                assert(old(self).planned_routes(req.people@, end, i + 1) == Err::<
                                    Seq<RoadID>,
                                    RouteError,
                                >(e));
                                old(self).lemma_failure_stays(
                                    req.people@,
                                    end,
                                    i + 1,
                                    req.people.len() as int,
                                );
                            }
                            return Err(e);
                        },
                    }
                },
                None => {},
            }
            proof {
                cuts = cuts.push(roads.len() as int);
                assert forall|k: int| 0 <= k < i + 1 implies #[trigger] is_part(
                    old(self).graph(),
                    req.people@,
                    end,
                    cuts,
                    road_numbers(roads@),
                    k,
                ) by {
                    if k < i {
                        assert(is_part(
                            old(self).graph(),
                            req.people@,
                            end,
                            cuts_before,
                            road_numbers(before),
                            k,
                        ));
                        assert(cuts[k] == cuts_before[k] && cuts[k + 1] == cuts_before[k + 1]);
                        assert(road_numbers(roads@).subrange(cuts[k], cuts[k + 1])
                            =~= road_numbers(before).subrange(cuts[k], cuts[k + 1]));
                    } else {
                        assert(road_numbers(roads@).subrange(cuts[k], cuts[k + 1])
                            =~= road_numbers(roads@.subrange(before.len() as int, roads.len() as int)));
                    }
                }
            }
            i += 1;
        }
        proof {
            assert(are_routes(old(self).graph(), req.people@, end, cuts, road_numbers(roads@)));
            assert(routes_of(old(self).graph(), req.people@, end, roads@));
        }
        Ok(roads)
    }

    /// Once a person's route has failed, the failure stays.
    proof fn lemma_failure_stays(
        &self,
        people: Seq<Person>,
        point: IntersectionID,
        upto: int,
        later: int,
    )
        requires
            upto <= later,
            self.planned_routes(people, point, upto) is Err,
        ensures
            self.planned_routes(people, point, later) == self.planned_routes(people, point, upto),
        decreases later - upto,
    {
        if upto < later {
            self.lemma_failure_stays(people, point, upto, later - 1);
        }
    }
}

} // verus!
