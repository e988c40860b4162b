//! Shortest walking routes, answered from a hierarchy that is prepared once.

use vstd::prelude::*;
use fast_paths::{FastGraph, InputGraph, PathCalculator};
use crate::graph::{walking_cost, Graph, Road};
use crate::hierarchy::{
    calc_path, calculator_nodes, hierarchy_data, hierarchy_nodes, input_frozen, input_weights,
    distinct_edges, edges_weight, is_route, is_shortest, is_step, prepared, route_weight,
    shortest_path, weights_fit, with_edge,
};
use crate::ids::{IntersectionID, RoadID};
use crate::nodes::{lemma_node_of, lemma_node_stays, node_of, with_node, NodeMap};
use crate::search::is_reach_cost;

verus! {

/// Why no route is returned.
#[derive(Clone, Copy, Debug, PartialEq, Eq, Structural)]
pub enum RouteError {
    /// The route would start where it ends.
    IdenticalEndpoints,
    /// No sequence of roads leads from the start to the end.
    NoPathFound,
    /// The roads are too many or too long for their costs to be added up.
    TooHeavy,
    /// A path names a node that stands for no intersection.
    UnknownNode,
    /// Two intersections that follow each other on a path share no road.
    MissingRoad,
}

impl RouteError {
    /// The words for the failure.
    pub open spec fn text(&self) -> Seq<char> {
        match self {
            RouteError::IdenticalEndpoints => "start = end"@,
            RouteError::NoPathFound => "No path"@,
            RouteError::TooHeavy => "the costs of the roads are too large to add up"@,
            RouteError::UnknownNode => "the path names a node of no intersection"@,
            RouteError::MissingRoad => "no road between two intersections of the path"@,
        }
    }

    /// Says in words what failed.
    pub fn describe(&self) -> (words: String)
        ensures
            words@ == self.text(),
    {
        match self {
            RouteError::IdenticalEndpoints => "start = end".to_owned(),
            RouteError::NoPathFound => "No path".to_owned(),
            RouteError::TooHeavy => "the costs of the roads are too large to add up".to_owned(),
            RouteError::UnknownNode => "the path names a node of no intersection".to_owned(),
            RouteError::MissingRoad => "no road between two intersections of the path".to_owned(),
        }
    }
}

/// The nodes that the first `upto` roads give to their ends: the source of a
/// road is numbered before its destination.
pub open spec fn numbered(roads: Seq<Road>, upto: int) -> Seq<IntersectionID>
    decreases upto,
{
    if upto <= 0 {
        Seq::empty()
    } else {
        with_node(with_node(numbered(roads, upto - 1), roads[upto - 1].src_i), roads[upto - 1].dst_i)
    }
}

/// The weight of a road in the hierarchy: its cost in milliseconds.
pub open spec fn road_weight(road: Road) -> usize {
    walking_cost(road.length_mm as int) as usize
}

/// The weights that the first `upto` roads give to the hierarchy: each road
/// is an edge in both directions between the nodes of its ends.
pub open spec fn road_edges(roads: Seq<Road>, upto: int) -> Map<(usize, usize), usize>
    decreases upto,
{
    if upto <= 0 {
        Map::empty()
    } else {
        let road = roads[upto - 1];
        let nodes = numbered(roads, upto);
        let a = node_of(nodes, road.src_i).unwrap();
        let b = node_of(nodes, road.dst_i).unwrap();
        with_edge(
            with_edge(road_edges(roads, upto - 1), a, b, road_weight(road)),
            b,
            a,
            road_weight(road),
        )
    }
}

/// The sum of the weights of the first `upto` roads.
pub open spec fn total_weight(roads: Seq<Road>, upto: int) -> int
    decreases upto,
{
    if upto <= 0 {
        0
    } else {
        total_weight(roads, upto - 1) + road_weight(roads[upto - 1])
    }
}

/// The costs of the roads can be added up along any two paths that take no
/// road twice in one direction: four times the sum of all costs is in the
/// range of `usize`.
pub open spec fn roads_fit(roads: Seq<Road>) -> bool {
    4 * total_weight(roads, roads.len() as int) <= usize::MAX
}

/// The roads along a path of nodes, as far as its first `upto` steps: for
/// each two nodes that follow each other, the cheapest road between their
/// intersections.
pub open spec fn roads_along(g: Graph, nodes: Seq<IntersectionID>, path: Seq<usize>, upto: int) -> Result<
    Seq<RoadID>,
    RouteError,
>
    decreases upto,
{
    if upto <= 0 {
        Ok(Seq::empty())
    } else {
        match roads_along(g, nodes, path, upto - 1) {
            Err(e) => Err(e),
            Ok(before) => if path[upto - 1] >= nodes.len() || path[upto] >= nodes.len() {
                Err(RouteError::UnknownNode)
            } else {
                match g.cheapest_between(
                    nodes[path[upto - 1] as int].0 as int,
                    nodes[path[upto] as int].0 as int,
                ) {
                    None => Err(RouteError::MissingRoad),
                    Some(r) => Ok(before.push(RoadID(r as usize))),
                }
            },
        }
    }
}

/// Once a step of a path has failed, the failure stays.
proof fn lemma_failure_stays(
    g: Graph,
    nodes: Seq<IntersectionID>,
    path: Seq<usize>,
    upto: int,
    later: int,
)
    requires
        upto <= later,
        roads_along(g, nodes, path, upto) is Err,
    ensures
        roads_along(g, nodes, path, later) == roads_along(g, nodes, path, upto),
    decreases later - upto,
{
    if upto < later {
        lemma_failure_stays(g, nodes, path, upto, later - 1);
    }
}

/// Road `road` joins intersections `i1` and `i2`.
pub open spec fn joins(road: Road, i1: IntersectionID, i2: IntersectionID) -> bool {
    ||| road.src_i == i1 && road.dst_i == i2
    ||| road.src_i == i2 && road.dst_i == i1
}

/// The numbers of roads.
pub open spec fn road_numbers(roads: Seq<RoadID>) -> Seq<int> {
    Seq::new(roads.len(), |k: int| roads[k].0 as int)
}

/// Some walk leads from intersection `from` to intersection `to`.
pub open spec fn connected(g: Graph, from: int, to: int) -> bool {
    exists|walk: Seq<int>| #[trigger] g.walk_reaches(from, walk, to)
}

/// One of the first `upto` roads starts or ends at intersection `id`.
pub open spec fn ends_a_road(roads: Seq<Road>, upto: int, id: IntersectionID) -> bool {
    exists|r: int| 0 <= r < upto && ((#[trigger] roads[r]).src_i == id || roads[r].dst_i == id)
}

/// The numbering gives no intersection two nodes, gives a node to both ends
/// of every road, and leaves a node what it was when more roads follow.
pub proof fn lemma_numbered(roads: Seq<Road>, upto: int)
    requires
        0 <= upto <= roads.len(),
    ensures
        numbered(roads, upto).no_duplicates(),
        forall|r: int|
            0 <= r < upto ==> numbered(roads, upto).contains((#[trigger] roads[r]).src_i)
                && numbered(roads, upto).contains(roads[r].dst_i),
        forall|k: int|
            0 <= k < numbered(roads, upto).len() ==> ends_a_road(
                roads,
                upto,
                #[trigger] numbered(roads, upto)[k],
            ),
    decreases upto,
{
    if upto > 0 {
        lemma_numbered(roads, upto - 1);
        let n0 = numbered(roads, upto - 1);
        let n1 = with_node(n0, roads[upto - 1].src_i);
        let n2 = with_node(n1, roads[upto - 1].dst_i);
        assert(n2 == numbered(roads, upto));
        assert(n1.contains(roads[upto - 1].src_i)) by {
            if !n0.contains(roads[upto - 1].src_i) {
                assert(n1[n0.len() as int] == roads[upto - 1].src_i);
            }
        }
        assert(n2.contains(roads[upto - 1].dst_i)) by {
            if !n1.contains(roads[upto - 1].dst_i) {
                assert(n2[n1.len() as int] == roads[upto - 1].dst_i);
            }
        }
        assert forall|id: IntersectionID| n0.contains(id) implies n2.contains(id) by {
            let k = choose|k: int| 0 <= k < n0.len() && n0[k] == id;
            assert(n2[k] == id);
        }
        assert(n2.contains(roads[upto - 1].src_i)) by {
            let k = choose|k: int| 0 <= k < n1.len() && n1[k] == roads[upto - 1].src_i;
            assert(n2[k] == roads[upto - 1].src_i);
        }
        assert forall|k: int| 0 <= k < n2.len() implies ends_a_road(roads, upto, #[trigger] n2[k]) by {
            if k < n0.len() {
                assert(ends_a_road(roads, upto - 1, n0[k]));
                let r = choose|r: int|
                    0 <= r < upto - 1 && ((#[trigger] roads[r]).src_i == n0[k] || roads[r].dst_i
                        == n0[k]);
                assert(roads[r].src_i == n2[k] || roads[r].dst_i == n2[k]);
            } else {
                assert(roads[upto - 1].src_i == n2[k] || roads[upto - 1].dst_i == n2[k]);
            }
        }
    }
}

/// A node stays what it was when more roads follow.
proof fn lemma_numbered_grows(roads: Seq<Road>, earlier: int, upto: int)
    requires
        0 <= earlier <= upto,
    ensures
        numbered(roads, earlier).len() <= numbered(roads, upto).len(),
        forall|k: int|
            0 <= k < numbered(roads, earlier).len() ==> #[trigger] numbered(roads, upto)[k]
                == numbered(roads, earlier)[k],
    decreases upto - earlier,
{
    if earlier < upto {
        lemma_numbered_grows(roads, earlier, upto - 1);
    }
}

/// Every edge of the hierarchy stands for a road: it joins the nodes of two
/// different intersections that a road joins, and it weighs what such a
/// road costs.
proof fn lemma_road_edges(roads: Seq<Road>, upto: int)
    requires
        0 <= upto <= roads.len(),
        numbered(roads, upto).len() <= usize::MAX,
    ensures
        forall|a: usize, b: usize| #[trigger]
            road_edges(roads, upto).contains_key((a, b)) ==> {
                &&& a < numbered(roads, upto).len()
                &&& b < numbered(roads, upto).len()
                &&& a != b
                &&& 1 <= road_edges(roads, upto)[(a, b)]
                &&& exists|r: int|
                    0 <= r < upto && #[trigger] joins(
                        roads[r],
                        numbered(roads, upto)[a as int],
                        numbered(roads, upto)[b as int],
                    ) && road_edges(roads, upto)[(a, b)] == road_weight(roads[r])
            },
        forall|r: int, a: usize, b: usize|
            0 <= r < upto && a < numbered(roads, upto).len() && b < numbered(roads, upto).len()
                && #[trigger] joins(
                roads[r],
                numbered(roads, upto)[a as int],
                numbered(roads, upto)[b as int],
            ) && a != b && road_weight(roads[r]) >= 1 ==> road_edges(roads, upto).contains_key(
                (a, b),
            ) && road_edges(roads, upto)[(a, b)] <= road_weight(roads[r]),
    decreases upto,
{
    if upto > 0 {
        lemma_numbered(roads, upto);
        lemma_numbered_grows(roads, upto - 1, upto);
        lemma_road_edges(roads, upto - 1);
        let road = roads[upto - 1];
        let nodes = numbered(roads, upto);
        let before = numbered(roads, upto - 1);
        let w0 = road_edges(roads, upto - 1);
        let a0 = node_of(nodes, road.src_i).unwrap();
        let b0 = node_of(nodes, road.dst_i).unwrap();
        let k1 = choose|k: int| 0 <= k < nodes.len() && nodes[k] == road.src_i;
        let k2 = choose|k: int| 0 <= k < nodes.len() && nodes[k] == road.dst_i;
        let n1 = k1 as usize;
        let n2 = k2 as usize;
        assert(n1 < nodes.len() && nodes[n1 as int] == road.src_i);
        assert(n2 < nodes.len() && nodes[n2 as int] == road.dst_i);
        let w1 = with_edge(w0, a0, b0, road_weight(road));
        let w2 = with_edge(w1, b0, a0, road_weight(road));
        assert(w2 == road_edges(roads, upto));
        assert forall|a: usize, b: usize| #[trigger] w2.contains_key((a, b)) implies {
            &&& a < nodes.len()
            &&& b < nodes.len()
            &&& a != b
            &&& 1 <= w2[(a, b)]
            &&& exists|r: int|
                0 <= r < upto && #[trigger] joins(roads[r], nodes[a as int], nodes[b as int])
                    && w2[(a, b)] == road_weight(roads[r])
        } by {
            if w0.contains_key((a, b)) && w2[(a, b)] == w0[(a, b)] {
                assert(before[a as int] == nodes[a as int]);
                assert(before[b as int] == nodes[b as int]);
                let r = choose|r: int|
                    0 <= r < upto - 1 && #[trigger] joins(
                        roads[r],
                        before[a as int],
                        before[b as int],
                    ) && w0[(a, b)] == road_weight(roads[r]);
                assert(joins(roads[r], nodes[a as int], nodes[b as int]));
            } else {
                assert((a, b) == (a0, b0) || (a, b) == (b0, a0));
                assert(joins(roads[upto - 1], nodes[a as int], nodes[b as int]));
            }
        }
        assert forall|r: int, a: usize, b: usize|
            0 <= r < upto && a < nodes.len() && b < nodes.len() && #[trigger] joins(
                roads[r],
                nodes[a as int],
                nodes[b as int],
            ) && a != b && road_weight(roads[r]) >= 1 implies w2.contains_key((a, b)) && w2[(a, b)]
            <= road_weight(roads[r]) by {
            if r < upto - 1 {
                lemma_numbered(roads, upto - 1);
                let ka = choose|k: int| 0 <= k < before.len() && before[k] == nodes[a as int];
                let kb = choose|k: int| 0 <= k < before.len() && before[k] == nodes[b as int];
                assert(nodes[ka] == nodes[a as int]);
                assert(nodes[kb] == nodes[b as int]);
                assert(joins(roads[r], before[a as int], before[b as int]));
                assert(w0.contains_key((a, b)));
            } else {
                assert(nodes[a as int] == nodes[a0 as int] || nodes[a as int] == nodes[b0 as int]);
                assert((a, b) == (a0, b0) || (a, b) == (b0, a0));
            }
        }
    }
}

/// The weight of edges is the weight without one of them, and that one.
proof fn lemma_edge_apart(weights: Map<(usize, usize), usize>, edges: Seq<(usize, usize)>, i: int)
    requires
        0 <= i < edges.len(),
    ensures
        edges_weight(weights, edges) == edges_weight(weights, edges.remove(i)) + weights[edges[i]],
    decreases edges.len(),
{
    if i == edges.len() - 1 {
        assert(edges.remove(i) =~= edges.drop_last());
    } else {
        lemma_edge_apart(weights, edges.drop_last(), i);
        assert(edges.remove(i).drop_last() =~= edges.drop_last().remove(i));
        assert(edges.remove(i).last() == edges.last());
    }
}

/// Edges weigh the same by two weights that agree on them.
proof fn lemma_weights_agree(
    one: Map<(usize, usize), usize>,
    other: Map<(usize, usize), usize>,
    edges: Seq<(usize, usize)>,
)
    requires
        forall|i: int| 0 <= i < edges.len() ==> one[#[trigger] edges[i]] == other[edges[i]],
    ensures
        edges_weight(one, edges) == edges_weight(other, edges),
    decreases edges.len(),
{
    if edges.len() > 0 {
        let before = edges.drop_last();
        assert forall|i: int| 0 <= i < before.len() implies one[#[trigger] before[i]]
            == other[before[i]] by {
            assert(before[i] == edges[i]);
        }
        lemma_weights_agree(one, other, before);
        assert(one[edges[edges.len() - 1]] == other[edges[edges.len() - 1]]);
    }
}

/// One more edge adds its weight to what the edges weigh at most.
proof fn lemma_with_edge_fits(
    weights: Map<(usize, usize), usize>,
    from: usize,
    to: usize,
    weight: usize,
    bound: int,
)
    requires
        weights_fit(weights, bound),
    ensures
        weights_fit(with_edge(weights, from, to, weight), bound + weight),
{
    let more = with_edge(weights, from, to, weight);
    assert forall|edges: Seq<(usize, usize)>| #[trigger] distinct_edges(more, edges) implies edges_weight(
        more,
        edges,
    ) <= bound + weight by {
        if more == weights {
            assert(distinct_edges(weights, edges));
        } else if edges.contains((from, to)) {
            let i = choose|i: int| 0 <= i < edges.len() && edges[i] == (from, to);
            let rest = edges.remove(i);
            lemma_edge_apart(more, edges, i);
            assert forall|j: int| 0 <= j < rest.len() implies rest[j] != (from, to)
                && weights.contains_key(#[trigger] rest[j]) by {
                if j < i {
                    assert(rest[j] == edges[j]);
                } else {
                    assert(rest[j] == edges[j + 1]);
                }
            }
            assert(rest.no_duplicates()) by {
                assert forall|j: int, k: int|
                    0 <= j < rest.len() && 0 <= k < rest.len() && j != k implies rest[j]
                    != rest[k] by {
                    let j0 = if j < i { j } else { j + 1 };
                    let k0 = if k < i { k } else { k + 1 };
                    assert(rest[j] == edges[j0] && rest[k] == edges[k0]);
                }
            }
            assert(distinct_edges(weights, rest));
            lemma_weights_agree(more, weights, rest);
        } else {
            assert forall|j: int| 0 <= j < edges.len() implies edges[j] != (from, to)
                && weights.contains_key(#[trigger] edges[j]) by {
                assert(edges.contains(edges[j]));
            }
            assert(distinct_edges(weights, edges));
            lemma_weights_agree(more, weights, edges);
        }
    }
}

/// The edges of the roads, each taken once, weigh no more than all roads
/// taken in both directions.
proof fn lemma_edges_fit(roads: Seq<Road>, upto: int)
    requires
        0 <= upto,
    ensures
        weights_fit(road_edges(roads, upto), 2 * total_weight(roads, upto)),
    decreases upto,
{
    if upto > 0 {
        lemma_edges_fit(roads, upto - 1);
        let road = roads[upto - 1];
        let nodes = numbered(roads, upto);
        let a = node_of(nodes, road.src_i).unwrap();
        let b = node_of(nodes, road.dst_i).unwrap();
        let before = road_edges(roads, upto - 1);
        lemma_with_edge_fits(before, a, b, road_weight(road), 2 * total_weight(roads, upto - 1));
        lemma_with_edge_fits(
            with_edge(before, a, b, road_weight(road)),
            b,
            a,
            road_weight(road),
            2 * total_weight(roads, upto - 1) + road_weight(road),
        );
    } else {
        assert forall|edges: Seq<(usize, usize)>| #[trigger]
            distinct_edges(road_edges(roads, upto), edges) implies edges_weight(
            road_edges(roads, upto),
            edges,
        ) <= 0 by {
            if edges.len() > 0 {
                assert(road_edges(roads, upto).contains_key(edges[0]));
            }
        }
    }
}

/// A path along edges of the hierarchy is a walk along roads: between any
/// two nodes that follow each other there is a road, and the roads lead
/// from the intersection of the first node to that of the last.
pub proof fn lemma_route_is_walk(g: Graph, path: Seq<usize>, upto: int)
    requires
        g.wf(),
        numbered(g.roads@, g.roads.len() as int).len() <= usize::MAX,
        0 <= upto < path.len(),
        path[0] < numbered(g.roads@, g.roads.len() as int).len(),
        forall|k: int|
            0 <= k < path.len() - 1 ==> #[trigger] is_step(
                road_edges(g.roads@, g.roads.len() as int),
                path,
                k,
            ),
    ensures
        path[upto] < numbered(g.roads@, g.roads.len() as int).len(),
        roads_along(g, numbered(g.roads@, g.roads.len() as int), path, upto) is Ok,
        g.walk_reaches(
            numbered(g.roads@, g.roads.len() as int)[path[0] as int].0 as int,
            road_numbers(
                roads_along(g, numbered(g.roads@, g.roads.len() as int), path, upto).unwrap(),
            ),
            numbered(g.roads@, g.roads.len() as int)[path[upto] as int].0 as int,
        ),
        g.walk_cost(
            road_numbers(
                roads_along(g, numbered(g.roads@, g.roads.len() as int), path, upto).unwrap(),
            ),
        ) == route_weight(road_edges(g.roads@, g.roads.len() as int), path.take(upto + 1)),
    decreases upto,
{
    let n = g.roads.len() as int;
    let nodes = numbered(g.roads@, n);
    let start = nodes[path[0] as int].0 as int;
    lemma_numbered(g.roads@, n);
    if upto == 0 {
        assert(ends_a_road(g.roads@, n, nodes[path[0] as int]));
        let r = choose|r: int|
            0 <= r < n && ((#[trigger] g.roads@[r]).src_i == nodes[path[0] as int]
                || g.roads@[r].dst_i == nodes[path[0] as int]);
        assert(g.road_ok(r));
        assert(road_numbers(Seq::<RoadID>::empty()) =~= Seq::<int>::empty());
    } else {
        lemma_route_is_walk(g, path, upto - 1);
        lemma_road_edges(g.roads@, n);
        let a = path[upto - 1];
        let b = path[upto];
        assert(is_step(road_edges(g.roads@, n), path, upto - 1));
        assert(road_edges(g.roads@, n).contains_key((a, b)));
        let r = choose|r: int|
            0 <= r < n && #[trigger] joins(g.roads@[r], nodes[a as int], nodes[b as int])
                && road_edges(g.roads@, n)[(a, b)] == road_weight(g.roads@[r]);
        let i1 = nodes[a as int].0 as int;
        let i2 = nodes[b as int].0 as int;
        assert(nodes[a as int] != nodes[b as int]);
        assert(i1 != i2);
        assert(g.road_ok(r));
        assert(g.incident(i1, r));
        assert(g.ends_at(r, i2));
        g.lemma_cheapest_between(i1, i2);
        let found = g.cheapest_between(i1, i2)->0;
        let k2 = choose|k: int|
            0 <= k < g.intersections[i1].roads.len() && (#[trigger] g.intersections[i1].roads[k]).0
                == found;
        assert(g.intersection_ok(i1));
        assert(g.far_end(found, i1) == i2);
        let before = roads_along(g, nodes, path, upto - 1).unwrap();
        let after = roads_along(g, nodes, path, upto).unwrap();
        assert(after == before.push(RoadID(found as usize)));
        assert(road_numbers(after).drop_last() =~= road_numbers(before));
        assert(road_numbers(after).last() == found);
        assert(path.take(upto + 1).drop_last() =~= path.take(upto));
        assert(g.road_cost(found) <= g.road_cost(r));
        assert(joins(g.roads@[found], nodes[a as int], nodes[b as int]));
        assert(road_edges(g.roads@, n)[(a, b)] <= road_weight(g.roads@[found]));
        assert(g.road_cost(found) == road_edges(g.roads@, n)[(a, b)]);
    }
}

/// `walk` leads from `from` to `to`, and no walk that does so costs less.
pub open spec fn cheapest_walk(g: Graph, from: int, to: int, walk: Seq<int>) -> bool {
    &&& g.walk_reaches(from, walk, to)
    &&& forall|other: Seq<int>| #[trigger]
        g.walk_reaches(from, other, to) ==> g.walk_cost(walk) <= g.walk_cost(other)
}

/// A road with two different ends joins them both ways, so there is a route
/// from either to the other.
pub proof fn lemma_road_joins(g: Graph, r: int)
    requires
        g.wf(),
        0 <= r < g.roads.len(),
    ensures
        connected(g, g.roads[r].src_i.0 as int, g.roads[r].dst_i.0 as int),
        connected(g, g.roads[r].dst_i.0 as int, g.roads[r].src_i.0 as int),
{
    let src = g.roads[r].src_i.0 as int;
    let dst = g.roads[r].dst_i.0 as int;
    let walk = Seq::<int>::empty().push(r);
    assert(walk.drop_last() =~= Seq::<int>::empty());
    assert(g.road_ok(r));
    assert(g.is_walk(src, walk.drop_last()));
    assert(g.is_walk(dst, walk.drop_last()));
    assert(g.walk_reaches(src, walk, dst));
    assert(g.walk_reaches(dst, walk, src));
}

/// A cheapest walk passes no intersection twice: after `i` roads one stands
/// elsewhere than after `j` roads.
pub proof fn lemma_cheapest_is_simple(g: Graph, from: int, to: int, walk: Seq<int>, i: int, j: int)
    requires
        g.wf(),
        cheapest_walk(g, from, to, walk),
        0 <= i < j <= walk.len(),
    ensures
        g.walk_end(from, walk.take(i)) != g.walk_end(from, walk.take(j)),
{
    let head = walk.take(i);
    let round = walk.take(j).skip(i);
    let tail = walk.skip(j);
    g.lemma_walk_parts(from, walk, j);
    g.lemma_walk_parts(from, walk.take(j), i);
    assert(walk.take(j).take(i) =~= head);
    assert(g.walk_cost(round) >= 1) by {
        g.lemma_walk_parts(g.walk_end(from, head), round, round.len() - 1);
        assert(round.take(round.len() - 1) =~= round.drop_last());
        g.lemma_walk_step(g.walk_end(from, head), round.drop_last());
        g.lemma_costs_positive();
    }
    if g.walk_end(from, head) == g.walk_end(from, walk.take(j)) {
        g.lemma_walk_joined(from, head, tail);
        assert(g.walk_reaches(from, head + tail, to));
    }
}

/// No intersection is passed twice: after different numbers of roads one
/// stands at different intersections.
pub open spec fn passes_once(g: Graph, from: int, walk: Seq<int>) -> bool {
    forall|i: int, j: int|
        0 <= i < j <= walk.len() ==> g.walk_end(from, #[trigger] walk.take(i)) != g.walk_end(
            from,
            #[trigger] walk.take(j),
        )
}

/// A cheapest walk passes no intersection twice.
pub proof fn lemma_cheapest_passes_once(g: Graph, from: int, to: int, walk: Seq<int>)
    requires
        g.wf(),
        cheapest_walk(g, from, to, walk),
    ensures
        passes_once(g, from, walk),
{
    assert forall|i: int, j: int| 0 <= i < j <= walk.len() implies g.walk_end(
        from,
        #[trigger] walk.take(i),
    ) != g.walk_end(from, #[trigger] walk.take(j)) by {
        lemma_cheapest_is_simple(g, from, to, walk, i, j);
    }
}

/// Where only one walk from one intersection to another is cheapest, the
/// cheapest walk back takes the same roads in reverse order.
pub proof fn lemma_route_back(g: Graph, from: int, to: int, there: Seq<int>, back: Seq<int>)
    requires
        g.wf(),
        cheapest_walk(g, from, to, there),
        cheapest_walk(g, to, from, back),
        forall|other: Seq<int>| #[trigger] cheapest_walk(g, from, to, other) ==> other == there,
    ensures
        back == there.reverse(),
{
    lemma_same_cost_back(g, from, to, there, back);
    g.lemma_walk_back(to, back);
    assert(cheapest_walk(g, from, to, back.reverse()));
    assert(back =~= back.reverse().reverse());
}

/// The cheapest walk there costs what the cheapest walk back costs.
pub proof fn lemma_same_cost_back(g: Graph, from: int, to: int, there: Seq<int>, back: Seq<int>)
    requires
        g.wf(),
        cheapest_walk(g, from, to, there),
        cheapest_walk(g, to, from, back),
    ensures
        g.walk_cost(there) == g.walk_cost(back),
{
    g.lemma_walk_back(from, there);
    g.lemma_walk_back(to, back);
    assert(g.walk_reaches(to, there.reverse(), from));
    assert(g.walk_reaches(from, back.reverse(), to));
}

/// The two searches agree: what it costs at least to reach an amenity is
/// what a cheapest walk to one end of its road costs, and that road.
pub proof fn lemma_reach_cost_is_route_cost(g: Graph, start: int, r: int, a: int, cost: int)
    requires
        g.wf(),
        g.carries(r, a),
        is_reach_cost(g, start, a, cost),
    ensures
        exists|walk: Seq<int>| #[trigger]
            cheapest_walk(g, start, g.walk_end(start, walk), walk) && g.incident(
                g.walk_end(start, walk),
                r,
            ) && cost == g.walk_cost(walk) + g.road_cost(r),
{
    let whole = choose|w: Seq<int>| #[trigger] g.walk_serves(start, w, a) && g.walk_cost(w) == cost;
    let walk = whole.drop_last();
    let to = g.walk_end(start, walk);
    g.lemma_one_road(whole.last(), r, a);
    assert forall|other: Seq<int>| #[trigger] g.walk_reaches(start, other, to) implies g.walk_cost(
        walk,
    ) <= g.walk_cost(other) by {
        let longer = other.push(r);
        assert(longer.drop_last() =~= other);
        assert(g.walk_serves(start, longer, a));
    }
    assert(cheapest_walk(g, start, g.walk_end(start, walk), walk));
}

/// `path` leads from node `source` along edges of the roads to the node of
/// intersection `to`, and weighs no more than `cost`.
pub open spec fn route_for(g: Graph, source: usize, to: int, cost: int, path: Seq<usize>) -> bool {
    let n = g.roads.len() as int;
    &&& is_route(road_edges(g.roads@, n), source, path[path.len() - 1], path)
    &&& path[path.len() - 1] < numbered(g.roads@, n).len()
    &&& numbered(g.roads@, n)[path[path.len() - 1] as int].0 == to
    &&& route_weight(road_edges(g.roads@, n), path) <= cost
}

/// A road with two different ends is an edge of the
/// hierarchy in both directions, of no more weight than the road costs.
proof fn lemma_edge_of_road(roads: Seq<Road>, r: int, a: usize, b: usize)
    requires
        0 <= r < roads.len(),
        numbered(roads, roads.len() as int).len() <= usize::MAX,
        a < numbered(roads, roads.len() as int).len(),
        b < numbered(roads, roads.len() as int).len(),
        joins(
            roads[r],
            numbered(roads, roads.len() as int)[a as int],
            numbered(roads, roads.len() as int)[b as int],
        ),
        a != b,
        road_weight(roads[r]) >= 1,
    ensures
        road_edges(roads, roads.len() as int).contains_key((a, b)),
        road_edges(roads, roads.len() as int)[(a, b)] <= road_weight(roads[r]),
{
    lemma_road_edges(roads, roads.len() as int);
}

/// Both ends of a road have a node.
proof fn lemma_ends_have_nodes(roads: Seq<Road>, r: int)
    requires
        0 <= r < roads.len(),
    ensures
        numbered(roads, roads.len() as int).contains(roads[r].src_i),
        numbered(roads, roads.len() as int).contains(roads[r].dst_i),
        numbered(roads, roads.len() as int).no_duplicates(),
{
    lemma_numbered(roads, roads.len() as int);
}

/// A walk along roads has a path along edges of the hierarchy that weighs
/// no more than the walk costs.
proof fn lemma_walk_has_route(g: Graph, source: usize, walk: Seq<int>)
    requires
        g.wf(),
        numbered(g.roads@, g.roads.len() as int).len() <= usize::MAX,
        source < numbered(g.roads@, g.roads.len() as int).len(),
        g.is_walk(numbered(g.roads@, g.roads.len() as int)[source as int].0 as int, walk),
    ensures
        exists|path: Seq<usize>| #[trigger]
            route_for(
                g,
                source,
                g.walk_end(numbered(g.roads@, g.roads.len() as int)[source as int].0 as int, walk),
                g.walk_cost(walk),
                path,
            ),
    decreases walk.len(),
{
    let n = g.roads.len() as int;
    let nodes = numbered(g.roads@, n);
    let weights = road_edges(g.roads@, n);
    let start = nodes[source as int].0 as int;
    if walk.len() == 0 {
        let path = Seq::<usize>::empty().push(source);
        assert(g.walk_end(start, walk) == start);
        assert(g.walk_cost(walk) == 0);
        assert(route_for(g, source, g.walk_end(start, walk), g.walk_cost(walk), path));
    } else {
        let before = walk.drop_last();
        let r = walk.last();
        let u = g.walk_end(start, before);
        lemma_walk_has_route(g, source, before);
        g.lemma_walk_step(start, before);
        let shorter = choose|path: Seq<usize>| #[trigger]
            route_for(g, source, u, g.walk_cost(before), path);
        let a = shorter[shorter.len() - 1];
        let v = g.far_end(r, u);
        assert(0 <= r < n && g.ends_at(r, u) && 0 <= v < g.intersections.len()) by {
            let k = choose|k: int|
                0 <= k < g.intersections[u].roads.len() && (
                #[trigger] g.intersections[u].roads[k]).0 == r;
            g.lemma_listed_road(u, k);
            assert(g.intersection_ok(u));
        }
        assert(g.walk_end(start, walk) == v);
        assert(g.walk_cost(walk) == g.walk_cost(before) + g.road_cost(r));
        if v == u {
            assert(route_for(g, source, g.walk_end(start, walk), g.walk_cost(walk), shorter));
        } else {
            let to = IntersectionID(v as usize);
            lemma_ends_have_nodes(g.roads@, r);
            assert(g.roads@[r].src_i == to || g.roads@[r].dst_i == to);
            let kb = choose|kb: int| 0 <= kb < nodes.len() && nodes[kb] == to;
            let b = kb as usize;
            assert(nodes[a as int] == IntersectionID(u as usize));
            assert(joins(g.roads@[r], nodes[a as int], nodes[b as int]));
            g.lemma_costs_positive();
            assert(g.road_cost(r) >= 1);
            lemma_edge_of_road(g.roads@, r, a, b);
            let path = shorter.push(b);
            assert(path.drop_last() =~= shorter);
            assert(is_route(weights, source, b, path)) by {
                assert forall|j: int| 0 <= j < path.len() - 1 implies #[trigger] is_step(
                    weights,
                    path,
                    j,
                ) by {
                    if j < shorter.len() - 1 {
                        assert(is_step(weights, shorter, j));
                    }
                }
            }
            assert(route_weight(weights, path) == route_weight(weights, shorter) + weights[(
                a,
                b,
            )]);
            assert(route_for(g, source, g.walk_end(start, walk), g.walk_cost(walk), path));
        }
    }
}

/// Where a walk joins two different intersections, both have nodes, and a
/// path along edges of the hierarchy
/// leads from the node of the one to the node of the other.
proof fn lemma_connected(g: Graph, start: IntersectionID, end: IntersectionID)
    requires
        g.wf(),
        numbered(g.roads@, g.roads.len() as int).len() <= usize::MAX,
        start != end,
        connected(g, start.0 as int, end.0 as int),
    ensures
        node_of(numbered(g.roads@, g.roads.len() as int), start) is Some,
        node_of(numbered(g.roads@, g.roads.len() as int), end) is Some,
        exists|path: Seq<usize>| #[trigger]
            is_route(
                road_edges(g.roads@, g.roads.len() as int),
                node_of(numbered(g.roads@, g.roads.len() as int), start).unwrap(),
                node_of(numbered(g.roads@, g.roads.len() as int), end).unwrap(),
                path,
            ) && path.len() >= 2,
{
    let n = g.roads.len() as int;
    let nodes = numbered(g.roads@, n);
    let walk = choose|walk: Seq<int>| #[trigger] g.walk_reaches(start.0 as int, walk, end.0 as int);
    lemma_first_road(g, start.0 as int, walk);
    let r = walk[0];
    lemma_ends_have_nodes(g.roads@, r);
    let ks = choose|k: int| 0 <= k < nodes.len() && nodes[k] == start;
    lemma_node_of(nodes, ks);
    let s = ks as usize;
    lemma_walk_has_route(g, s, walk);
    let path = choose|path: Seq<usize>| #[trigger]
        route_for(g, s, end.0 as int, g.walk_cost(walk), path);
    let kt = path[path.len() - 1] as int;
    assert(nodes[kt] == end);
    lemma_node_of(nodes, kt);
    assert(node_of(nodes, start) == Some(s));
    assert(node_of(nodes, end) == Some(path[path.len() - 1]));
    assert(is_route(
        road_edges(g.roads@, n),
        node_of(nodes, start).unwrap(),
        node_of(nodes, end).unwrap(),
        path,
    ) && path.len() >= 2);
}

/// A walk between two different intersections has a first road, which
/// starts or ends where the walk starts.
proof fn lemma_first_road(g: Graph, start: int, walk: Seq<int>)
    requires
        g.wf(),
        g.is_walk(start, walk),
        g.walk_end(start, walk) != start,
    ensures
        walk.len() > 0,
        0 <= walk[0] < g.roads.len(),
        g.ends_at(walk[0], start),
    decreases walk.len(),
{
    if walk.len() > 1 {
        let before = walk.drop_last();
        if g.walk_end(start, before) != start {
            lemma_first_road(g, start, before);
        } else {
            lemma_walk_starts(g, start, before);
        }
    } else if walk.len() == 1 {
        lemma_walk_starts(g, start, walk);
    }
}

/// The first road of a walk starts or ends where the walk starts.
proof fn lemma_walk_starts(g: Graph, start: int, walk: Seq<int>)
    requires
        g.wf(),
        g.is_walk(start, walk),
        walk.len() > 0,
    ensures
        0 <= walk[0] < g.roads.len(),
        g.ends_at(walk[0], start),
    decreases walk.len(),
{
    if walk.len() > 1 {
        lemma_walk_starts(g, start, walk.drop_last());
    } else {
        assert(walk.drop_last() =~= Seq::<int>::empty());
        let k = choose|k: int|
            0 <= k < g.intersections[start].roads.len() && (
            #[trigger] g.intersections[start].roads[k]).0 == walk[0];
        g.lemma_listed_road(start, k);
        assert(g.intersection_ok(start));
    }
}

/// The roads along a lightest path of the hierarchy are a cheapest walk
/// between the intersections of its ends.
pub proof fn lemma_cheapest(g: Graph, source: usize, target: usize, path: Seq<usize>)
    requires
        g.wf(),
        numbered(g.roads@, g.roads.len() as int).len() <= usize::MAX,
        source < numbered(g.roads@, g.roads.len() as int).len(),
        target < numbered(g.roads@, g.roads.len() as int).len(),
        is_shortest(road_edges(g.roads@, g.roads.len() as int), source, target, Some(path)),
    ensures
        roads_along(g, numbered(g.roads@, g.roads.len() as int), path, path.len() - 1) is Ok,
        cheapest_walk(
            g,
            numbered(g.roads@, g.roads.len() as int)[source as int].0 as int,
            numbered(g.roads@, g.roads.len() as int)[target as int].0 as int,
            road_numbers(
                roads_along(
                    g,
                    numbered(g.roads@, g.roads.len() as int),
                    path,
                    path.len() - 1,
                ).unwrap(),
            ),
        ),
{
    let n = g.roads.len() as int;
    let nodes = numbered(g.roads@, n);
    let weights = road_edges(g.roads@, n);
    let from = nodes[source as int].0 as int;
    let to = nodes[target as int].0 as int;
    lemma_route_is_walk(g, path, path.len() - 1);
    assert(path.take(path.len() as int) =~= path);
    let roads = road_numbers(roads_along(g, nodes, path, path.len() - 1).unwrap());
    assert forall|other: Seq<int>| #[trigger] g.walk_reaches(from, other, to) implies g.walk_cost(
        roads,
    ) <= g.walk_cost(other) by {
        lemma_walk_has_route(g, source, other);
        let q = choose|q: Seq<usize>| #[trigger]
            route_for(g, source, to, g.walk_cost(other), q);
        let kt = q[q.len() - 1] as int;
        assert(nodes[kt] == nodes[target as int]);
        assert(nodes.no_duplicates()) by {
            lemma_numbered(g.roads@, n);
        }
        assert(kt == target);
        assert(is_route(weights, source, target, q));
    }
}

/// The roads of a path that was found, or the failure to find one.
pub open spec fn roads_of_path(g: Graph, nodes: Seq<IntersectionID>, path: Option<Seq<usize>>) -> Result<
    Seq<RoadID>,
    RouteError,
> {
    match path {
        None => Err(RouteError::NoPathFound),
        Some(p) => roads_along(g, nodes, p, p.len() - 1),
    }
}

/// `got` is the outcome `wanted`.
pub open spec fn same_route(got: Result<Vec<RoadID>, RouteError>, wanted: Result<Seq<RoadID>, RouteError>) -> bool {
    match got {
        Ok(roads) => wanted == Ok::<Seq<RoadID>, RouteError>(roads@),
        Err(e) => wanted == Err::<Seq<RoadID>, RouteError>(e),
    }
}

/// The view of an optional path.
pub open spec fn path_view(path: Option<Vec<usize>>) -> Option<Seq<usize>> {
    match path {
        Some(p) => Some(p@),
        None => None,
    }
}

/// Turns the path that a search came back with into the roads to walk: for
/// each two nodes that follow each other, the cheapest road between their
/// intersections. No path is `NoPathFound`.
/// A node that stands for no intersection is `UnknownNode`, and two
/// intersections without a road between them are `MissingRoad`; whichever
/// comes first on the path is reported.
pub fn path_to_roads(graph: &Graph, node_map: &NodeMap, path: Option<Vec<usize>>) -> (result: Result<
    Vec<RoadID>,
    RouteError,
>)
    requires
        graph.wf(),
    ensures
        same_route(result, roads_of_path(*graph, node_map@, path_view(path))),
{
    let ghost wanted = roads_of_path(*graph, node_map@, path_view(path));
    let nodes = match path {
        Some(p) => p,
        None => {
            return Err(RouteError::NoPathFound);
        },
    };
    assert(wanted == roads_along(*graph, node_map@, nodes@, nodes.len() - 1));
    let mut roads: Vec<RoadID> = Vec::new();
    let mut i: usize = 1;
    while i < nodes.len()
        invariant
            graph.wf(),
            1 <= i,
            nodes.len() == 0 ==> i == 1,
            nodes.len() > 0 ==> i <= nodes.len(),
            wanted == roads_of_path(*graph, node_map@, path_view(path)),
            wanted == roads_along(*graph, node_map@, nodes@, nodes.len() - 1),
            roads_along(*graph, node_map@, nodes@, i - 1) == Ok::<Seq<RoadID>, RouteError>(
                roads@,
            ),
        decreases nodes.len() - i,
    {
        if nodes[i - 1] >= node_map.len() || nodes[i] >= node_map.len() {
            proof {
                lemma_failure_stays(*graph, node_map@, nodes@, i as int, nodes.len() - 1);
            }
            return Err(RouteError::UnknownNode);
        }
        let i1 = node_map.translate_id(nodes[i - 1]);
        let i2 = node_map.translate_id(nodes[i]);
        match graph.find_cheapest_edge(i1, i2) {
            Some(road) => {
                proof {
                    let r = graph.cheapest_between(i1.0 as int, i2.0 as int)->0;
                    graph.lemma_cheapest_between(i1.0 as int, i2.0 as int);
                    assert(graph.road_ok(r));
                    assert(road.id == RoadID(r as usize));
                }
                roads.push(road.id);
            },
            None => {
                proof {
                    lemma_failure_stays(*graph, node_map@, nodes@, i as int, nodes.len() - 1);
                }
                return Err(RouteError::MissingRoad);
            },
        }
        i += 1;
    }
    Ok(roads)
}

/// The hierarchy of a road network, with the numbering of its intersections
/// and the scratch area of its queries.
pub struct Router {
    node_map: NodeMap,
    ch: FastGraph,
    path_calc: PathCalculator,
}

/// Where a walk joins two different intersections, the router has nodes
/// for both, and its hierarchy holds
/// them and a path between them.
proof fn lemma_route_exists(router: Router, g: Graph, start: IntersectionID, end: IntersectionID)
    requires
        g.wf(),
        router.serves(g.roads@),
        router.nodes().len() <= usize::MAX,
        start != end,
        connected(g, start.0 as int, end.0 as int),
    ensures
        node_of(router.nodes(), start) is Some,
        node_of(router.nodes(), end) is Some,
        node_of(router.nodes(), start).unwrap() < router.node_limit(),
        node_of(router.nodes(), end).unwrap() < router.node_limit(),
        exists|path: Seq<usize>| #[trigger]
            is_route(
                road_edges(g.roads@, g.roads.len() as int),
                node_of(router.nodes(), start).unwrap(),
                node_of(router.nodes(), end).unwrap(),
                path,
            ),
{
    let weights = road_edges(g.roads@, g.roads.len() as int);
    let s = node_of(router.nodes(), start).unwrap();
    let t = node_of(router.nodes(), end).unwrap();
    lemma_connected(g, start, end);
    let path = choose|path: Seq<usize>| #[trigger]
        is_route(weights, s, t, path) && path.len() >= 2;
    assert(is_step(weights, path, 0));
    assert(is_step(weights, path, path.len() - 2));
}

impl Router {
    /// The numbering is sound, and the scratch area was made for the
    /// hierarchy.
    pub closed spec fn wf(&self) -> bool {
        &&& self.node_map.wf()
        &&& calculator_nodes(self.path_calc) == hierarchy_nodes(self.ch)
    }

    /// The intersections that have a node, each at the position of its node.
    pub closed spec fn nodes(&self) -> Seq<IntersectionID> {
        self.node_map@
    }

    /// What the hierarchy holds.
    pub closed spec fn hierarchy(&self) -> Seq<usize> {
        hierarchy_data(self.ch)
    }

    /// The number of nodes of the hierarchy. A node that only roads without
    /// cost, or roads from an intersection to itself, lead to may lie beyond.
    pub closed spec fn node_limit(&self) -> usize {
        hierarchy_nodes(self.ch)
    }

    /// Every node of an edge of `weights` is a node of the hierarchy.
    pub open spec fn covers(&self, weights: Map<(usize, usize), usize>) -> bool {
        forall|from: usize, to: usize| #[trigger]
            weights.contains_key((from, to)) ==> from < self.node_limit() && to
                < self.node_limit()
    }

    /// The router was prepared from these roads.
    pub open spec fn serves(&self, roads: Seq<Road>) -> bool {
        &&& roads_fit(roads)
        &&& self.nodes() == numbered(roads, roads.len() as int)
        &&& self.hierarchy() == prepared(road_edges(roads, roads.len() as int))
        &&& self.covers(road_edges(roads, roads.len() as int))
    }

    /// What `route` returns: the roads along the path that the hierarchy
    /// gives between the nodes of `start` and `end`.
    pub open spec fn planned_route(&self, g: Graph, start: IntersectionID, end: IntersectionID) -> Result<
        Seq<RoadID>,
        RouteError,
    > {
        if start == end {
            Err(RouteError::IdenticalEndpoints)
        } else {
            match (node_of(self.nodes(), start), node_of(self.nodes(), end)) {
                (Some(s), Some(t)) => if s < self.node_limit() && t < self.node_limit() {
                    roads_of_path(g, self.nodes(), shortest_path(self.hierarchy(), s, t))
                } else {
                    Err(RouteError::NoPathFound)
                },
                _ => Err(RouteError::NoPathFound),
            }
        }
    }

    /// Prepares the hierarchy of the roads. Every road becomes an edge in
    /// both directions, weighted with its cost in milliseconds.
    pub fn new(roads: &Vec<Road>) -> (made: Result<Router, RouteError>)
        ensures
            match made {
                Ok(router) => router.wf() && router.serves(roads@),
                Err(e) => e == RouteError::TooHeavy && !roads_fit(roads@),
            },
    {
        let mut input_graph = InputGraph::new();
        let mut node_map = NodeMap::new();
        let mut total: Option<usize> = Some(0);
        let mut i: usize = 0;
        while i < roads.len()
            invariant
                i <= roads.len(),
                node_map.wf(),
                node_map@ == numbered(roads@, i as int),
                !input_frozen(input_graph),
                input_weights(input_graph) == road_edges(roads@, i as int),
                match total {
                    Some(sum) => sum == total_weight(roads@, i as int),
                    None => total_weight(roads@, i as int) > usize::MAX,
                },
                0 <= total_weight(roads@, i as int),
            decreases roads.len() - i,
        {
            let road = &roads[i];
            let cost = road.get_cost() as usize;
            proof {
                node_map.lemma_distinct();
            }
            let ghost nodes0 = node_map@;
            let node1 = node_map.get_or_insert(road.src_i);
            proof {
                node_map.lemma_distinct();
                node_map.lemma_len();
            }
            let ghost nodes1 = node_map@;
            let node2 = node_map.get_or_insert(road.dst_i);
            proof {
                node_map.lemma_len();
                assert(nodes1.contains(road.src_i)) by {
                    if nodes0.contains(road.src_i) {
                    } else {
                        assert(nodes1[nodes0.len() as int] == road.src_i);
                    }
                }
                lemma_node_stays(nodes1, road.src_i, road.dst_i);
                assert(node1 < usize::MAX && node2 < usize::MAX);
            }
            input_graph.add_edge(node1, node2, cost);
            input_graph.add_edge(node2, node1, cost);
            total = match total {
                Some(sum) => sum.checked_add(cost),
                None => None,
            };
            i += 1;
        }
        let fits = match total {
            Some(sum) => sum.checked_mul(4).is_some(),
            None => false,
        };
        if !fits {
            return Err(RouteError::TooHeavy);
        }
        proof {
            lemma_edges_fit(roads@, roads.len() as int);
        }
        input_graph.freeze();
        let ch = fast_paths::prepare(&input_graph);
        let path_calc = fast_paths::create_calculator(&ch);
        Ok(Router { node_map, ch, path_calc })
    }

    /// The roads to walk from `start` to `end`, in their order.
    ///
    /// A route from an intersection to itself is `IdenticalEndpoints`. Where
    /// one of the two has no node in the hierarchy, or the hierarchy finds no
    /// path, the answer is `NoPathFound`.
    ///
    /// With a router that was prepared from the roads of the graph, there is
    /// a route exactly between two different intersections that some walk
    /// joins. The roads returned can be walked from `start` and end at
    /// `end`, and no walk from `start` to `end` costs less; between two
    /// intersections of the path, the cheapest road that joins them is
    /// taken, and no intersection is passed twice. No other failure occurs
    /// than the two named.
    pub fn route(&mut self, graph: &Graph, start: IntersectionID, end: IntersectionID) -> (result:
        Result<Vec<RoadID>, RouteError>)
        requires
            old(self).wf(),
            graph.wf(),
        ensures
            final(self).wf(),
            final(self).nodes() == old(self).nodes(),
            final(self).hierarchy() == old(self).hierarchy(),
            final(self).node_limit() == old(self).node_limit(),
            same_route(result, old(self).planned_route(*graph, start, end)),
            start == end ==> result == Err::<Vec<RoadID>, RouteError>(
                RouteError::IdenticalEndpoints,
            ),
            old(self).serves(graph.roads@) ==> match result {
                Ok(roads) => graph.walk_reaches(
                    start.0 as int,
                    road_numbers(roads@),
                    end.0 as int,
                ),
                Err(e) => e == RouteError::IdenticalEndpoints || e == RouteError::NoPathFound,
            },
            old(self).serves(graph.roads@) && start != end && !connected(
                *graph,
                start.0 as int,
                end.0 as int,
            ) ==> result == Err::<Vec<RoadID>, RouteError>(RouteError::NoPathFound),
            old(self).serves(graph.roads@) ==> (result is Ok <==> start != end && connected(
                *graph,
                start.0 as int,
                end.0 as int,
            )),
            old(self).serves(graph.roads@) ==> (result matches Ok(roads) ==> cheapest_walk(
                *graph,
                start.0 as int,
                end.0 as int,
                road_numbers(roads@),
            )),
            old(self).serves(graph.roads@) ==> (result matches Ok(roads) ==> roads.len() >= 1
                && passes_once(*graph, start.0 as int, road_numbers(roads@))),
    {
        if start == end {
            return Err(RouteError::IdenticalEndpoints);
        }
        let found = self.node_map.get(start);
        proof {
            self.node_map.lemma_len();
            if old(self).serves(graph.roads@) && connected(
                *graph,
                start.0 as int,
                end.0 as int,
            ) {
                lemma_route_exists(*self, *graph, start, end);
            }
        }
        let s = match found {
            Some(node) => node,
            None => {
                return Err(RouteError::NoPathFound);
            },
        };
        let t = match self.node_map.get(end) {
            Some(node) => node,
            None => {
                return Err(RouteError::NoPathFound);
            },
        };
        let limit = self.ch.get_num_nodes();
        if s >= limit || t >= limit {
            return Err(RouteError::NoPathFound);
        }
        let path = calc_path(&mut self.path_calc, &self.ch, s, t);
        proof {
            if old(self).serves(graph.roads@) {
                let n = graph.roads.len() as int;
                let nodes = numbered(graph.roads@, n);
                lemma_edges_fit(graph.roads@, n);
                assert(is_shortest(road_edges(graph.roads@, n), s, t, path_view(path)));
                assert(nodes[s as int] == start);
                assert(nodes[t as int] == end);
                if path is Some {
                    let p = path->0@;
                    assert(is_route(road_edges(graph.roads@, n), s, t, p));
                    lemma_route_is_walk(*graph, p, p.len() - 1);
                    lemma_cheapest(*graph, s, t, p);
                    lemma_cheapest_passes_once(
                        *graph,
                        start.0 as int,
                        end.0 as int,
                        road_numbers(roads_along(*graph, nodes, p, p.len() - 1).unwrap()),
                    );
                }
            }
        }
        path_to_roads(graph, &self.node_map, path)
    }
}

} // verus!
