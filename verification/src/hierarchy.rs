//! What this crate takes on trust from `fast_paths`, the contraction
//! hierarchy behind the router.
//!
//! Nothing in this file is proved. Each item says what it claims of
//! `fast_paths`, so that the claim can be held against that crate's source.

use vstd::prelude::*;
use fast_paths::{FastGraph, InputGraph, PathCalculator};

verus! {

/// `fast_paths::InputGraph`: the edges from which a hierarchy is prepared.
#[verifier::external_type_specification]
#[verifier::external_body]
pub struct ExInputGraph(InputGraph);

/// `fast_paths::FastGraph`: a prepared hierarchy.
#[verifier::external_type_specification]
#[verifier::external_body]
pub struct ExFastGraph(FastGraph);

/// `fast_paths::PathCalculator`: the scratch area of a path query.
#[verifier::external_type_specification]
#[verifier::external_body]
pub struct ExPathCalculator(PathCalculator);

/// What an input graph holds: for each pair of nodes that it joins, the
/// weight of the lightest edge from the first to the second.
pub uninterp spec fn input_weights(g: InputGraph) -> Map<(usize, usize), usize>;

/// Whether an input graph has been frozen.
pub uninterp spec fn input_frozen(g: InputGraph) -> bool;

/// What a hierarchy holds, as the sequence of its numbers: the count of its
/// nodes, their ranks, and the arcs, shortcuts among them, in their order.
pub uninterp spec fn hierarchy_data(ch: FastGraph) -> Seq<usize>;

/// The number of nodes of a hierarchy.
pub uninterp spec fn hierarchy_nodes(ch: FastGraph) -> usize;

/// The number of nodes that a path calculator was made for.
pub uninterp spec fn calculator_nodes(calc: PathCalculator) -> usize;

/// What the hierarchy holds that `fast_paths::prepare` makes of these weights.
pub uninterp spec fn prepared(weights: Map<(usize, usize), usize>) -> Seq<usize>;

/// The nodes of the path that `PathCalculator::calc_path` finds from `source`
/// to `target` in the hierarchy that holds `data`, or `None` where it finds
/// no path.
pub uninterp spec fn shortest_path(data: Seq<usize>, source: usize, target: usize) -> Option<
    Seq<usize>,
>;

/// The weights after an edge was offered: an edge from a node to itself, or
/// of weight zero, is not taken; of two edges that join the same nodes in the
/// same direction, the lighter one counts.
pub open spec fn with_edge(
    weights: Map<(usize, usize), usize>,
    from: usize,
    to: usize,
    weight: usize,
) -> Map<(usize, usize), usize> {
    if from == to || weight < 1 {
        weights
    } else if weights.contains_key((from, to)) && weights[(from, to)] <= weight {
        weights
    } else {
        weights.insert((from, to), weight)
    }
}

/// The sum of the weights of `edges`.
pub open spec fn edges_weight(weights: Map<(usize, usize), usize>, edges: Seq<(usize, usize)>) -> int
    decreases edges.len(),
{
    if edges.len() == 0 {
        0
    } else {
        edges_weight(weights, edges.drop_last()) + weights[edges.last()]
    }
}

/// `edges` are edges of `weights`, none of them twice.
pub open spec fn distinct_edges(weights: Map<(usize, usize), usize>, edges: Seq<(usize, usize)>) -> bool {
    &&& edges.no_duplicates()
    &&& forall|i: int| 0 <= i < edges.len() ==> weights.contains_key(#[trigger] edges[i])
}

/// No edges of the graph, each taken once, weigh more than `bound`
/// together; so no path that takes no edge twice does.
pub open spec fn weights_fit(weights: Map<(usize, usize), usize>, bound: int) -> bool {
    forall|edges: Seq<(usize, usize)>| #[trigger]
        distinct_edges(weights, edges) ==> edges_weight(weights, edges) <= bound
}

/// Step `k` of `path` goes along an edge of `weights`.
pub open spec fn is_step(weights: Map<(usize, usize), usize>, path: Seq<usize>, k: int) -> bool {
    weights.contains_key((path[k], path[k + 1]))
}

/// `path` leads from `source` to `target` along edges of `weights`.
pub open spec fn is_route(
    weights: Map<(usize, usize), usize>,
    source: usize,
    target: usize,
    path: Seq<usize>,
) -> bool {
    &&& path.len() >= 1
    &&& path[0] == source
    &&& path[path.len() - 1] == target
    &&& forall|k: int| 0 <= k < path.len() - 1 ==> #[trigger] is_step(weights, path, k)
}

/// The sum of the weights along `path`.
pub open spec fn route_weight(weights: Map<(usize, usize), usize>, path: Seq<usize>) -> int
    decreases path.len(),
{
    if path.len() <= 1 {
        0
    } else {
        route_weight(weights, path.drop_last()) + weights[(
            path[path.len() - 2],
            path[path.len() - 1],
        )]
    }
}

/// `path` is a lightest path from `source` to `target` along edges of
/// `weights`; or it is `None`, and no path leads from `source` to `target`.
pub open spec fn is_shortest(
    weights: Map<(usize, usize), usize>,
    source: usize,
    target: usize,
    path: Option<Seq<usize>>,
) -> bool {
    match path {
        Some(p) => {
            &&& is_route(weights, source, target, p)
            &&& forall|q: Seq<usize>| #[trigger]
                is_route(weights, source, target, q) ==> route_weight(weights, p) <= route_weight(
                    weights,
                    q,
                )
        },
        None => forall|q: Seq<usize>| !#[trigger] is_route(weights, source, target, q),
    }
}

/// `InputGraph::new` makes a graph without edges that is not frozen.
pub assume_specification[ InputGraph::new ]() -> (g: InputGraph)
    ensures
        input_weights(g) == (Map::<(usize, usize), usize>::empty()),
        !input_frozen(g),
;

/// `InputGraph::add_edge` panics on a frozen graph, and adds one to the
/// greater of the two nodes. It skips an edge from a node to itself and an
/// edge of weight zero, and pushes any other; of edges pushed for the same
/// pair of nodes, freezing keeps the lightest. It returns the number of
/// edges that it pushed.
pub assume_specification[ InputGraph::add_edge ](
    g: &mut InputGraph,
    from: usize,
    to: usize,
    weight: usize,
) -> (added: usize)
    requires
        !input_frozen(*old(g)),
        from < usize::MAX,
        to < usize::MAX,
    ensures
        input_weights(*final(g)) == with_edge(input_weights(*old(g)), from, to, weight),
        !input_frozen(*final(g)),
        added == if from == to || weight < 1 {
            0usize
        } else {
            1usize
        },
;

/// `InputGraph::freeze` panics on a frozen graph. It sorts the edges and, of
/// edges that join the same nodes in the same direction, keeps the lightest:
/// the lightest weight of each pair stays what it was.
pub assume_specification[ InputGraph::freeze ](g: &mut InputGraph)
    requires
        !input_frozen(*old(g)),
    ensures
        input_weights(*final(g)) == input_weights(*old(g)),
        input_frozen(*final(g)),
;

/// `fast_paths::prepare` panics on a graph that is not frozen, and adds
/// weights along paths without a check for overflow: what it adds are the
/// weights of two paths that take no edge twice. From the same frozen
/// edges it builds the same hierarchy, with one node more than the greatest
/// node of an edge, and none for a graph without edges.
pub assume_specification[ fast_paths::prepare ](g: &InputGraph) -> (ch: FastGraph)
    requires
        input_frozen(*g),
        exists|bound: int| weights_fit(input_weights(*g), bound) && 2 * bound <= usize::MAX,
    ensures
        hierarchy_data(ch) == prepared(input_weights(*g)),
        forall|from: usize, to: usize| #[trigger]
            input_weights(*g).contains_key((from, to)) ==> from < hierarchy_nodes(ch) && to
                < hierarchy_nodes(ch),
;

/// `FastGraph::get_num_nodes` returns the number of nodes.
pub assume_specification[ FastGraph::get_num_nodes ](ch: &FastGraph) -> (nodes: usize)
    ensures
        nodes == hierarchy_nodes(*ch),
;

/// `fast_paths::create_calculator` makes a calculator for as many nodes as
/// the hierarchy has.
pub assume_specification[ fast_paths::create_calculator ](ch: &FastGraph) -> (calc: PathCalculator)
    ensures
        calculator_nodes(calc) == hierarchy_nodes(*ch),
;

/// `PathCalculator::calc_path` panics where the calculator was made for
/// another number of nodes than the hierarchy has, and where `source` or
/// `target` is no node of the hierarchy. It clears its scratch area before it
/// searches, so the path depends on the hierarchy and the two nodes alone.
/// It is documented to calculate the shortest path from `source` to
/// `target`: whatever weights the hierarchy was prepared from without
/// overflow, the path is a lightest one along their edges, and there is none
/// where none is found.
#[verifier::external_body]
pub(crate) fn calc_path(calc: &mut PathCalculator, ch: &FastGraph, source: usize, target: usize) -> (path:
    Option<Vec<usize>>)
    requires
        calculator_nodes(*old(calc)) == hierarchy_nodes(*ch),
        source < hierarchy_nodes(*ch),
        target < hierarchy_nodes(*ch),
    ensures
        calculator_nodes(*final(calc)) == calculator_nodes(*old(calc)),
        match path {
            Some(nodes) => shortest_path(hierarchy_data(*ch), source, target) == Some(nodes@),
            None => shortest_path(hierarchy_data(*ch), source, target) is None,
        },
        (forall|weights: Map<(usize, usize), usize>, bound: int|
            hierarchy_data(*ch) == #[trigger] prepared(weights) && #[trigger] weights_fit(
                weights,
                bound,
            ) && 2 * bound <= usize::MAX ==> is_shortest(
                weights,
                source,
                target,
                match path {
                    Some(found) => Some(found@),
                    None => None,
                },
            )),
{
    match calc.calc_path(ch, source, target) {
        Some(found) => Some(found.get_nodes().clone()),
        None => None,
    }
}

} // verus!
