//! The numbering of intersections that the hierarchy of the router needs.

use vstd::prelude::*;
use crate::ids::IntersectionID;

verus! {

/// The node that stands for intersection `id`, if one does.
pub open spec fn node_of(nodes: Seq<IntersectionID>, id: IntersectionID) -> Option<usize> {
    if nodes.contains(id) {
        Some(choose|k: usize| k < nodes.len() && nodes[k as int] == id)
    } else {
        None
    }
}

/// The nodes after intersection `id` was given one, if it had none.
pub open spec fn with_node(nodes: Seq<IntersectionID>, id: IntersectionID) -> Seq<IntersectionID> {
    if nodes.contains(id) {
        nodes
    } else {
        nodes.push(id)
    }
}

/// Numbers intersections in the order in which they are first asked for:
/// node `k` stands for the intersection at position `k`.
pub struct NodeMap {
    ids: Vec<IntersectionID>,
    nodes: Vec<Option<usize>>,
}

impl View for NodeMap {
    type V = Seq<IntersectionID>;

    closed spec fn view(&self) -> Seq<IntersectionID> {
        self.ids@
    }
}

impl NodeMap {
    /// The two tables agree: each says of an intersection and its node what
    /// the other says.
    pub closed spec fn wf(&self) -> bool {
        &&& forall|k: int|
            0 <= k < self.ids.len() ==> (#[trigger] self.ids[k]).0 < self.nodes.len()
                && self.nodes[self.ids[k].0 as int] == Some(k as usize)
        &&& forall|i: int|
            0 <= i < self.nodes.len() ==> match #[trigger] self.nodes[i] {
                Some(k) => k < self.ids.len() && self.ids[k as int].0 == i,
                None => true,
            }
    }

    /// No intersection has two nodes.
    pub proof fn lemma_distinct(&self)
        requires
            self.wf(),
        ensures
            self@.no_duplicates(),
    {
        assert forall|i: int, j: int|
            0 <= i < self.ids.len() && 0 <= j < self.ids.len() && i != j implies self.ids[i]
            != self.ids[j] by {
            assert(self.nodes[self.ids[i].0 as int] == Some(i as usize));
            assert(self.nodes[self.ids[j].0 as int] == Some(j as usize));
        }
    }

    /// The nodes can be counted.
    pub proof fn lemma_len(&self)
        ensures
            self@.len() <= usize::MAX,
    {
        assert(self.ids.len() == self.ids@.len());
    }

    /// A map without nodes.
    pub fn new() -> (map: NodeMap)
        ensures
            map.wf(),
            map@ == Seq::<IntersectionID>::empty(),
    {
        NodeMap { ids: Vec::new(), nodes: Vec::new() }
    }

    /// The number of nodes.
    pub fn len(&self) -> (n: usize)
        ensures
            n == self@.len(),
    {
        self.ids.len()
    }

    /// The node of intersection `id`, if it has one.
    pub fn get(&self, id: IntersectionID) -> (node: Option<usize>)
        requires
            self.wf(),
        ensures
            node == node_of(self@, id),
    {
        proof {
            self.lemma_distinct();
        }
        if id.0 < self.nodes.len() {
            match self.nodes[id.0] {
                Some(k) => {
                    assert(self@[k as int] == id);
                    Some(k)
                },
                None => {
                    assert forall|k: int| 0 <= k < self.ids.len() implies self.ids[k] != id by {
                        assert(self.nodes[self.ids[k].0 as int] == Some(k as usize));
                    }
                    None
                },
            }
        } else {
            assert forall|k: int| 0 <= k < self.ids.len() implies self.ids[k] != id by {
                assert(self.ids[k].0 < self.nodes.len());
            }
            None
        }
    }

    /// The node of intersection `id`; one is made where it has none.
    pub fn get_or_insert(&mut self, id: IntersectionID) -> (node: usize)
        requires
            old(self).wf(),
        ensures
            final(self).wf(),
            final(self)@ == with_node(old(self)@, id),
            Some(node) == node_of(final(self)@, id),
            node < final(self)@.len(),
    {
        match self.get(id) {
            Some(k) => k,
            None => {
                while self.nodes.len() <= id.0
                    invariant
                        self.wf(),
                        self@ == old(self)@,
                    decreases id.0 + 1 - self.nodes.len(),
                {
                    self.nodes.push(None);
                }
                let k = self.ids.len();
                self.nodes[id.0] = Some(k);
                self.ids.push(id);
                proof {
                    assert(self@[k as int] == id);
                    self.lemma_distinct();
                }
                k
            },
        }
    }

    /// The intersection that `node` stands for.
    pub fn translate_id(&self, node: usize) -> (id: IntersectionID)
        requires
            node < self@.len(),
        ensures
            id == self@[node as int],
    {
        self.ids[node]
    }
}

/// A node keeps its number when another intersection is given a node.
pub proof fn lemma_node_stays(nodes: Seq<IntersectionID>, id: IntersectionID, other: IntersectionID)
    requires
        nodes.no_duplicates(),
        nodes.contains(id),
        nodes.len() <= usize::MAX,
    ensures
        with_node(nodes, other).no_duplicates(),
        node_of(with_node(nodes, other), id) == node_of(nodes, id),
        node_of(nodes, id) is Some,
        node_of(nodes, id)->0 < nodes.len(),
{
    let more = with_node(nodes, other);
    let k0 = choose|k: int| 0 <= k < nodes.len() && nodes[k] == id;
    let n0 = k0 as usize;
    assert(n0 < nodes.len() && nodes[n0 as int] == id);
    assert(more[k0] == id);
    assert(more.contains(id));
    assert(n0 < more.len() && more[n0 as int] == id);
}

/// The node of the intersection at position `k` is `k`.
pub proof fn lemma_node_of(nodes: Seq<IntersectionID>, k: int)
    requires
        nodes.no_duplicates(),
        0 <= k < nodes.len() <= usize::MAX,
    ensures
        node_of(nodes, nodes[k]) == Some(k as usize),
{
    let n = k as usize;
    assert(n < nodes.len() && nodes[n as int] == nodes[k]);
    assert(nodes.contains(nodes[k]));
}

} // verus!
