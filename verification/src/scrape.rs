//! Assembling a graph from the records of a street network.
//!
//! The records are what a reader of map data leaves behind once it has cut
//! the walkable ways at their junctions: the junctions, the edges between
//! them with their lengths, the amenities, and for each amenity the road that
//! lies nearest to it.

use vstd::prelude::*;
use crate::amenity::Amenity;
use crate::graph::{Graph, Intersection, Road};
use crate::ids::{AmenityID, IntersectionID, RoadID};

verus! {

/// One stretch of way between two junctions.
pub struct Edge {
    pub id: usize,
    pub src: usize,
    pub dst: usize,
    /// Length of the edge's geometry, in millimetres.
    pub length_mm: u32,
}

/// A point where ways meet or end.
pub struct Junction {
    pub id: usize,
    /// The edges that start or end here.
    pub edges: Vec<usize>,
}

/// Why a set of records is no street network.
#[derive(Clone, Copy, Debug, PartialEq, Eq, Structural)]
pub enum GraphError {
    /// An edge is out of place, or one of its ends is no junction that lists it.
    BrokenRoad,
    /// A junction is out of place, or lists what is no edge ending there.
    BrokenIntersection,
    /// An amenity is out of place.
    BrokenAmenity,
    /// The nearest roads are not one per amenity, or one of them is no road.
    BrokenSnap,
}

impl GraphError {
    /// The words for the fault.
    pub open spec fn text(&self) -> Seq<char> {
        match self {
            GraphError::BrokenRoad => "a road does not join two intersections that list it"@,
            GraphError::BrokenIntersection => "an intersection lists what is no road of its own"@,
            GraphError::BrokenAmenity => "an amenity is out of place"@,
            GraphError::BrokenSnap => "the nearest roads do not fit the amenities"@,
        }
    }

    /// Says in words what is wrong.
    pub fn describe(&self) -> (words: String)
        ensures
            words@ == self.text(),
    {
        match self {
            GraphError::BrokenRoad => "a road does not join two intersections that list it".to_owned(),
            GraphError::BrokenIntersection => "an intersection lists what is no road of its own".to_owned(),
            GraphError::BrokenAmenity => "an amenity is out of place".to_owned(),
            GraphError::BrokenSnap => "the nearest roads do not fit the amenities".to_owned(),
        }
    }
}

/// Junction `junction` lists edge `e`.
pub open spec fn lists(junction: Junction, e: int) -> bool {
    exists|k: int| 0 <= k < junction.edges.len() && #[trigger] junction.edges[k] == e
}

/// Edge `e` is at the position that its identifier names, and both of its
/// ends are junctions that list it.
pub open spec fn edge_ok(junctions: Seq<Junction>, edges: Seq<Edge>, e: int) -> bool {
    &&& edges[e].id == e
    &&& edges[e].src < junctions.len()
    &&& lists(junctions[edges[e].src as int], e)
    &&& edges[e].dst < junctions.len()
    &&& lists(junctions[edges[e].dst as int], e)
}

/// Junction `i` is at the position that its identifier names, and lists only
/// edges that start or end at it.
pub open spec fn junction_ok(junctions: Seq<Junction>, edges: Seq<Edge>, i: int) -> bool {
    &&& junctions[i].id == i
    &&& forall|k: int|
        0 <= k < junctions[i].edges.len() ==> {
            let e = #[trigger] junctions[i].edges[k];
            &&& e < edges.len()
            &&& (edges[e as int].src == i || edges[e as int].dst == i)
        }
}

/// There is one nearest road, or none, for each amenity, and each is a road.
pub open spec fn snap_ok(nearest: Seq<Option<RoadID>>, amenities: int, roads: int) -> bool {
    &&& nearest.len() == amenities
    &&& forall|a: int|
        0 <= a < nearest.len() ==> match #[trigger] nearest[a] {
            Some(r) => r.0 < roads,
            None => true,
        }
}

/// What is wrong with the records, if anything is: the first of the faults, in
/// the order of `GraphError`.
pub open spec fn fault_of(
    junctions: Seq<Junction>,
    edges: Seq<Edge>,
    amenities: Seq<Amenity>,
    nearest: Seq<Option<RoadID>>,
) -> Option<GraphError> {
    if !(forall|e: int| 0 <= e < edges.len() ==> #[trigger] edge_ok(junctions, edges, e)) {
        Some(GraphError::BrokenRoad)
    } else if !(forall|i: int|
        0 <= i < junctions.len() ==> #[trigger] junction_ok(junctions, edges, i)) {
        Some(GraphError::BrokenIntersection)
    } else if !(forall|a: int| 0 <= a < amenities.len() ==> (#[trigger] amenities[a]).id.0 == a) {
        Some(GraphError::BrokenAmenity)
    } else if !snap_ok(nearest, amenities.len() as int, edges.len() as int) {
        Some(GraphError::BrokenSnap)
    } else {
        None
    }
}

/// The amenities, of the first `upto`, whose nearest road is `r`, in their
/// order.
pub open spec fn snapped_to(
    amenities: Seq<Amenity>,
    nearest: Seq<Option<RoadID>>,
    r: int,
    upto: int,
) -> Seq<AmenityID>
    decreases upto,
{
    if upto <= 0 {
        Seq::empty()
    } else {
        let earlier = snapped_to(amenities, nearest, r, upto - 1);
        if nearest[upto - 1] == Some(RoadID(r as usize)) {
            earlier.push(amenities[upto - 1].id)
        } else {
            earlier
        }
    }
}

/// Every amenity snapped to `r` has `r` for its nearest road, and they stand
/// in the order of their positions.
proof fn lemma_snapped_to(
    amenities: Seq<Amenity>,
    nearest: Seq<Option<RoadID>>,
    r: int,
    upto: int,
)
    requires
        0 <= upto <= amenities.len(),
        amenities.len() == nearest.len(),
        0 <= r <= usize::MAX,
        forall|a: int| 0 <= a < amenities.len() ==> (#[trigger] amenities[a]).id.0 == a,
    ensures
        forall|j: int|
            0 <= j < snapped_to(amenities, nearest, r, upto).len() ==> {
                let a = (#[trigger] snapped_to(amenities, nearest, r, upto)[j]).0 as int;
                a < upto && nearest[a] == Some(RoadID(r as usize))
            },
        forall|j1: int, j2: int|
            0 <= j1 < j2 < snapped_to(amenities, nearest, r, upto).len() ==> (
            #[trigger] snapped_to(amenities, nearest, r, upto)[j1]).0 < (#[trigger] snapped_to(
                amenities,
                nearest,
                r,
                upto,
            )[j2]).0,
    decreases upto,
{
    if upto > 0 {
        lemma_snapped_to(amenities, nearest, r, upto - 1);
    }
}

/// Appends each amenity to the list of the road nearest to it. An amenity
/// without a nearest road is snapped to none, and so stays out of reach.
pub fn snap_amenities(
    roads: &mut Vec<Road>,
    amenities: &Vec<Amenity>,
    nearest: &Vec<Option<RoadID>>,
)
    requires
        snap_ok(nearest@, amenities.len() as int, old(roads).len() as int),
    ensures
        final(roads).len() == old(roads).len(),
        forall|r: int|
            0 <= r < old(roads).len() ==> {
                &&& (#[trigger] final(roads)[r]).id == old(roads)[r].id
                &&& final(roads)[r].src_i == old(roads)[r].src_i
                &&& final(roads)[r].dst_i == old(roads)[r].dst_i
                &&& final(roads)[r].length_mm == old(roads)[r].length_mm
                &&& final(roads)[r].amenities@ == old(roads)[r].amenities@ + snapped_to(
                    amenities@,
                    nearest@,
                    r,
                    amenities.len() as int,
                )
            },
{
    let mut a: usize = 0;
    while a < amenities.len()
        invariant
            a <= amenities.len(),
            snap_ok(nearest@, amenities.len() as int, roads.len() as int),
            roads.len() == old(roads).len(),
            forall|r: int|
                0 <= r < roads.len() ==> {
                    &&& (#[trigger] roads[r]).id == old(roads)[r].id
                    &&& roads[r].src_i == old(roads)[r].src_i
                    &&& roads[r].dst_i == old(roads)[r].dst_i
                    &&& roads[r].length_mm == old(roads)[r].length_mm
                    &&& roads[r].amenities@ == old(roads)[r].amenities@ + snapped_to(
                        amenities@,
                        nearest@,
                        r,
                        a as int,
                    )
                },
        decreases amenities.len() - a,
    {
        let ghost before = roads@;
        match nearest[a] {
            Some(r) => {
                roads[r.0].amenities.push(amenities[a].id);
            },
            None => {},
        }
        proof {
            assert forall|r: int| 0 <= r < roads.len() implies {
                &&& (#[trigger] roads[r]).id == old(roads)[r].id
                &&& roads[r].src_i == old(roads)[r].src_i
                &&& roads[r].dst_i == old(roads)[r].dst_i
                &&& roads[r].length_mm == old(roads)[r].length_mm
                &&& roads[r].amenities@ == old(roads)[r].amenities@ + snapped_to(
                    amenities@,
                    nearest@,
                    r,
                    a + 1,
                )
            } by {
                assert(before[r].id == old(roads)[r].id);
                assert(roads[r].amenities@ =~= old(roads)[r].amenities@ + snapped_to(
                    amenities@,
                    nearest@,
                    r,
                    a + 1,
                ));
            }
        }
        a += 1;
    }
}

/// `g` is the graph that the records describe: an intersection for each
/// junction, a road for each edge, and each amenity on the road nearest to it.
pub open spec fn built_from(
    g: Graph,
    junctions: Seq<Junction>,
    edges: Seq<Edge>,
    amenities: Seq<Amenity>,
    nearest: Seq<Option<RoadID>>,
) -> bool {
    &&& g.amenities@ == amenities
    &&& g.intersections.len() == junctions.len()
    &&& forall|i: int|
        0 <= i < junctions.len() ==> {
            &&& (#[trigger] g.intersections[i]).id.0 == junctions[i].id
            &&& g.intersections[i].roads.len() == junctions[i].edges.len()
            &&& forall|k: int|
                0 <= k < junctions[i].edges.len() ==> (#[trigger] g.intersections[i].roads[k]).0
                    == junctions[i].edges[k]
        }
    &&& g.roads.len() == edges.len()
    &&& forall|r: int|
        0 <= r < edges.len() ==> {
            &&& (#[trigger] g.roads[r]).id.0 == edges[r].id
            &&& g.roads[r].src_i.0 == edges[r].src
            &&& g.roads[r].dst_i.0 == edges[r].dst
            &&& g.roads[r].length_mm == edges[r].length_mm
            &&& g.roads[r].amenities@ == snapped_to(amenities, nearest, r, amenities.len() as int)
        }
}

/// The records leave no choice: two graphs built from the same records have
/// the same intersections, the same roads with the same amenities on them,
/// and the same amenities.
pub proof fn lemma_one_graph(
    g1: Graph,
    g2: Graph,
    junctions: Seq<Junction>,
    edges: Seq<Edge>,
    amenities: Seq<Amenity>,
    nearest: Seq<Option<RoadID>>,
)
    requires
        built_from(g1, junctions, edges, amenities, nearest),
        built_from(g2, junctions, edges, amenities, nearest),
    ensures
        g1.amenities@ == g2.amenities@,
        g1.intersections.len() == g2.intersections.len(),
        forall|i: int|
            0 <= i < g1.intersections.len() ==> (#[trigger] g1.intersections[i]).id
                == g2.intersections[i].id && g1.intersections[i].roads@
                == g2.intersections[i].roads@,
        g1.roads.len() == g2.roads.len(),
        forall|r: int|
            0 <= r < g1.roads.len() ==> {
                &&& (#[trigger] g1.roads[r]).id == g2.roads[r].id
                &&& g1.roads[r].src_i == g2.roads[r].src_i
                &&& g1.roads[r].dst_i == g2.roads[r].dst_i
                &&& g1.roads[r].length_mm == g2.roads[r].length_mm
                &&& g1.roads[r].amenities@ == g2.roads[r].amenities@
            },
{
    assert forall|i: int| 0 <= i < g1.intersections.len() implies (
    #[trigger] g1.intersections[i]).id == g2.intersections[i].id && g1.intersections[i].roads@
        == g2.intersections[i].roads@ by {
        assert forall|k: int| 0 <= k < junctions[i].edges.len() implies g1.intersections[i].roads[k]
            == g2.intersections[i].roads[k] by {
            assert(g1.intersections[i].roads[k].0 == junctions[i].edges[k]);
            assert(g2.intersections[i].roads[k].0 == junctions[i].edges[k]);
        }
        assert(g1.intersections[i].roads@ =~= g2.intersections[i].roads@);
    }
}

/// The graph built from records without fault is an assembled graph.
pub proof fn lemma_built_wf(
    g: Graph,
    junctions: Seq<Junction>,
    edges: Seq<Edge>,
    amenities: Seq<Amenity>,
    nearest: Seq<Option<RoadID>>,
)
    requires
        built_from(g, junctions, edges, amenities, nearest),
        fault_of(junctions, edges, amenities, nearest) is None,
    ensures
        g.wf(),
{
    assert forall|r: int| 0 <= r < g.roads.len() implies #[trigger] g.road_ok(r) by {
        assert(edge_ok(junctions, edges, r));
        let src = edges[r].src as int;
        let dst = edges[r].dst as int;
        let k1 = choose|k: int| 0 <= k < junctions[src].edges.len() && #[trigger] junctions[src].edges[k] == r;
        assert(g.intersections[src].roads[k1].0 == r);
        let k2 = choose|k: int| 0 <= k < junctions[dst].edges.len() && #[trigger] junctions[dst].edges[k] == r;
        assert(g.intersections[dst].roads[k2].0 == r);
        lemma_snapped_to(amenities, nearest, r, amenities.len() as int);
    }
    assert forall|i: int| 0 <= i < g.intersections.len() implies #[trigger] g.intersection_ok(
        i,
    ) by {
        assert(junction_ok(junctions, edges, i));
        assert forall|k: int| 0 <= k < g.intersections[i].roads.len() implies {
            let r = (#[trigger] g.intersections[i].roads[k]).0 as int;
            &&& r < g.roads.len()
            &&& (g.roads[r].src_i.0 == i || g.roads[r].dst_i.0 == i)
        } by {
            let e = junctions[i].edges[k];
            assert(e < edges.len());
        }
    }
    assert forall|r1: int, j1: int, r2: int, j2: int|
        0 <= r1 < g.roads.len() && 0 <= j1 < g.roads[r1].amenities.len() && 0 <= r2
            < g.roads.len() && 0 <= j2 < g.roads[r2].amenities.len() && (
        #[trigger] g.roads[r1].amenities[j1]) == (#[trigger] g.roads[r2].amenities[j2]) implies r1
        == r2 && j1 == j2 by {
        lemma_snapped_to(amenities, nearest, r1, amenities.len() as int);
        lemma_snapped_to(amenities, nearest, r2, amenities.len() as int);
        let s1 = snapped_to(amenities, nearest, r1, amenities.len() as int);
        let s2 = snapped_to(amenities, nearest, r2, amenities.len() as int);
        assert(g.roads[r1].amenities[j1] == s1[j1]);
        assert(g.roads[r2].amenities[j2] == s2[j2]);
        let a = s1[j1].0 as int;
        assert(nearest[a] == Some(RoadID(r1 as usize)));
        assert(nearest[a] == Some(RoadID(r2 as usize)));
        if j1 < j2 {
            assert(s1[j1].0 < s1[j2].0);
        } else if j2 < j1 {
            assert(s1[j2].0 < s1[j1].0);
        }
    }
}

/// Tells whether the junction lists edge `e`.
fn junction_lists(junction: &Junction, e: usize) -> (found: bool)
    ensures
        found == lists(*junction, e as int),
{
    let mut k: usize = 0;
    while k < junction.edges.len()
        invariant
            k <= junction.edges.len(),
            forall|i: int| 0 <= i < k ==> #[trigger] junction.edges[i] != e,
        decreases junction.edges.len() - k,
    {
        if junction.edges[k] == e {
            return true;
        }
        k += 1;
    }
    false
}

/// Tells whether edge `e` is in place between junctions that list it.
fn check_edge(junctions: &Vec<Junction>, edges: &Vec<Edge>, e: usize) -> (ok: bool)
    requires
        e < edges.len(),
    ensures
        ok == edge_ok(junctions@, edges@, e as int),
{
    let edge = &edges[e];
    edge.id == e && edge.src < junctions.len() && junction_lists(&junctions[edge.src], e)
        && edge.dst < junctions.len() && junction_lists(&junctions[edge.dst], e)
}

/// Tells whether junction `i` is in place and lists only edges of its own.
fn check_junction(junctions: &Vec<Junction>, edges: &Vec<Edge>, i: usize) -> (ok: bool)
    requires
        i < junctions.len(),
    ensures
        ok == junction_ok(junctions@, edges@, i as int),
{
    let junction = &junctions[i];
    if junction.id != i {
        return false;
    }
    let mut k: usize = 0;
    while k < junction.edges.len()
        invariant
            k <= junction.edges.len(),
            junction == &junctions[i as int],
            forall|j: int|
                0 <= j < k ==> {
                    let e = #[trigger] junction.edges[j];
                    &&& e < edges.len()
                    &&& (edges[e as int].src == i || edges[e as int].dst == i)
                },
        decreases junction.edges.len() - k,
    {
        let e = junction.edges[k];
        if e >= edges.len() {
            return false;
        }
        if edges[e].src != i && edges[e].dst != i {
            return false;
        }
        k += 1;
    }
    true
}

/// Tells whether the nearest roads fit so many amenities and roads.
fn check_snap(nearest: &Vec<Option<RoadID>>, amenities: usize, roads: usize) -> (ok: bool)
    ensures
        ok == snap_ok(nearest@, amenities as int, roads as int),
{
    if nearest.len() != amenities {
        return false;
    }
    let mut a: usize = 0;
    while a < nearest.len()
        invariant
            a <= nearest.len(),
            forall|i: int|
                0 <= i < a ==> match #[trigger] nearest[i] {
                    Some(r) => r.0 < roads,
                    None => true,
                },
        decreases nearest.len() - a,
    {
        match nearest[a] {
            Some(r) => {
                if r.0 >= roads {
                    return false;
                }
            },
            None => {},
        }
        a += 1;
    }
    true
}

/// Finds what is wrong with the records, if anything is.
pub fn find_fault(
    junctions: &Vec<Junction>,
    edges: &Vec<Edge>,
    amenities: &Vec<Amenity>,
    nearest: &Vec<Option<RoadID>>,
) -> (found: Option<GraphError>)
    ensures
        found == fault_of(junctions@, edges@, amenities@, nearest@),
{
    let mut e: usize = 0;
    while e < edges.len()
        invariant
            e <= edges.len(),
            forall|i: int| 0 <= i < e ==> #[trigger] edge_ok(junctions@, edges@, i),
        decreases edges.len() - e,
    {
        if !check_edge(junctions, edges, e) {
            return Some(GraphError::BrokenRoad);
        }
        e += 1;
    }
    let mut i: usize = 0;
    while i < junctions.len()
        invariant
            i <= junctions.len(),
            forall|e: int| 0 <= e < edges.len() ==> #[trigger] edge_ok(junctions@, edges@, e),
            forall|j: int| 0 <= j < i ==> #[trigger] junction_ok(junctions@, edges@, j),
        decreases junctions.len() - i,
    {
        if !check_junction(junctions, edges, i) {
            return Some(GraphError::BrokenIntersection);
        }
        i += 1;
    }
    let mut a: usize = 0;
    while a < amenities.len()
        invariant
            a <= amenities.len(),
            forall|e: int| 0 <= e < edges.len() ==> #[trigger] edge_ok(junctions@, edges@, e),
            forall|j: int|
                0 <= j < junctions.len() ==> #[trigger] junction_ok(junctions@, edges@, j),
            forall|b: int| 0 <= b < a ==> (#[trigger] amenities[b]).id.0 == b,
        decreases amenities.len() - a,
    {
        if amenities[a].id.0 != a {
            return Some(GraphError::BrokenAmenity);
        }
        a += 1;
    }
    if !check_snap(nearest, amenities.len(), edges.len()) {
        return Some(GraphError::BrokenSnap);
    }
    None
}

/// The intersection that a junction becomes.
fn copy_intersection(junction: &Junction) -> (copy: Intersection)
    ensures
        copy.id.0 == junction.id,
        copy.roads.len() == junction.edges.len(),
        forall|k: int|
            0 <= k < junction.edges.len() ==> (#[trigger] copy.roads[k]).0 == junction.edges[k],
{
    let mut roads: Vec<RoadID> = Vec::new();
    while roads.len() < junction.edges.len()
        invariant
            roads.len() <= junction.edges.len(),
            forall|k: int| 0 <= k < roads.len() ==> (#[trigger] roads[k]).0 == junction.edges[k],
        decreases junction.edges.len() - roads.len(),
    {
        roads.push(RoadID(junction.edges[roads.len()]));
    }
    Intersection { id: IntersectionID(junction.id), roads }
}

/// Assembles the graph that the records describe, or says what is wrong
/// with them.
pub fn scrape_osm(
    junctions: &Vec<Junction>,
    edges: &Vec<Edge>,
    amenities: Vec<Amenity>,
    nearest: &Vec<Option<RoadID>>,
) -> (made: Result<Graph, GraphError>)
    ensures
        match made {
            Ok(g) => {
                &&& fault_of(junctions@, edges@, amenities@, nearest@) is None
                &&& built_from(g, junctions@, edges@, amenities@, nearest@)
                &&& g.wf()
            },
            Err(e) => fault_of(junctions@, edges@, amenities@, nearest@) == Some(e),
        },
{
    match find_fault(junctions, edges, &amenities, nearest) {
        Some(e) => {
            return Err(e);
        },
        None => {},
    }
    // Copy all the fields
    let mut intersections: Vec<Intersection> = Vec::new();
    while intersections.len() < junctions.len()
        invariant
            intersections.len() <= junctions.len(),
            forall|i: int|
                0 <= i < intersections.len() ==> {
                    &&& (#[trigger] intersections[i]).id.0 == junctions[i].id
                    &&& intersections[i].roads.len() == junctions[i].edges.len()
                    &&& forall|k: int|
                        0 <= k < junctions[i].edges.len() ==> (
                        #[trigger] intersections[i].roads[k]).0 == junctions[i].edges[k]
                },
        decreases junctions.len() - intersections.len(),
    {
        intersections.push(copy_intersection(&junctions[intersections.len()]));
    }
    let mut roads: Vec<Road> = Vec::new();
    while roads.len() < edges.len()
        invariant
            roads.len() <= edges.len(),
            forall|r: int|
                0 <= r < roads.len() ==> {
                    &&& (#[trigger] roads[r]).id.0 == edges[r].id
                    &&& roads[r].src_i.0 == edges[r].src
                    &&& roads[r].dst_i.0 == edges[r].dst
                    &&& roads[r].length_mm == edges[r].length_mm
                    &&& roads[r].amenities@ == Seq::<AmenityID>::empty()
                },
        decreases edges.len() - roads.len(),
    {
        let e = &edges[roads.len()];
        roads.push(
            Road {
                id: RoadID(e.id),
                src_i: IntersectionID(e.src),
                dst_i: IntersectionID(e.dst),
                length_mm: e.length_mm,
                amenities: Vec::new(),
            },
        );
    }
    snap_amenities(&mut roads, &amenities, nearest);
    let g = Graph { roads, intersections, amenities };
    proof {
        assert forall|r: int| 0 <= r < edges.len() implies (#[trigger] g.roads[r]).amenities@
            == snapped_to(amenities@, nearest@, r, amenities.len() as int) by {
            assert(g.roads[r].amenities@ =~= snapped_to(
                amenities@,
                nearest@,
                r,
                amenities.len() as int,
            ));
        }
        lemma_built_wf(g, junctions@, edges@, amenities@, nearest@);
    }
    Ok(g)
}

} // verus!
