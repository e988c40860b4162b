//! The search from one intersection that finds, within a budget of time, the
//! least cost at which each amenity is reached.

use vstd::prelude::*;
use vstd::multiset::Multiset;
use crate::graph::{Graph, Road};
use crate::ids::IntersectionID;
use crate::queue::{CostQueue, PriorityQueueItem};

verus! {

/// From `start`, some walk of at most `limit` milliseconds ends on a road that
/// carries amenity `a`.
pub open spec fn reachable_within(g: Graph, start: int, a: int, limit: int) -> bool {
    exists|w: Seq<int>| #[trigger] g.walk_serves(start, w, a) && g.walk_cost(w) <= limit
}

/// `cost` is what the cheapest walk from `start` costs that ends on a road
/// carrying amenity `a`.
pub open spec fn is_reach_cost(g: Graph, start: int, a: int, cost: int) -> bool {
    &&& exists|w: Seq<int>| #[trigger] g.walk_serves(start, w, a) && g.walk_cost(w) == cost
    &&& forall|w: Seq<int>| #[trigger] g.walk_serves(start, w, a) ==> cost <= g.walk_cost(w)
}

/// `d` is what the cheapest walk from `s` to intersection `v` costs.
spec fn is_dist(g: Graph, s: int, v: int, d: int) -> bool {
    &&& exists|w: Seq<int>| #[trigger] g.walk_reaches(s, w, v) && g.walk_cost(w) == d
    &&& forall|w: Seq<int>| #[trigger] g.walk_reaches(s, w, v) ==> d <= g.walk_cost(w)
}

/// The number of intersections not yet visited.
spec fn unvisited(visited: Seq<bool>) -> nat
    decreases visited.len(),
{
    if visited.len() == 0 {
        0
    } else {
        unvisited(visited.drop_last()) + if visited.last() {
            0nat
        } else {
            1nat
        }
    }
}

/// A visit leaves one intersection less to visit.
proof fn lemma_visit(visited: Seq<bool>, u: int)
    requires
        0 <= u < visited.len(),
        !visited[u],
    ensures
        unvisited(visited.update(u, true)) + 1 == unvisited(visited),
    decreases visited.len(),
{
    let after = visited.update(u, true);
    if u == visited.len() - 1 {
        assert(after.drop_last() =~= visited.drop_last());
    } else {
        assert(after.drop_last() =~= visited.drop_last().update(u, true));
        lemma_visit(visited.drop_last(), u);
    }
}

/// The state of a search from `s` with budget `limit`: which intersections
/// are settled and at what cost, what waits in the queue, and what has been
/// recorded for each amenity. While the roads of intersection `cur` are being
/// taken in turn, `upto` of them are done; outside that, `cur` is -1.
struct Search {
    visited: Seq<bool>,
    dist: Seq<int>,
    queue: Multiset<PriorityQueueItem>,
    costs: Seq<Option<u64>>,
    floor: int,
    cur: int,
    upto: int,
}

/// An entry for intersection `v` waits in the queue at a cost of `t` at most.
spec fn queued_within(queue: Multiset<PriorityQueueItem>, v: int, t: int) -> bool {
    exists|item: PriorityQueueItem| #[trigger]
        queue.contains(item) && item.value.0 == v && item.cost <= t
}

/// The road at position `k` of intersection `u` has been taken.
spec fn done(st: Search, u: int, k: int) -> bool {
    u != st.cur || k < st.upto
}

/// The far end of the road at position `k` of `u` is settled or waits in the
/// queue, at no more than it costs by that road, unless that is beyond the
/// budget.
spec fn relaxed_at(g: Graph, limit: int, st: Search, u: int, k: int) -> bool {
    let r = g.intersections[u].roads[k].0 as int;
    let v = g.far_end(r, u);
    let t = st.dist[u] + g.road_cost(r);
    t <= limit ==> st.visited[v] || queued_within(st.queue, v, t)
}

/// Where the road at position `k` of `u` carries amenity `a`, a cost is
/// recorded for `a` that is no more than it costs by that road, unless that
/// is beyond the budget.
spec fn recorded_at(g: Graph, limit: int, st: Search, u: int, k: int, a: int) -> bool {
    let r = g.intersections[u].roads[k].0 as int;
    let t = st.dist[u] + g.road_cost(r);
    g.carries(r, a) ==> match st.costs[a] {
        Some(c) => c <= t,
        None => t > limit,
    }
}

/// What is recorded for amenity `a` is what it costs by road `r` from the
/// settled intersection `u`.
spec fn witness(g: Graph, st: Search, u: int, r: int, a: int) -> bool {
    &&& 0 <= u < st.visited.len()
    &&& st.visited[u]
    &&& g.incident(u, r)
    &&& g.carries(r, a)
    &&& st.costs[a] is Some
    &&& st.costs[a]->0 == st.dist[u] + g.road_cost(r)
}

/// What holds of a search at every step. Settled intersections are settled
/// at their least cost, none above the cost of the entry that left the queue
/// last, and no entry waits below it. Every entry that waits is the cost of
/// some walk. The roads of settled intersections have been taken, and the
/// amenities on them recorded.
spec fn inv(g: Graph, s: int, limit: int, st: Search) -> bool {
    &&& g.wf()
    &&& 0 <= s < g.intersections.len()
    &&& st.visited.len() == g.intersections.len()
    &&& st.dist.len() == g.intersections.len()
    &&& st.costs.len() == g.amenities.len()
    &&& 0 <= st.floor <= limit
    &&& forall|v: int|
        0 <= v < st.visited.len() && #[trigger] st.visited[v] ==> st.dist[v] <= st.floor && is_dist(
            g,
            s,
            v,
            st.dist[v],
        )
    &&& forall|item: PriorityQueueItem| #[trigger]
        st.queue.contains(item) ==> {
            &&& item.value.0 < g.intersections.len()
            &&& st.floor <= item.cost <= limit
            &&& exists|w: Seq<int>| #[trigger]
                g.walk_reaches(s, w, item.value.0 as int) && g.walk_cost(w) == item.cost
        }
    &&& st.visited[s] || queued_within(st.queue, s, 0)
    &&& forall|u: int, k: int|
        0 <= u < st.visited.len() && st.visited[u] && 0 <= k < g.intersections[u].roads.len()
            && done(st, u, k) ==> #[trigger] relaxed_at(g, limit, st, u, k)
    &&& forall|u: int, k: int, a: int|
        0 <= u < st.visited.len() && st.visited[u] && 0 <= k < g.intersections[u].roads.len()
            && done(st, u, k) && 0 <= a < st.costs.len() ==> #[trigger] recorded_at(
            g,
            limit,
            st,
            u,
            k,
            a,
        )
    &&& forall|a: int|
        0 <= a < st.costs.len() && #[trigger] st.costs[a] is Some ==> st.costs[a]->0 <= limit
            && exists|u: int, r: int| #[trigger] witness(g, st, u, r, a)
}

/// Where a walk from `s` ends: at a settled intersection, and then it costs
/// no less than what that intersection was settled at; or beyond the budget;
/// or no earlier than some entry that still waits in the queue.
proof fn lemma_frontier(g: Graph, s: int, limit: int, st: Search, w: Seq<int>)
    requires
        inv(g, s, limit, st),
        st.cur == -1,
        g.is_walk(s, w),
    ensures
        0 <= g.walk_end(s, w) < st.visited.len(),
        st.visited[g.walk_end(s, w)] ==> st.dist[g.walk_end(s, w)] <= g.walk_cost(w),
        !st.visited[g.walk_end(s, w)] ==> g.walk_cost(w) > limit || exists|
            item: PriorityQueueItem,
        | #[trigger] st.queue.contains(item) && item.cost <= g.walk_cost(w),
    decreases w.len(),
{
    g.lemma_walk_step(s, w);
    let v = g.walk_end(s, w);
    if st.visited[v] {
        assert(g.walk_reaches(s, w, v));
    } else if w.len() == 0 {
        let item = choose|item: PriorityQueueItem| #[trigger]
            st.queue.contains(item) && item.value.0 == s && item.cost <= 0;
        assert(st.queue.contains(item) && item.cost <= g.walk_cost(w));
    } else {
        let before = w.drop_last();
        let r = w.last();
        let u = g.walk_end(s, before);
        lemma_frontier(g, s, limit, st, before);
        g.lemma_walk_step(s, before);
        if st.visited[u] {
            let k = choose|k: int|
                0 <= k < g.intersections[u].roads.len() && (
                #[trigger] g.intersections[u].roads[k]).0 == r;
            assert(done(st, u, k));
            assert(relaxed_at(g, limit, st, u, k));
            let t = st.dist[u] + g.road_cost(r);
            if t <= limit {
                let item = choose|item: PriorityQueueItem| #[trigger]
                    st.queue.contains(item) && item.value.0 == v && item.cost <= t;
                assert(st.queue.contains(item) && item.cost <= g.walk_cost(w));
            }
        } else if g.walk_cost(before) <= limit {
            let item = choose|item: PriorityQueueItem| #[trigger]
                st.queue.contains(item) && item.cost <= g.walk_cost(before);
            assert(st.queue.contains(item) && item.cost <= g.walk_cost(w));
        }
    }
}

/// What a bag holds after an entry was added.
proof fn lemma_insert_contains(m: Multiset<PriorityQueueItem>, x: PriorityQueueItem)
    ensures
        forall|y: PriorityQueueItem| #[trigger]
            m.insert(x).contains(y) <==> (y == x || m.contains(y)),
        m.insert(x).len() == m.len() + 1,
{
    broadcast use vstd::multiset::group_multiset_axioms;
    broadcast use vstd::multiset::group_multiset_properties;

}

/// The search state after the cheapest entry `least` left the queue and its
/// intersection is settled at the entry's cost.
spec fn settle(st: Search, least: PriorityQueueItem, rest: Multiset<PriorityQueueItem>) -> Search {
    Search {
        visited: st.visited.update(least.value.0 as int, true),
        dist: st.dist.update(least.value.0 as int, least.cost as int),
        queue: rest,
        costs: st.costs,
        floor: least.cost as int,
        cur: least.value.0 as int,
        upto: 0,
    }
}

/// The cheapest entry of the queue is the least cost of its intersection,
/// if that is not settled yet: every walk there passes an entry that waits.
proof fn lemma_settle(
    g: Graph,
    s: int,
    limit: int,
    st: Search,
    least: PriorityQueueItem,
    rest: Multiset<PriorityQueueItem>,
)
    requires
        inv(g, s, limit, st),
        st.cur == -1,
        st.queue == rest.insert(least),
        forall|other: PriorityQueueItem| #[trigger]
            st.queue.contains(other) ==> least.cost <= other.cost,
        least.value.0 < st.visited.len(),
        !st.visited[least.value.0 as int],
    ensures
        inv(g, s, limit, settle(st, least, rest)),
{
    let u = least.value.0 as int;
    let c = least.cost as int;
    let nx = settle(st, least, rest);
    lemma_insert_contains(rest, least);
    assert(st.queue.contains(least));
    assert(is_dist(g, s, u, c)) by {
        assert forall|w: Seq<int>| #[trigger] g.walk_reaches(s, w, u) implies c <= g.walk_cost(
            w,
        ) by {
            lemma_frontier(g, s, limit, st, w);
        }
    }
    assert forall|v: int| 0 <= v < nx.visited.len() && #[trigger] nx.visited[v] implies nx.dist[v]
        <= nx.floor && is_dist(g, s, v, nx.dist[v]) by {
        if v != u {
            assert(st.visited[v]);
        }
    }
    assert forall|item: PriorityQueueItem| #[trigger] nx.queue.contains(item) implies {
        &&& item.value.0 < g.intersections.len()
        &&& nx.floor <= item.cost <= limit
        &&& exists|w: Seq<int>| #[trigger]
            g.walk_reaches(s, w, item.value.0 as int) && g.walk_cost(w) == item.cost
    } by {
        assert(st.queue.contains(item));
    }
    assert(nx.visited[s] || queued_within(nx.queue, s, 0)) by {
        if !st.visited[s] && s != u {
            let item = choose|item: PriorityQueueItem| #[trigger]
                st.queue.contains(item) && item.value.0 == s && item.cost <= 0;
            assert(nx.queue.contains(item));
        }
    }
    assert forall|x: int, k: int|
        0 <= x < nx.visited.len() && nx.visited[x] && 0 <= k < g.intersections[x].roads.len()
            && done(nx, x, k) implies #[trigger] relaxed_at(g, limit, nx, x, k) by {
        assert(st.visited[x]);
        assert(done(st, x, k));
        assert(relaxed_at(g, limit, st, x, k));
        g.lemma_listed_road(x, k);
        let r = g.intersections[x].roads[k].0 as int;
        let v = g.far_end(r, x);
        let t = st.dist[x] + g.road_cost(r);
        if t <= limit && !st.visited[v] {
            let item = choose|item: PriorityQueueItem| #[trigger]
                st.queue.contains(item) && item.value.0 == v && item.cost <= t;
            if item != least {
                assert(nx.queue.contains(item));
            }
        }
    }
    assert forall|x: int, k: int, a: int|
        0 <= x < nx.visited.len() && nx.visited[x] && 0 <= k < g.intersections[x].roads.len()
            && done(nx, x, k) && 0 <= a < nx.costs.len() implies #[trigger] recorded_at(
        g,
        limit,
        nx,
        x,
        k,
        a,
    ) by {
        assert(st.visited[x]);
        assert(done(st, x, k));
        assert(recorded_at(g, limit, st, x, k, a));
    }
    assert forall|a: int| 0 <= a < nx.costs.len() && #[trigger] nx.costs[a] is Some implies nx.costs[a]->0
        <= limit && exists|x: int, r: int| #[trigger] witness(g, nx, x, r, a) by {
        let (x, r) = choose|x: int, r: int| #[trigger] witness(g, st, x, r, a);
        assert(witness(g, nx, x, r, a));
    }
}

/// An entry whose intersection is settled already leaves the queue.
proof fn lemma_skip(
    g: Graph,
    s: int,
    limit: int,
    st: Search,
    least: PriorityQueueItem,
    rest: Multiset<PriorityQueueItem>,
)
    requires
        inv(g, s, limit, st),
        st.cur == -1,
        st.queue == rest.insert(least),
        least.value.0 < st.visited.len(),
        st.visited[least.value.0 as int],
    ensures
        inv(g, s, limit, Search { queue: rest, ..st }),
{
    let nx = Search { queue: rest, ..st };
    lemma_insert_contains(rest, least);
    assert(st.queue.contains(least));
    assert forall|item: PriorityQueueItem| #[trigger] nx.queue.contains(item) implies {
        &&& item.value.0 < g.intersections.len()
        &&& nx.floor <= item.cost <= limit
        &&& exists|w: Seq<int>| #[trigger]
            g.walk_reaches(s, w, item.value.0 as int) && g.walk_cost(w) == item.cost
    } by {
        assert(st.queue.contains(item));
    }
    assert(nx.visited[s] || queued_within(nx.queue, s, 0)) by {
        if !st.visited[s] {
            let item = choose|item: PriorityQueueItem| #[trigger]
                st.queue.contains(item) && item.value.0 == s && item.cost <= 0;
            assert(nx.queue.contains(item));
        }
    }
    assert forall|x: int, k: int|
        0 <= x < nx.visited.len() && nx.visited[x] && 0 <= k < g.intersections[x].roads.len()
            && done(nx, x, k) implies #[trigger] relaxed_at(g, limit, nx, x, k) by {
        assert(done(st, x, k));
        assert(relaxed_at(g, limit, st, x, k));
        g.lemma_listed_road(x, k);
        let r = g.intersections[x].roads[k].0 as int;
        let v = g.far_end(r, x);
        let t = st.dist[x] + g.road_cost(r);
        if t <= limit && !st.visited[v] {
            let item = choose|item: PriorityQueueItem| #[trigger]
                st.queue.contains(item) && item.value.0 == v && item.cost <= t;
            assert(nx.queue.contains(item));
        }
    }
    assert forall|x: int, k: int, a: int|
        0 <= x < nx.visited.len() && nx.visited[x] && 0 <= k < g.intersections[x].roads.len()
            && done(nx, x, k) && 0 <= a < nx.costs.len() implies #[trigger] recorded_at(
        g,
        limit,
        nx,
        x,
        k,
        a,
    ) by {
        assert(done(st, x, k));
        assert(recorded_at(g, limit, st, x, k, a));
    }
    assert forall|a: int| 0 <= a < nx.costs.len() && #[trigger] nx.costs[a] is Some implies nx.costs[a]->0
        <= limit && exists|x: int, r: int| #[trigger] witness(g, nx, x, r, a) by {
        let (x, r) = choose|x: int, r: int| #[trigger] witness(g, st, x, r, a);
        assert(witness(g, nx, x, r, a));
    }
}

/// What is recorded after a road was taken at cumulative cost `t`: each
/// amenity on the road that had no cost yet has `t`.
spec fn record(costs: Seq<Option<u64>>, road: Road, t: u64) -> Seq<Option<u64>> {
    Seq::new(
        costs.len(),
        |a: int|
            if costs[a] is None && road.carries(a) {
                Some(t)
            } else {
                costs[a]
            },
    )
}

/// The road at position `upto` of the current intersection is taken within
/// the budget: its amenities are recorded and its far end is queued.
proof fn lemma_relax_within(g: Graph, s: int, limit: int, st: Search, item: PriorityQueueItem)
    requires
        inv(g, s, limit, st),
        0 <= st.cur < st.visited.len(),
        st.visited[st.cur],
        st.dist[st.cur] == st.floor,
        0 <= st.upto < g.intersections[st.cur].roads.len(),
        item.cost == st.floor + g.road_cost(g.intersections[st.cur].roads[st.upto].0 as int),
        item.cost <= limit,
        item.value.0 == g.far_end(g.intersections[st.cur].roads[st.upto].0 as int, st.cur),
    ensures
        inv(
            g,
            s,
            limit,
            Search {
                queue: st.queue.insert(item),
                costs: record(
                    st.costs,
                    g.roads[g.intersections[st.cur].roads[st.upto].0 as int],
                    item.cost,
                ),
                upto: st.upto + 1,
                ..st
            },
        ),
{
    let u = st.cur;
    let r = g.intersections[u].roads[st.upto].0 as int;
    let t = item.cost as int;
    let nx = Search {
        queue: st.queue.insert(item),
        costs: record(st.costs, g.roads[r], item.cost),
        upto: st.upto + 1,
        ..st
    };
    lemma_insert_contains(st.queue, item);
    g.lemma_listed_road(u, st.upto);
    assert forall|item2: PriorityQueueItem| #[trigger] nx.queue.contains(item2) implies {
        &&& item2.value.0 < g.intersections.len()
        &&& nx.floor <= item2.cost <= limit
        &&& exists|w: Seq<int>| #[trigger]
            g.walk_reaches(s, w, item2.value.0 as int) && g.walk_cost(w) == item2.cost
    } by {
        if item2 == item {
            let w0 = choose|w: Seq<int>| #[trigger]
                g.walk_reaches(s, w, u) && g.walk_cost(w) == st.dist[u];
            let w = w0.push(r);
            assert(w.drop_last() =~= w0);
            assert(g.walk_reaches(s, w, item.value.0 as int) && g.walk_cost(w) == item.cost);
        } else {
            assert(st.queue.contains(item2));
        }
    }
    assert(nx.visited[s] || queued_within(nx.queue, s, 0)) by {
        if !st.visited[s] {
            let item2 = choose|item2: PriorityQueueItem| #[trigger]
                st.queue.contains(item2) && item2.value.0 == s && item2.cost <= 0;
            assert(nx.queue.contains(item2));
        }
    }
    assert forall|x: int, k: int|
        0 <= x < nx.visited.len() && nx.visited[x] && 0 <= k < g.intersections[x].roads.len()
            && done(nx, x, k) implies #[trigger] relaxed_at(g, limit, nx, x, k) by {
        g.lemma_listed_road(x, k);
        let r2 = g.intersections[x].roads[k].0 as int;
        let v = g.far_end(r2, x);
        let t2 = st.dist[x] + g.road_cost(r2);
        if x == u && k == st.upto {
            assert(nx.queue.contains(item));
        } else {
            assert(done(st, x, k));
            assert(relaxed_at(g, limit, st, x, k));
            if t2 <= limit && !st.visited[v] {
                let item2 = choose|item2: PriorityQueueItem| #[trigger]
                    st.queue.contains(item2) && item2.value.0 == v && item2.cost <= t2;
                assert(nx.queue.contains(item2));
            }
        }
    }
    assert forall|a: int| 0 <= a < nx.costs.len() && #[trigger] nx.costs[a] is Some implies nx.costs[a]->0
        <= limit && exists|x: int, r2: int| #[trigger] witness(g, nx, x, r2, a) by {
        if st.costs[a] is Some {
            let (x, r2) = choose|x: int, r2: int| #[trigger] witness(g, st, x, r2, a);
            assert(witness(g, nx, x, r2, a));
        } else {
            assert(witness(g, nx, u, r, a));
        }
    }
    assert forall|x: int, k: int, a: int|
        0 <= x < nx.visited.len() && nx.visited[x] && 0 <= k < g.intersections[x].roads.len()
            && done(nx, x, k) && 0 <= a < nx.costs.len() implies #[trigger] recorded_at(
        g,
        limit,
        nx,
        x,
        k,
        a,
    ) by {
        g.lemma_listed_road(x, k);
        let r2 = g.intersections[x].roads[k].0 as int;
        if g.carries(r2, a) {
            if x == u && k == st.upto {
                if st.costs[a] is Some {
                    let (x0, r0) = choose|x0: int, r0: int| #[trigger] witness(g, st, x0, r0, a);
                    g.lemma_one_road(r0, r, a);
                }
            } else {
                assert(done(st, x, k));
                assert(recorded_at(g, limit, st, x, k, a));
            }
        }
    }
}

/// The road at position `upto` of the current intersection would lead
/// beyond the budget: nothing is recorded and nothing is queued.
proof fn lemma_relax_beyond(g: Graph, s: int, limit: int, st: Search)
    requires
        inv(g, s, limit, st),
        0 <= st.cur < st.visited.len(),
        st.visited[st.cur],
        st.dist[st.cur] == st.floor,
        0 <= st.upto < g.intersections[st.cur].roads.len(),
        st.floor + g.road_cost(g.intersections[st.cur].roads[st.upto].0 as int) > limit,
    ensures
        inv(g, s, limit, Search { upto: st.upto + 1, ..st }),
{
    let u = st.cur;
    let r = g.intersections[u].roads[st.upto].0 as int;
    let nx = Search { upto: st.upto + 1, ..st };
    g.lemma_listed_road(u, st.upto);
    assert forall|x: int, k: int|
        0 <= x < nx.visited.len() && nx.visited[x] && 0 <= k < g.intersections[x].roads.len()
            && done(nx, x, k) implies #[trigger] relaxed_at(g, limit, nx, x, k) by {
        if !(x == u && k == st.upto) {
            assert(done(st, x, k));
            assert(relaxed_at(g, limit, st, x, k));
        }
    }
    assert forall|a: int| 0 <= a < nx.costs.len() && #[trigger] nx.costs[a] is Some implies nx.costs[a]->0
        <= limit && exists|x: int, r2: int| #[trigger] witness(g, nx, x, r2, a) by {
        let (x, r2) = choose|x: int, r2: int| #[trigger] witness(g, st, x, r2, a);
        assert(witness(g, nx, x, r2, a));
    }
    assert forall|x: int, k: int, a: int|
        0 <= x < nx.visited.len() && nx.visited[x] && 0 <= k < g.intersections[x].roads.len()
            && done(nx, x, k) && 0 <= a < nx.costs.len() implies #[trigger] recorded_at(
        g,
        limit,
        nx,
        x,
        k,
        a,
    ) by {
        let r2 = g.intersections[x].roads[k].0 as int;
        if g.carries(r2, a) {
            if x == u && k == st.upto {
                if st.costs[a] is Some {
                    let (x0, r0) = choose|x0: int, r0: int| #[trigger] witness(g, st, x0, r0, a);
                    g.lemma_one_road(r0, r, a);
                }
            } else {
                assert(done(st, x, k));
                assert(recorded_at(g, limit, st, x, k, a));
            }
        }
    }
}

/// All roads of the current intersection are done.
proof fn lemma_leave(g: Graph, s: int, limit: int, st: Search)
    requires
        inv(g, s, limit, st),
        0 <= st.cur < st.visited.len(),
        st.upto == g.intersections[st.cur].roads.len(),
    ensures
        inv(g, s, limit, Search { cur: -1, upto: 0, ..st }),
{
    let nx = Search { cur: -1, upto: 0, ..st };
    assert forall|x: int, k: int|
        0 <= x < nx.visited.len() && nx.visited[x] && 0 <= k < g.intersections[x].roads.len()
            && done(nx, x, k) implies #[trigger] relaxed_at(g, limit, nx, x, k) by {
        assert(done(st, x, k));
        assert(relaxed_at(g, limit, st, x, k));
    }
    assert forall|a: int| 0 <= a < nx.costs.len() && #[trigger] nx.costs[a] is Some implies nx.costs[a]->0
        <= limit && exists|x: int, r2: int| #[trigger] witness(g, nx, x, r2, a) by {
        let (x, r2) = choose|x: int, r2: int| #[trigger] witness(g, st, x, r2, a);
        assert(witness(g, nx, x, r2, a));
    }
    assert forall|x: int, k: int, a: int|
        0 <= x < nx.visited.len() && nx.visited[x] && 0 <= k < g.intersections[x].roads.len()
            && done(nx, x, k) && 0 <= a < nx.costs.len() implies #[trigger] recorded_at(
        g,
        limit,
        nx,
        x,
        k,
        a,
    ) by {
        assert(done(st, x, k));
        assert(recorded_at(g, limit, st, x, k, a));
    }
}

/// With the queue empty, what is recorded is exactly what can be reached
/// within the budget, each amenity at its least cost.
proof fn lemma_result(g: Graph, s: int, limit: int, st: Search)
    requires
        inv(g, s, limit, st),
        st.cur == -1,
        st.queue.len() == 0,
    ensures
        forall|a: int|
            0 <= a < st.costs.len() ==> ((#[trigger] st.costs[a]) is Some <==> reachable_within(
                g,
                s,
                a,
                limit,
            )),
        forall|a: int|
            0 <= a < st.costs.len() && (#[trigger] st.costs[a]) is Some ==> is_reach_cost(
                g,
                s,
                a,
                st.costs[a]->0 as int,
            ),
{
    broadcast use vstd::multiset::group_multiset_axioms;

    assert forall|item: PriorityQueueItem| !(#[trigger] st.queue.contains(item)) by {
        if st.queue.contains(item) {
            assert(st.queue.count(item) <= st.queue.len());
        }
    }
    // a walk that serves `a` is no cheaper than what is recorded for `a`,
    // unless it goes beyond the budget
    assert forall|a: int, w: Seq<int>|
        0 <= a < st.costs.len() && #[trigger] g.walk_serves(s, w, a) && g.walk_cost(w)
            <= limit implies st.costs[a] is Some && st.costs[a]->0 <= g.walk_cost(w) by {
        let before = w.drop_last();
        let r = w.last();
        let u = g.walk_end(s, before);
        g.lemma_walk_step(s, w);
        lemma_frontier(g, s, limit, st, before);
        let k = choose|k: int|
            0 <= k < g.intersections[u].roads.len() && (#[trigger] g.intersections[u].roads[k]).0
                == r;
        assert(done(st, u, k));
        assert(recorded_at(g, limit, st, u, k, a));
    }
    assert forall|a: int| 0 <= a < st.costs.len() && (#[trigger] st.costs[a]) is Some implies {
        &&& reachable_within(g, s, a, limit)
        &&& is_reach_cost(g, s, a, st.costs[a]->0 as int)
    } by {
        let (u, r) = choose|u: int, r: int| #[trigger] witness(g, st, u, r, a);
        let w0 = choose|w: Seq<int>| #[trigger]
            g.walk_reaches(s, w, u) && g.walk_cost(w) == st.dist[u];
        let w = w0.push(r);
        assert(w.drop_last() =~= w0);
        assert(g.walk_serves(s, w, a) && g.walk_cost(w) == st.costs[a]->0);
    }
}

/// `n` intersections, none of them visited.
fn all_unvisited(n: usize) -> (visited: Vec<bool>)
    ensures
        visited.len() == n,
        forall|i: int| 0 <= i < n ==> !(#[trigger] visited[i]),
{
    let mut visited: Vec<bool> = Vec::new();
    while visited.len() < n
        invariant
            visited.len() <= n,
            forall|i: int| 0 <= i < visited.len() ==> !(#[trigger] visited[i]),
        decreases n - visited.len(),
    {
        visited.push(false);
    }
    visited
}

/// `n` amenities, none of them with a cost.
pub(crate) fn nothing_recorded(n: usize) -> (costs: Vec<Option<u64>>)
    ensures
        costs.len() == n,
        forall|a: int| 0 <= a < n ==> (#[trigger] costs[a]) is None,
{
    let mut costs: Vec<Option<u64>> = Vec::new();
    while costs.len() < n
        invariant
            costs.len() <= n,
            forall|a: int| 0 <= a < costs.len() ==> (#[trigger] costs[a]) is None,
        decreases n - costs.len(),
    {
        costs.push(None);
    }
    costs
}

/// Records `total` for each amenity on `road` that has no cost yet.
fn record_amenities(road: &Road, total: u64, costs: &mut Vec<Option<u64>>)
    requires
        forall|j: int|
            0 <= j < road.amenities.len() ==> (#[trigger] road.amenities[j]).0 < old(costs).len(),
    ensures
        final(costs)@ == record(old(costs)@, *road, total),
{
    let mut j: usize = 0;
    while j < road.amenities.len()
        invariant
            j <= road.amenities.len(),
            costs.len() == old(costs).len(),
            forall|i: int|
                0 <= i < road.amenities.len() ==> (#[trigger] road.amenities[i]).0 < costs.len(),
            forall|a: int|
                0 <= a < costs.len() ==> #[trigger] costs[a] == if old(costs)[a] is None && (
                exists|i: int| 0 <= i < j && (#[trigger] road.amenities[i]).0 == a) {
                    Some(total)
                } else {
                    old(costs)[a]
                },
        decreases road.amenities.len() - j,
    {
        let a = road.amenities[j].0;
        if costs[a].is_none() {
            costs[a] = Some(total);
        }
        j += 1;
    }
    assert(costs@ =~= record(old(costs)@, *road, total));
}

/// The least cost, in milliseconds, at which each amenity is reached from
/// `start` within `limit` milliseconds; `None` for an amenity out of reach.
///
/// Intersections are settled in the order of their cost from `start`. The
/// roads of a settled intersection are taken in turn; one that leads beyond
/// the budget is left alone. The first cost recorded for an amenity is its
/// least, since no intersection settled later is nearer.
pub fn reach_costs(graph: &Graph, start: IntersectionID, limit: u64) -> (costs: Vec<Option<u64>>)
    requires
        graph.wf(),
        start.0 < graph.intersections.len(),
    ensures
        costs.len() == graph.amenities.len(),
        forall|a: int|
            0 <= a < costs.len() ==> ((#[trigger] costs[a]) is Some <==> reachable_within(
                *graph,
                start.0 as int,
                a,
                limit as int,
            )),
        forall|a: int|
            0 <= a < costs.len() && (#[trigger] costs[a]) is Some ==> is_reach_cost(
                *graph,
                start.0 as int,
                a,
                costs[a]->0 as int,
            ),
{
    let mut visited = all_unvisited(graph.intersections.len());
    let mut costs = nothing_recorded(graph.amenities.len());
    let mut queue = CostQueue::new();
    queue.push(PriorityQueueItem::new(0, start));
    let ghost s = start.0 as int;
    let ghost mut st = Search {
        visited: visited@,
        dist: Seq::new(visited@.len(), |i: int| 0int),
        queue: queue@,
        costs: costs@,
        floor: 0,
        cur: -1,
        upto: 0,
    };
    proof {
        lemma_insert_contains(Multiset::empty(), PriorityQueueItem { cost: 0, value: start });
        assert(st.queue.contains(PriorityQueueItem { cost: 0, value: start }));
        assert(queued_within(st.queue, s, 0));
        assert forall|item: PriorityQueueItem| #[trigger] st.queue.contains(item) implies {
            &&& item.value.0 < graph.intersections.len()
            &&& st.floor <= item.cost <= limit
            &&& exists|w: Seq<int>| #[trigger]
                graph.walk_reaches(s, w, item.value.0 as int) && graph.walk_cost(w) == item.cost
        } by {
            let w = Seq::<int>::empty();
            assert(graph.walk_reaches(s, w, s) && graph.walk_cost(w) == 0);
        }
    }
    while queue.len() > 0
        invariant
            inv(*graph, s, limit as int, st),
            st.cur == -1,
            st.visited == visited@,
            st.queue == queue@,
            st.costs == costs@,
            queue.wf(),
        decreases unvisited(visited@), queue@.len(),
    {
        let ghost waiting = queue@;
        let least = queue.pop().unwrap();
        let u = least.value.0;
        proof {
            lemma_insert_contains(queue@, least);
            assert(waiting.contains(least));
        }
        if !visited[u] {
            proof {
                lemma_settle(*graph, s, limit as int, st, least, queue@);
                lemma_visit(visited@, u as int);
                st = settle(st, least, queue@);
            }
            visited[u] = true;
            let roads = &graph.intersections[u].roads;
            let mut k: usize = 0;
            while k < roads.len()
                invariant
                    inv(*graph, s, limit as int, st),
                    st.cur == u,
                    st.upto == k,
                    k <= roads.len(),
                    roads == &graph.intersections[u as int].roads,
                    u < visited.len(),
                    visited[u as int],
                    st.dist[u as int] == least.cost,
                    st.floor == least.cost,
                    st.visited == visited@,
                    st.queue == queue@,
                    st.costs == costs@,
                    queue.wf(),
                decreases roads.len() - k,
            {
                proof {
                    graph.lemma_listed_road(u as int, k as int);
                    assert(graph.road_ok(roads[k as int].0 as int));
                }
                let road = &graph.roads[roads[k].0];
                let step = road.get_cost();
                if step <= limit - least.cost {
                    let total = least.cost + step;
                    let next = PriorityQueueItem::new(total, road.other_side(IntersectionID(u)));
                    proof {
                        lemma_relax_within(*graph, s, limit as int, st, next);
                        st = Search {
                            queue: st.queue.insert(next),
                            costs: record(st.costs, *road, total),
                            upto: st.upto + 1,
                            ..st
                        };
                    }
                    record_amenities(road, total, &mut costs);
                    queue.push(next);
                } else {
                    proof {
                        lemma_relax_beyond(*graph, s, limit as int, st);
                        st = Search { upto: st.upto + 1, ..st };
                    }
                }
                k += 1;
            }
            proof {
                lemma_leave(*graph, s, limit as int, st);
                st = Search { cur: -1, upto: 0, ..st };
            }
        } else {
            proof {
                lemma_skip(*graph, s, limit as int, st, least, queue@);
                st = Search { queue: queue@, ..st };
            }
        }
    }
    proof {
        lemma_result(*graph, s, limit as int, st);
    }
    costs
}

} // verus!
