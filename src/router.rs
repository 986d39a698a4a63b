//! Shortest paths: A* over the road graph with lazy decrease-key, and the
//! route that the predecessor edges spell out.
use vstd::multiset::Multiset;
use vstd::prelude::*;

use crate::error::RouteError;
use crate::graph::{csr_wf, edge_cost, edge_time, lemma_range_source, Edge, Graph};
use crate::options::{transport_admits, Routing, Transport};
use crate::osm::{is_metric, Coordinates};
use crate::queue::{MinQueue, RouterNode};

verus! {

broadcast use vstd::multiset::group_multiset_axioms;

/// `x` capped at `u32::MAX`.
pub open spec fn sat(x: int) -> int {
    if x > u32::MAX {
        u32::MAX as int
    } else {
        x
    }
}

/// `es` lists the edge positions of a path that leaves `from` and arrives at
/// `to`, from the last edge back to the first, every edge open to `mode`.
pub open spec fn is_trail(edges: Seq<Edge>, es: Seq<usize>, to: int, from: int, mode: Transport) -> bool {
    &&& forall|i: int|
        0 <= i < es.len() ==> (#[trigger] es[i] as int) < edges.len() && transport_admits(
            edges[es[i] as int].transport,
            mode,
        )
    &&& es.len() == 0 ==> to == from
    &&& es.len() > 0 ==> edges[es[0] as int].target_index == to && edges[es.last() as int].source_index
        == from
    &&& forall|i: int, j: int|
        0 <= i && j == i + 1 && j < es.len() ==> edges[#[trigger] es[i] as int].source_index
            == edges[#[trigger] es[j] as int].target_index
}

/// What the edges of a trail cost in total.
pub open spec fn trail_cost(
    edges: Seq<Edge>,
    es: Seq<usize>,
    mode: Transport,
    routing: Routing,
) -> int
    decreases es.len(),
{
    if es.len() == 0 {
        0
    } else {
        edge_cost(edges[es[0] as int], mode, routing) + trail_cost(edges, es.drop_first(), mode, routing)
    }
}

/// The total length of the edges of a trail.
pub open spec fn trail_distance(edges: Seq<Edge>, es: Seq<usize>) -> int
    decreases es.len(),
{
    if es.len() == 0 {
        0
    } else {
        edges[es[0] as int].distance + trail_distance(edges, es.drop_first())
    }
}

/// The total time of the edges of a trail.
pub open spec fn trail_time(edges: Seq<Edge>, es: Seq<usize>, mode: Transport) -> int
    decreases es.len(),
{
    if es.len() == 0 {
        0
    } else {
        edge_time(edges[es[0] as int], mode) + trail_time(edges, es.drop_first(), mode)
    }
}

/// The sum of all entries.
pub open spec fn total(s: Seq<u32>) -> nat
    decreases s.len(),
{
    if s.len() == 0 {
        0
    } else {
        total(s.drop_last()) + s.last() as nat
    }
}

proof fn lemma_total_update(s: Seq<u32>, i: int, x: u32)
    requires
        0 <= i < s.len(),
    ensures
        total(s.update(i, x)) == total(s) - s[i] + x,
    decreases s.len(),
{
    if i == s.len() - 1 {
        assert(s.update(i, x).drop_last() =~= s.drop_last());
    } else {
        lemma_total_update(s.drop_last(), i, x);
        assert(s.update(i, x).drop_last() =~= s.drop_last().update(i, x));
    }
}

proof fn lemma_trail_sums_push(edges: Seq<Edge>, es: Seq<usize>, k: usize, mode: Transport, routing: Routing)
    ensures
        trail_cost(edges, es.push(k), mode, routing) == trail_cost(edges, es, mode, routing) + edge_cost(
            edges[k as int],
            mode,
            routing,
        ),
        trail_distance(edges, es.push(k)) == trail_distance(edges, es) + edges[k as int].distance,
        trail_time(edges, es.push(k), mode) == trail_time(edges, es, mode) + edge_time(edges[k as int], mode),
    decreases es.len(),
{
    if es.len() > 0 {
        lemma_trail_sums_push(edges, es.drop_first(), k, mode, routing);
        assert(es.push(k).drop_first() =~= es.drop_first().push(k));
    } else {
        assert(es.push(k).drop_first() =~= es);
    }
}

/// Some entry of `q` holds node `u` at cost `c`.
pub open spec fn in_queue(q: Multiset<RouterNode>, u: int, c: u32) -> bool {
    exists|e: RouterNode| #[trigger] q.contains(e) && e.index == u && e.cost == c
}

/// A query of one mode and objective over a graph, measuring straight-line
/// distances for the heuristic with `metric`.
pub struct Router<'a, D: Fn(Coordinates, Coordinates) -> u32> {
    pub graph: &'a Graph,
    pub mode: Transport,
    pub routing: Routing,
    pub metric: D,
}

/// A route: its positions from the goal back to the start, its time in
/// seconds, its length in meters, and the charging stations it visits.
#[derive(Debug)]
pub struct Route {
    pub path: Vec<Coordinates>,
    pub time: u32,
    pub distance: u32,
    pub visited_charging: Option<Vec<Coordinates>>,
}

impl Route {
    /// A route of the given parts.
    pub fn new(
        path: Vec<Coordinates>,
        time: u32,
        distance: u32,
        visited_charging: Option<Vec<Coordinates>>,
    ) -> (r: Self)
        ensures
            r.path@ == path@,
            r.time == time,
            r.distance == distance,
            r.visited_charging == visited_charging,
    {
        Self { path, time, distance, visited_charging }
    }
}

impl<'a, D: Fn(Coordinates, Coordinates) -> u32> Router<'a, D> {
    /// The predecessor edges: each leads into its node, is open to the mode,
    /// and comes from a node reached more cheaply, or as cheaply but earlier.
    #[verifier::opaque]
    pub open spec fn prev_ok(
        &self,
        start: int,
        cost: Seq<u32>,
        prev: Seq<Option<usize>>,
        stamp: Seq<nat>,
    ) -> bool {
        let edges = self.graph.edges@;
        &&& forall|v: int|
            0 <= v < cost.len() && (#[trigger] prev[v]) is Some ==> {
                let k = prev[v]->0 as int;
                let u = edges[k].source_index as int;
                let c = edge_cost(edges[k], self.mode, self.routing);
                &&& 0 <= k < edges.len()
                &&& edges[k].target_index == v
                &&& transport_admits(edges[k].transport, self.mode)
                &&& cost[u] + c <= cost[v]
                &&& (cost[u] + c < cost[v] || stamp[u] < stamp[v])
            }
        &&& forall|v: int|
            0 <= v < cost.len() && v != start && #[trigger] cost[v] < u32::MAX ==> prev[v] is Some
    }

    /// All out-edges of `u` before position `upto` that are open to the mode
    /// have been relaxed.
    #[verifier::opaque]
    pub open spec fn relaxed(&self, cost: Seq<u32>, u: int, upto: int) -> bool {
        let edges = self.graph.edges@;
        forall|k: int|
            self.graph.offsets@[u] <= k < upto && transport_admits(
                (#[trigger] edges[k]).transport,
                self.mode,
            ) ==> cost[edges[k].target_index as int] <= sat(
                cost[u] + edge_cost(edges[k], self.mode, self.routing),
            )
    }

    /// Every reached node but `skip` waits in the queue at its cost, or is not
    /// the goal and has all its out-edges relaxed.
    #[verifier::opaque]
    pub open spec fn settled(&self, goal_id: i64, cost: Seq<u32>, q: Multiset<RouterNode>, skip: int) -> bool {
        forall|u: int|
            0 <= u < cost.len() && u != skip && #[trigger] cost[u] < u32::MAX ==> in_queue(q, u, cost[u])
                || (self.graph.nodes@[u].id != goal_id && self.relaxed(
                cost,
                u,
                self.graph.offsets@[u + 1] as int,
            ))
    }

    /// The estimate of the rest of the way from node `from` to node `to`: the
    /// metric's distance, or nothing when a car routes by time.
    fn heuristic(&self, from: usize, to: usize) -> (r: u32)
        requires
            from < self.graph.nodes@.len(),
            to < self.graph.nodes@.len(),
            is_metric(self.metric),
        ensures
            self.is_dijkstra() ==> r == 0,
    {
        if self.mode == Transport::Car && self.routing == Routing::Time {
            0
        } else {
            (self.metric)(self.graph.nodes[from].coordinates, self.graph.nodes[to].coordinates)
        }
    }

    /// Relaxes edge `k` out of node `u`.
    #[verifier::rlimit(40)]
    fn relax_edge(
        &self,
        u: usize,
        k: usize,
        goal: usize,
        goal_id: Ghost<i64>,
        start: Ghost<int>,
        cost: &mut Vec<u32>,
        prev: &mut Vec<Option<usize>>,
        queue: &mut MinQueue,
        stamp: Ghost<Seq<nat>>,
        clock: Ghost<nat>,
    ) -> (r: (Ghost<Seq<nat>>, Ghost<nat>))
        requires
            self.graph.wf(),
            is_metric(self.metric),
            u < self.graph.nodes@.len(),
            goal < self.graph.nodes@.len(),
            0 <= start@ < self.graph.nodes@.len(),
            self.graph.offsets@[u as int] <= k < self.graph.offsets@[u + 1],
            old(cost)@.len() == self.graph.nodes@.len(),
            old(prev)@.len() == self.graph.nodes@.len(),
            stamp@.len() == self.graph.nodes@.len(),
            old(cost)@[u as int] < u32::MAX,
            old(cost)@[start@] == 0,
            self.graph.nodes@[u as int].id != goal_id@,
            self.prev_ok(start@, old(cost)@, old(prev)@, stamp@),
            forall|v: int| 0 <= v < stamp@.len() ==> #[trigger] stamp@[v] < clock@,
            self.queue_ok(old(cost)@, old(queue)@),
            old(queue).wf(),
            self.settled(goal_id@, old(cost)@, old(queue)@, u as int),
            self.relaxed(old(cost)@, u as int, k as int),
        ensures
            final(cost)@.len() == self.graph.nodes@.len(),
            final(prev)@.len() == self.graph.nodes@.len(),
            r.0@.len() == self.graph.nodes@.len(),
            final(cost)@[u as int] == old(cost)@[u as int],
            final(cost)@[start@] == 0,
            self.prev_ok(start@, final(cost)@, final(prev)@, r.0@),
            forall|v: int| 0 <= v < r.0@.len() ==> #[trigger] r.0@[v] < r.1@,
            self.queue_ok(final(cost)@, final(queue)@),
            final(queue).wf(),
            self.settled(goal_id@, final(cost)@, final(queue)@, u as int),
            self.relaxed(final(cost)@, u as int, k + 1),
            total(final(cost)@) < total(old(cost)@) || (final(cost)@ == old(cost)@ && final(queue)@
                == old(queue)@),
    {
        let ghost edges = self.graph.edges@;
        proof {
            lemma_range_source(self.graph.nodes@.len() as int, self.graph.offsets@, edges, u as int, k as int);
            assert(self.graph.offsets@[u + 1] <= self.graph.offsets@[self.graph.nodes@.len() as int]);
        }
        let e = self.graph.edges[k];
        if !e.transport.contains(self.mode) {
            proof {
                self.lemma_relaxed_skip(cost@, u as int, k as int);
            }
            return (stamp, clock);
        }
        let t = e.target_index;
        let c = e.cost(self.mode, self.routing);
        let new_cost = cost[u].saturating_add(c);
        if new_cost >= cost[t] {
            proof {
                self.lemma_relaxed_skip(cost@, u as int, k as int);
            }
            return (stamp, clock);
        }
        let h = self.heuristic(t, goal);
        let ghost old_cost = cost@;
        let ghost old_prev = prev@;
        let ghost old_queue = queue@;
        cost.set(t, new_cost);
        prev.set(t, Some(k));
        queue.push(RouterNode::new(t, new_cost, h));
        let ghost new_stamp = stamp@.update(t as int, clock@);
        proof {
            assert(t != u);
            assert(t as int != start@);
            lemma_total_update(old_cost, t as int, new_cost);
            self.lemma_prev_kept(start@, old_cost, old_prev, stamp@, t as int, k as int, new_cost, clock@);
            self.lemma_queue_kept(old_cost, old_queue, t, new_cost, h);
            assert(csr_wf(old_cost.len() as int, self.graph.offsets@, self.graph.edges@));
            self.lemma_settled_kept(goal_id@, old_cost, old_queue, u as int, k as int, t, new_cost, h);
        }
        (Ghost(new_stamp), Ghost(clock@ + 1))
    }

    proof fn lemma_prev_kept(
        &self,
        start: int,
        cost: Seq<u32>,
        prev: Seq<Option<usize>>,
        stamp: Seq<nat>,
        t: int,
        k: int,
        nc: u32,
        clock: nat,
    )
        requires
            csr_wf(cost.len() as int, self.graph.offsets@, self.graph.edges@),
            prev.len() == cost.len(),
            stamp.len() == cost.len(),
            self.prev_ok(start, cost, prev, stamp),
            forall|v: int| 0 <= v < stamp.len() ==> #[trigger] stamp[v] < clock,
            0 <= t < cost.len(),
            t != start,
            0 <= k < self.graph.edges@.len(),
            self.graph.edges@[k].target_index == t,
            transport_admits(self.graph.edges@[k].transport, self.mode),
            nc < cost[t],
            nc == cost[self.graph.edges@[k].source_index as int] + edge_cost(
                self.graph.edges@[k],
                self.mode,
                self.routing,
            ),
        ensures
            self.prev_ok(start, cost.update(t, nc), prev.update(t, Some(k as usize)), stamp.update(t, clock)),
    {
        reveal(Router::prev_ok);
        let edges = self.graph.edges@;
        let n = cost.len();
        let c2 = cost.update(t, nc);
        let p2 = prev.update(t, Some(k as usize));
        let s2 = stamp.update(t, clock);
        assert(edges[k].source_index < n);
        assert forall|v: int|
            0 <= v < n && (#[trigger] p2[v]) is Some implies {
            let kk = p2[v]->0 as int;
            let w = edges[kk].source_index as int;
            let cc = edge_cost(edges[kk], self.mode, self.routing);
            &&& 0 <= kk < edges.len()
            &&& edges[kk].target_index == v
            &&& transport_admits(edges[kk].transport, self.mode)
            &&& c2[w] + cc <= c2[v]
            &&& (c2[w] + cc < c2[v] || s2[w] < s2[v])
        } by {
            if v != t {
                assert(prev[v] is Some);
                let kk = prev[v]->0 as int;
                assert(edges[kk].source_index < n);
            } else {
                let w = edges[k].source_index as int;
                assert(w != t);
                assert(stamp[w] < clock);
            }
        }
        assert forall|v: int|
            0 <= v < n && v != start && #[trigger] c2[v] < u32::MAX implies p2[v] is Some by {
            if v != t {
                assert(cost[v] < u32::MAX);
            }
        }
    }

    proof fn lemma_queue_kept(&self, cost: Seq<u32>, q: Multiset<RouterNode>, t: usize, nc: u32, h: u32)
        requires
            self.queue_ok(cost, q),
            t < cost.len(),
            nc < cost[t as int],
            self.is_dijkstra() ==> h == 0,
        ensures
            self.queue_ok(cost.update(t as int, nc), q.insert(RouterNode { index: t as usize, cost: nc, heuristic: h })),
    {
        reveal(Router::queue_ok);
        let c2 = cost.update(t as int, nc);
        let fresh = RouterNode { index: t as usize, cost: nc, heuristic: h };
        let q2 = q.insert(fresh);
        assert forall|e: RouterNode| #[trigger] q2.contains(e) implies e.index < c2.len()
            && c2[e.index as int] <= e.cost < u32::MAX && (self.is_dijkstra() ==> e.heuristic == 0) by {
            if e != fresh {
                assert(q.contains(e));
                assert(cost[e.index as int] <= e.cost);
            }
        }
    }

    proof fn lemma_settled_kept(
        &self,
        goal_id: i64,
        cost: Seq<u32>,
        q: Multiset<RouterNode>,
        u: int,
        k: int,
        t: usize,
        nc: u32,
        h: u32,
    )
        requires
            csr_wf(cost.len() as int, self.graph.offsets@, self.graph.edges@),
            self.settled(goal_id, cost, q, u),
            self.relaxed(cost, u, k),
            0 <= u < cost.len(),
            t < cost.len(),
            t as int != u,
            nc < cost[t as int],
            self.graph.offsets@[u] <= k,
            0 <= k < self.graph.edges@.len(),
            self.graph.edges@[k].target_index == t,
            nc == sat(cost[u] + edge_cost(self.graph.edges@[k], self.mode, self.routing)),
        ensures
            self.settled(
                goal_id,
                cost.update(t as int, nc),
                q.insert(RouterNode { index: t as usize, cost: nc, heuristic: h }),
                u,
            ),
            self.relaxed(cost.update(t as int, nc), u, k + 1),
    {
        reveal(Router::settled);
        reveal(Router::relaxed);
        let edges = self.graph.edges@;
        let c2 = cost.update(t as int, nc);
        let fresh = RouterNode { index: t as usize, cost: nc, heuristic: h };
        let q2 = q.insert(fresh);
        assert forall|w: int|
            0 <= w < c2.len() && w != u && #[trigger] c2[w] < u32::MAX implies in_queue(q2, w, c2[w])
                || (self.graph.nodes@[w].id != goal_id && self.relaxed(
                c2,
                w,
                self.graph.offsets@[w + 1] as int,
            )) by {
            if w == t {
                assert(q2.contains(fresh));
            } else {
                assert(cost[w] < u32::MAX);
                if in_queue(q, w, cost[w]) {
                    let e = choose|e: RouterNode| #[trigger] q.contains(e) && e.index == w && e.cost == cost[w];
                    assert(q2.contains(e));
                } else {
                    assert forall|kk: int|
                        self.graph.offsets@[w] <= kk < self.graph.offsets@[w + 1] && transport_admits(
                            (#[trigger] edges[kk]).transport,
                            self.mode,
                        ) implies c2[edges[kk].target_index as int] <= sat(
                        c2[w] + edge_cost(edges[kk], self.mode, self.routing),
                    ) by {
                        assert(self.relaxed(cost, w, self.graph.offsets@[w + 1] as int));
                    }
                }
            }
        }
        assert forall|kk: int|
            self.graph.offsets@[u] <= kk < k + 1 && transport_admits(
                (#[trigger] edges[kk]).transport,
                self.mode,
            ) implies c2[edges[kk].target_index as int] <= sat(
            c2[u] + edge_cost(edges[kk], self.mode, self.routing),
        ) by {
            if kk < k {
                assert(self.relaxed(cost, u, k));
            }
        }
    }

    proof fn lemma_relaxed_skip(&self, cost: Seq<u32>, u: int, k: int)
        requires
            self.relaxed(cost, u, k),
            0 <= k < self.graph.edges@.len(),
            !transport_admits(self.graph.edges@[k].transport, self.mode)
                || cost[self.graph.edges@[k].target_index as int] <= sat(
                cost[u] + edge_cost(self.graph.edges@[k], self.mode, self.routing),
            ),
        ensures
            self.relaxed(cost, u, k + 1),
    {
        reveal(Router::relaxed);
        let edges = self.graph.edges@;
        assert forall|kk: int|
            self.graph.offsets@[u] <= kk < k + 1 && transport_admits(
                (#[trigger] edges[kk]).transport,
                self.mode,
            ) implies cost[edges[kk].target_index as int] <= sat(
            cost[u] + edge_cost(edges[kk], self.mode, self.routing),
        ) by {
            if kk < k {
                assert(self.relaxed(cost, u, k));
            }
        }
    }

    proof fn lemma_pop_settled(&self, goal_id: i64, cost: Seq<u32>, q: Multiset<RouterNode>, x: RouterNode)
        requires
            self.settled(goal_id, cost, q, -1),
            self.queue_ok(cost, q),
            q.contains(x),
        ensures
            self.settled(goal_id, cost, q.remove(x), x.index as int),
            x.cost != cost[x.index as int] ==> self.settled(goal_id, cost, q.remove(x), -1),
            self.queue_ok(cost, q.remove(x)),
            x.index < cost.len(),
            cost[x.index as int] <= x.cost < u32::MAX,
    {
        reveal(Router::settled);
        reveal(Router::queue_ok);
        let q2 = q.remove(x);
        assert forall|w: int|
            0 <= w < cost.len() && #[trigger] cost[w] < u32::MAX && in_queue(q, w, cost[w]) && (w
                != x.index || x.cost != cost[w]) implies in_queue(q2, w, cost[w]) by {
            let e = choose|e: RouterNode| #[trigger] q.contains(e) && e.index == w && e.cost == cost[w];
            assert(e != x);
            assert(q2.count(e) == q.count(e));
            assert(q2.contains(e));
        }
        assert forall|e: RouterNode| #[trigger] q2.contains(e) implies e.index < cost.len()
            && cost[e.index as int] <= e.cost < u32::MAX && (self.is_dijkstra() ==> e.heuristic == 0) by {
            assert(q.contains(e));
        }
    }

    proof fn lemma_trail_push(&self, es: Seq<usize>, to: int, v: int, k: usize)
        requires
            is_trail(self.graph.edges@, es, to, v, self.mode),
            k < self.graph.edges@.len(),
            self.graph.edges@[k as int].target_index == v,
            transport_admits(self.graph.edges@[k as int].transport, self.mode),
        ensures
            is_trail(
                self.graph.edges@,
                es.push(k),
                to,
                self.graph.edges@[k as int].source_index as int,
                self.mode,
            ),
    {
        let e2 = es.push(k);
        assert forall|i: int, j: int| 0 <= i && j == i + 1 && j < e2.len() implies self.graph.edges@[#[trigger] e2[i] as int].source_index
            == self.graph.edges@[#[trigger] e2[j] as int].target_index by {
            if j < es.len() {
                assert(e2[i] == es[i] && e2[j] == es[j]);
            } else {
                assert(e2[i] == es.last());
            }
        }
        assert forall|i: int| 0 <= i < e2.len() implies (#[trigger] e2[i] as int) < self.graph.edges@.len()
            && transport_admits(self.graph.edges@[e2[i] as int].transport, self.mode) by {
            if i < es.len() {
                assert(e2[i] == es[i]);
            }
        }
    }

    proof fn lemma_reach(&self, start: int, cost: Seq<u32>, es: Seq<usize>, t: int)
        requires
            csr_wf(cost.len() as int, self.graph.offsets@, self.graph.edges@),
            0 <= start < cost.len(),
            cost[start] == 0,
            forall|u: int|
                0 <= u < cost.len() && #[trigger] cost[u] < u32::MAX ==> self.relaxed(
                    cost,
                    u,
                    self.graph.offsets@[u + 1] as int,
                ),
            is_trail(self.graph.edges@, es, t, start, self.mode),
            trail_cost(self.graph.edges@, es, self.mode, self.routing) < u32::MAX,
        ensures
            cost[t] <= trail_cost(self.graph.edges@, es, self.mode, self.routing),
        decreases es.len(),
    {
        reveal(Router::relaxed);
        let edges = self.graph.edges@;
        if es.len() > 0 {
            let e = es[0] as int;
            let u = edges[e].source_index as int;
            let rest = es.drop_first();
            assert(es[0] == es[0]);
            assert(is_trail(edges, rest, u, start, self.mode)) by {
                if rest.len() > 0 {
                    assert(rest[0] == es[1]);
                    assert(edges[es[0] as int].source_index == edges[es[1] as int].target_index);
                    assert(rest.last() == es.last());
                    assert forall|i: int, j: int| 0 <= i && j == i + 1 && j < rest.len() implies edges[#[trigger] rest[i] as int].source_index
                        == edges[#[trigger] rest[j] as int].target_index by {
                        assert(rest[i] == es[i + 1] && rest[j] == es[j + 1]);
                    }
                    assert forall|i: int| 0 <= i < rest.len() implies (#[trigger] rest[i] as int) < edges.len()
                        && transport_admits(edges[rest[i] as int].transport, self.mode) by {
                        assert(rest[i] == es[i + 1]);
                    }
                } else {
                    assert(es.last() == es[0]);
                }
            }
            self.lemma_reach(start, cost, rest, u);
            assert(cost[u] < u32::MAX);
            assert(self.relaxed(cost, u, self.graph.offsets@[u + 1] as int));
            assert(edges[e].target_index == t);
        }
    }

    proof fn lemma_search_init(
        &self,
        start: usize,
        cost: Seq<u32>,
        prev: Seq<Option<usize>>,
        stamp: Seq<nat>,
        q: Multiset<RouterNode>,
        g: i64,
    )
        requires
            start < cost.len(),
            prev.len() == cost.len(),
            cost[start as int] == 0,
            forall|v: int| 0 <= v < cost.len() && v != start ==> #[trigger] cost[v] == u32::MAX,
            forall|v: int| 0 <= v < prev.len() ==> #[trigger] prev[v] is None,
            q == Multiset::<RouterNode>::empty().insert(RouterNode { index: start, cost: 0, heuristic: 0 }),
        ensures
            self.prev_ok(start as int, cost, prev, stamp),
            self.queue_ok(cost, q),
            self.settled(g, cost, q, -1),
    {
        reveal(Router::prev_ok);
        reveal(Router::queue_ok);
        reveal(Router::settled);
        {
            assert forall|u: int|
                0 <= u < cost.len() && u != -1 && #[trigger] cost[u] < u32::MAX implies in_queue(q, u, cost[u])
                    || (self.graph.nodes@[u].id != g && self.relaxed(
                    cost,
                    u,
                    self.graph.offsets@[u + 1] as int,
                )) by {
                assert(u == start);
                assert(q.contains(RouterNode { index: start, cost: 0, heuristic: 0 }));
            }
        }
    }

    proof fn lemma_search_done(&self, start: int, goal_id: i64, cost: Seq<u32>, q: Multiset<RouterNode>)
        requires
            csr_wf(cost.len() as int, self.graph.offsets@, self.graph.edges@),
            cost.len() == self.graph.nodes@.len(),
            0 <= start < cost.len(),
            cost[start] == 0,
            q.len() == 0,
            self.settled(goal_id, cost, q, -1),
        ensures
            forall|es: Seq<usize>, t: int|
                0 <= t < cost.len() && self.graph.nodes@[t].id == goal_id && is_trail(
                    self.graph.edges@,
                    es,
                    t,
                    start,
                    self.mode,
                ) ==> trail_cost(self.graph.edges@, es, self.mode, self.routing) >= u32::MAX,
    {
        reveal(Router::settled);
        assert forall|w: int|
            0 <= w < cost.len() && #[trigger] cost[w] < u32::MAX implies self.relaxed(
                cost,
                w,
                self.graph.offsets@[w + 1] as int,
            ) && self.graph.nodes@[w].id != goal_id by {
            assert(!in_queue(q, w, cost[w]));
        }
        assert forall|es: Seq<usize>, t: int|
            0 <= t < cost.len() && self.graph.nodes@[t].id == goal_id && is_trail(
                self.graph.edges@,
                es,
                t,
                start,
                self.mode,
            ) implies trail_cost(self.graph.edges@, es, self.mode, self.routing) >= u32::MAX by {
            if trail_cost(self.graph.edges@, es, self.mode, self.routing) < u32::MAX {
                self.lemma_reach(start, cost, es, t);
                assert(cost[t] < u32::MAX);
            }
        }
    }

    proof fn lemma_trail_rest(&self, es: Seq<usize>, t: int, start: int)
        requires
            is_trail(self.graph.edges@, es, t, start, self.mode),
            es.len() > 0,
        ensures
            is_trail(
                self.graph.edges@,
                es.drop_first(),
                self.graph.edges@[es[0] as int].source_index as int,
                start,
                self.mode,
            ),
    {
        let edges = self.graph.edges@;
        let rest = es.drop_first();
        assert(es[0] == es[0]);
        if rest.len() > 0 {
            assert(rest[0] == es[1]);
            assert(edges[es[0] as int].source_index == edges[es[1] as int].target_index);
            assert(rest.last() == es.last());
            assert forall|i: int, j: int| 0 <= i && j == i + 1 && j < rest.len() implies edges[#[trigger] rest[i] as int].source_index
                == edges[#[trigger] rest[j] as int].target_index by {
                assert(rest[i] == es[i + 1] && rest[j] == es[j + 1]);
            }
            assert forall|i: int| 0 <= i < rest.len() implies (#[trigger] rest[i] as int) < edges.len()
                && transport_admits(edges[rest[i] as int].transport, self.mode) by {
                assert(rest[i] == es[i + 1]);
            }
        } else {
            assert(es.last() == es[0]);
        }
    }

    /// A trail that is cheaper than what the search has for its end passes a
    /// node waiting in the queue at no more than the trail's cost.
    proof fn lemma_frontier(&self, start: int, goal_id: i64, cost: Seq<u32>, q: Multiset<RouterNode>, es: Seq<usize>, t: int)
        requires
            csr_wf(cost.len() as int, self.graph.offsets@, self.graph.edges@),
            0 <= start < cost.len(),
            cost[start] == 0,
            self.settled(goal_id, cost, q, -1),
            is_trail(self.graph.edges@, es, t, start, self.mode),
            trail_cost(self.graph.edges@, es, self.mode, self.routing) < u32::MAX,
        ensures
            cost[t] <= trail_cost(self.graph.edges@, es, self.mode, self.routing) || exists|e: RouterNode|
                #[trigger] q.contains(e) && e.cost <= trail_cost(self.graph.edges@, es, self.mode, self.routing),
        decreases es.len(),
    {
        reveal(Router::settled);
        reveal(Router::relaxed);
        let edges = self.graph.edges@;
        if es.len() > 0 {
            let e = es[0] as int;
            let u = edges[e].source_index as int;
            let rest = es.drop_first();
            self.lemma_trail_rest(es, t, start);
            self.lemma_frontier(start, goal_id, cost, q, rest, u);
            assert(edges[e].target_index == t);
            if cost[u] <= trail_cost(edges, rest, self.mode, self.routing) {
                assert(cost[u] < u32::MAX);
                if in_queue(q, u, cost[u]) {
                    let x = choose|x: RouterNode| #[trigger] q.contains(x) && x.index == u && x.cost == cost[u];
                    assert(q.contains(x));
                } else {
                    assert(self.relaxed(cost, u, self.graph.offsets@[u + 1] as int));
                }
            }
        }
    }

    /// When the heuristic is zero, the first entry for a node with the goal's
    /// id that leaves the queue ends a trail no other trail undercuts.
    proof fn lemma_popped_shortest(
        &self,
        start: int,
        goal: int,
        cost: Seq<u32>,
        q: Multiset<RouterNode>,
        x: RouterNode,
        es: Seq<usize>,
    )
        requires
            self.is_dijkstra(),
            csr_wf(cost.len() as int, self.graph.offsets@, self.graph.edges@),
            cost.len() == self.graph.nodes@.len(),
            0 <= start < cost.len(),
            0 <= goal < cost.len(),
            cost[start] == 0,
            self.settled(self.graph.nodes@[goal].id, cost, q, -1),
            self.queue_ok(cost, q),
            q.contains(x),
            forall|y: RouterNode| #[trigger] q.contains(y) ==> crate::queue::goes_first(x, y),
            trail_cost(self.graph.edges@, es, self.mode, self.routing) <= cost[x.index as int],
        ensures
            self.shortest(es, start, goal),
    {
        reveal(Router::queue_ok);
        reveal(Router::settled);
        let edges = self.graph.edges@;
        let goal_id = self.graph.nodes@[goal].id;
        assert(cost[x.index as int] <= x.cost < u32::MAX);
        assert forall|other: Seq<usize>, t: int|
            0 <= t < self.graph.nodes@.len() && self.graph.nodes@[t].id == goal_id
                && #[trigger] is_trail(edges, other, t, start, self.mode) implies trail_cost(
                edges,
                es,
                self.mode,
                self.routing,
            ) <= trail_cost(edges, other, self.mode, self.routing) by {
            let c = trail_cost(edges, other, self.mode, self.routing);
            if c < u32::MAX {
                self.lemma_frontier(start, goal_id, cost, q, other, t);
                if cost[t] <= c {
                    assert(in_queue(q, t, cost[t]));
                    let y = choose|y: RouterNode| #[trigger] q.contains(y) && y.index == t && y.cost == cost[t];
                    assert(crate::queue::goes_first(x, y));
                    assert(x.heuristic == 0 && y.heuristic == 0);
                } else {
                    let y = choose|y: RouterNode| #[trigger] q.contains(y) && y.cost <= c;
                    assert(crate::queue::goes_first(x, y));
                    assert(x.heuristic == 0 && y.heuristic == 0);
                }
            }
        }
    }

    proof fn lemma_prev_step(&self, start: int, cost: Seq<u32>, prev: Seq<Option<usize>>, stamp: Seq<nat>, v: int)
        requires
            csr_wf(cost.len() as int, self.graph.offsets@, self.graph.edges@),
            self.prev_ok(start, cost, prev, stamp),
            0 <= v < cost.len(),
            v != start,
            cost[v] < u32::MAX,
        ensures
            prev[v] matches Some(k) && ({
                let e = self.graph.edges@[k as int];
                let u = e.source_index as int;
                let c = edge_cost(e, self.mode, self.routing);
                &&& k < self.graph.edges@.len()
                &&& e.target_index == v
                &&& 0 <= u < cost.len()
                &&& transport_admits(e.transport, self.mode)
                &&& cost[u] + c <= cost[v]
                &&& (cost[u] + c < cost[v] || stamp[u] < stamp[v])
            }),
    {
        reveal(Router::prev_ok);
        assert(prev[v] is Some);
        let k = prev[v]->0 as int;
        assert(self.graph.edges@[k].source_index < cost.len());
    }

    /// The edges by which the search reached node `v0`, from `v0` back to `start`.
    #[verifier::rlimit(80)]
    fn backtrack(
        &self,
        start: usize,
        v0: usize,
        cost: &Vec<u32>,
        prev: &Vec<Option<usize>>,
        stamp: Ghost<Seq<nat>>,
    ) -> (r: Vec<usize>)
        requires
            self.graph.wf(),
            cost@.len() == self.graph.nodes@.len(),
            prev@.len() == self.graph.nodes@.len(),
            stamp@.len() == self.graph.nodes@.len(),
            start < self.graph.nodes@.len(),
            v0 < self.graph.nodes@.len(),
            cost@[v0 as int] < u32::MAX,
            cost@[start as int] == 0,
            self.prev_ok(start as int, cost@, prev@, stamp@),
        ensures
            is_trail(self.graph.edges@, r@, v0 as int, start as int, self.mode),
            trail_cost(self.graph.edges@, r@, self.mode, self.routing) <= cost@[v0 as int],
    {
        let mut es: Vec<usize> = Vec::new();
        let mut v = v0;
        while v != start
            invariant
                self.graph.wf(),
                cost@.len() == self.graph.nodes@.len(),
                prev@.len() == self.graph.nodes@.len(),
                stamp@.len() == self.graph.nodes@.len(),
                start < self.graph.nodes@.len(),
                v < self.graph.nodes@.len(),
                cost@[v as int] < u32::MAX,
                self.prev_ok(start as int, cost@, prev@, stamp@),
                is_trail(self.graph.edges@, es@, v0 as int, v as int, self.mode),
                trail_cost(self.graph.edges@, es@, self.mode, self.routing) + cost@[v as int] <= cost@[v0 as int],
                cost@[start as int] == 0,
            decreases cost@[v as int], stamp@[v as int],
        {
            proof {
                self.lemma_prev_step(start as int, cost@, prev@, stamp@, v as int);
            }
            let k = match prev[v] {
                Some(k) => k,
                None => {
                    return es;
                },
            };
            proof {
                self.lemma_trail_push(es@, v0 as int, v as int, k);
                lemma_trail_sums_push(self.graph.edges@, es@, k, self.mode, self.routing);
            }
            es.push(k);
            v = self.graph.edges[k].source_index;
        }
        es
    }

    /// Relaxes every out-edge of node `u`, reached at `node_cost`.
    fn expand(
        &self,
        u: usize,
        node_cost: u32,
        goal: usize,
        goal_id: Ghost<i64>,
        start: Ghost<int>,
        cost: &mut Vec<u32>,
        prev: &mut Vec<Option<usize>>,
        queue: &mut MinQueue,
        stamp: Ghost<Seq<nat>>,
        clock: Ghost<nat>,
    ) -> (r: (Ghost<Seq<nat>>, Ghost<nat>))
        requires
            self.graph.wf(),
            is_metric(self.metric),
            u < self.graph.nodes@.len(),
            goal < self.graph.nodes@.len(),
            0 <= start@ < self.graph.nodes@.len(),
            old(cost)@.len() == self.graph.nodes@.len(),
            old(prev)@.len() == self.graph.nodes@.len(),
            stamp@.len() == self.graph.nodes@.len(),
            old(cost)@[u as int] == node_cost,
            node_cost < u32::MAX,
            old(cost)@[start@] == 0,
            self.graph.nodes@[u as int].id != goal_id@,
            self.prev_ok(start@, old(cost)@, old(prev)@, stamp@),
            forall|v: int| 0 <= v < stamp@.len() ==> #[trigger] stamp@[v] < clock@,
            self.queue_ok(old(cost)@, old(queue)@),
            old(queue).wf(),
            self.settled(goal_id@, old(cost)@, old(queue)@, u as int),
        ensures
            final(cost)@.len() == self.graph.nodes@.len(),
            final(prev)@.len() == self.graph.nodes@.len(),
            r.0@.len() == self.graph.nodes@.len(),
            final(cost)@[start@] == 0,
            self.prev_ok(start@, final(cost)@, final(prev)@, r.0@),
            forall|v: int| 0 <= v < r.0@.len() ==> #[trigger] r.0@[v] < r.1@,
            self.queue_ok(final(cost)@, final(queue)@),
            final(queue).wf(),
            self.settled(goal_id@, final(cost)@, final(queue)@, -1),
            total(final(cost)@) < total(old(cost)@) || (final(cost)@ == old(cost)@ && final(queue)@
                == old(queue)@),
    {
        let n = self.graph.nodes.len();
        let mut stamp = stamp;
        let mut clock = clock;
        assert(u + 1 < self.graph.offsets@.len());
        let lo = self.graph.offsets[u];
        let hi = self.graph.offsets[u + 1];
        let mut k: usize = lo;
        proof {
            reveal(Router::relaxed);
        }
        while k < hi
            invariant
                self.graph.wf(),
                is_metric(self.metric),
                n == self.graph.nodes@.len(),
                0 <= start@ < n,
                goal < n,
                u < n,
                lo == self.graph.offsets@[u as int],
                hi == self.graph.offsets@[u + 1],
                lo <= k <= hi,
                self.graph.nodes@[u as int].id != goal_id@,
                cost@.len() == n,
                prev@.len() == n,
                stamp@.len() == n,
                cost@[start@] == 0,
                cost@[u as int] == node_cost,
                node_cost < u32::MAX,
                self.prev_ok(start@, cost@, prev@, stamp@),
                forall|v: int| 0 <= v < stamp@.len() ==> #[trigger] stamp@[v] < clock@,
                self.queue_ok(cost@, queue@),
                queue.wf(),
                self.settled(goal_id@, cost@, queue@, u as int),
                self.relaxed(cost@, u as int, k as int),
                total(cost@) < total(old(cost)@) || (cost@ == old(cost)@ && queue@ == old(queue)@),
            decreases hi - k,
        {
            let r = self.relax_edge(
                u,
                k,
                goal,
                goal_id,
                start,
                cost,
                prev,
                queue,
                stamp,
                clock,
            );
            stamp = r.0;
            clock = r.1;
            k = k + 1;
        }
        proof {
            reveal(Router::settled);
        }
        assert forall|w: int|
            0 <= w < cost@.len() && w != -1 && #[trigger] cost@[w] < u32::MAX implies in_queue(queue@, w, cost@[w])
                || (self.graph.nodes@[w].id != goal_id@ && self.relaxed(
                cost@,
                w,
                self.graph.offsets@[w + 1] as int,
            )) by {
            if w != u {
                assert(self.settled(goal_id@, cost@, queue@, u as int));
            }
        }
        (stamp, clock)
    }

    /// The search from node `start` to a node with the id of node `goal`: the
    /// edges of the path found, from the goal back to the start.
    #[verifier::rlimit(60)]
    pub fn search(&self, start: usize, goal: usize) -> (r: Result<Vec<usize>, RouteError>)
        requires
            self.graph.wf(),
            is_metric(self.metric),
            start < self.graph.nodes@.len(),
            goal < self.graph.nodes@.len(),
        ensures
            match r {
                Ok(es) => self.leads_to_goal(es@, start as int, goal as int) && (self.is_dijkstra()
                    ==> self.shortest(es@, start as int, goal as int)) && trail_cost(
                    self.graph.edges@,
                    es@,
                    self.mode,
                    self.routing,
                ) < u32::MAX,
                Err(e) => e == RouteError::NoPath && forall|es: Seq<usize>, t: int|
                    0 <= t < self.graph.nodes@.len() && self.graph.nodes@[t].id
                        == self.graph.nodes@[goal as int].id && is_trail(
                        self.graph.edges@,
                        es,
                        t,
                        start as int,
                        self.mode,
                    ) ==> trail_cost(self.graph.edges@, es, self.mode, self.routing) >= u32::MAX,
            },
    {
        let n = self.graph.nodes.len();
        let goal_id = self.graph.nodes[goal].id;
        let mut cost: Vec<u32> = Vec::new();
        let mut prev: Vec<Option<usize>> = Vec::new();
        let mut i: usize = 0;
        while i < n
            invariant
                i <= n,
                cost@.len() == i,
                prev@.len() == i,
                forall|v: int| 0 <= v < i ==> #[trigger] cost@[v] == u32::MAX,
                forall|v: int| 0 <= v < i ==> #[trigger] prev@[v] is None,
            decreases n - i,
        {
            cost.push(u32::MAX);
            prev.push(None);
            i = i + 1;
        }
        cost.set(start, 0);
        let ghost mut stamp: Seq<nat> = Seq::new(n as nat, |v: int| 0nat);
        let ghost mut clock: nat = 1;
        let mut queue = MinQueue::new();
        queue.push(RouterNode::new(start, 0, 0));
        proof {
            self.lemma_search_init(start, cost@, prev@, stamp, queue@, goal_id);
        }
        while !queue.is_empty()
            invariant
                self.graph.wf(),
                is_metric(self.metric),
                n == self.graph.nodes@.len(),
                start < n,
                goal < n,
                goal_id == self.graph.nodes@[goal as int].id,
                cost@.len() == n,
                prev@.len() == n,
                stamp.len() == n,
                cost@[start as int] == 0,
                self.prev_ok(start as int, cost@, prev@, stamp),
                forall|v: int| 0 <= v < stamp.len() ==> #[trigger] stamp[v] < clock,
                self.queue_ok(cost@, queue@),
                queue.wf(),
                self.settled(goal_id, cost@, queue@, -1),
            decreases total(cost@), queue@.len(),
        {
            let ghost total0 = total(cost@);
            let ghost q0 = queue@;
            let node = queue.pop().unwrap();
            proof {
                self.lemma_pop_settled(goal_id, cost@, q0, node);
            }
            let u = node.index;
            if self.graph.nodes[u].id == goal_id {
                let es = self.backtrack(start, u, &cost, &prev, Ghost(stamp));
                proof {
                    if self.is_dijkstra() {
                        self.lemma_popped_shortest(start as int, goal as int, cost@, q0, node, es@);
                    }
                }
                assert(is_trail(self.graph.edges@, es@, u as int, start as int, self.mode));
                assert(self.graph.nodes@[u as int].id == self.graph.nodes@[goal as int].id);
                assert(u < self.graph.nodes@.len());
                assert(self.leads_to_goal(es@, start as int, goal as int));
                return Ok(es);
            }
            if node.cost > cost[u] {
                continue;
            }
            let r = self.expand(
                u,
                node.cost,
                goal,
                Ghost(goal_id),
                Ghost(start as int),
                &mut cost,
                &mut prev,
                &mut queue,
                Ghost(stamp),
                Ghost(clock),
            );
            proof {
                stamp = r.0@;
                clock = r.1@;
            }
        }
        proof {
            self.lemma_search_done(start as int, goal_id, cost@, queue@);
        }
        Err(RouteError::NoPath)
    }

    /// `es` is a trail, open to the mode, from node `start` to a node with
    /// the id of node `goal`.
    pub open spec fn leads_to_goal(&self, es: Seq<usize>, start: int, goal: int) -> bool {
        exists|t: int|
            0 <= t < self.graph.nodes@.len() && self.graph.nodes@[t].id == self.graph.nodes@[goal].id
                && #[trigger] is_trail(self.graph.edges@, es, t, start, self.mode)
    }

    /// `route` is what the trail `es` from node `start` spells: the positions
    /// of the nodes from the trail's end back to `start`, and its length and
    /// time, each capped at `u32::MAX`.
    pub open spec fn spells(&self, es: Seq<usize>, start: int, route: Route) -> bool {
        let edges = self.graph.edges@;
        let nodes = self.graph.nodes@;
        &&& route.path@.len() == es.len() + 1
        &&& forall|i: int|
            0 <= i < es.len() ==> route.path@[i] == nodes[edges[#[trigger] es[i] as int].target_index as int].coordinates
        &&& route.path@[es.len() as int] == nodes[start].coordinates
        &&& route.distance == sat(trail_distance(edges, es))
        &&& route.time == sat(trail_time(edges, es, self.mode))
        &&& route.visited_charging is None
    }

    /// The route that trail `es` from node `start` spells.
    pub fn route_of(&self, start: usize, es: &Vec<usize>) -> (r: Route)
        requires
            self.graph.wf(),
            self.mode == Transport::Car || self.mode == Transport::Bike,
            start < self.graph.nodes@.len(),
            forall|i: int| 0 <= i < es@.len() ==> (#[trigger] es@[i] as int) < self.graph.edges@.len(),
        ensures
            self.spells(es@, start as int, r),
    {
        let ghost edges = self.graph.edges@;
        let mut path: Vec<Coordinates> = Vec::new();
        let mut distance: u32 = 0;
        let mut time: u32 = 0;
        let mut i: usize = 0;
        while i < es.len()
            invariant
                self.graph.wf(),
                edges == self.graph.edges@,
                start < self.graph.nodes@.len(),
                forall|j: int| 0 <= j < es@.len() ==> (#[trigger] es@[j] as int) < edges.len(),
                i <= es@.len(),
                path@.len() == i,
                forall|j: int|
                    0 <= j < i ==> path@[j] == self.graph.nodes@[edges[#[trigger] es@[j] as int].target_index as int].coordinates,
                distance == sat(trail_distance(edges, es@.subrange(0, i as int))),
                self.mode == Transport::Car || self.mode == Transport::Bike,
                time == sat(trail_time(edges, es@.subrange(0, i as int), self.mode)),
            decreases es@.len() - i,
        {
            let e = self.graph.edges[es[i]];
            assert(e.target_index < self.graph.nodes@.len());
            path.push(self.graph.nodes[e.target_index].coordinates);
            proof {
                lemma_trail_sums_push(edges, es@.subrange(0, i as int), es@[i as int], self.mode, self.routing);
                assert(es@.subrange(0, i as int).push(es@[i as int]) =~= es@.subrange(0, i + 1));
            }
            distance = distance.saturating_add(e.distance);
            time = time.saturating_add(e.time(self.mode));
            i = i + 1;
        }
        path.push(self.graph.nodes[start].coordinates);
        assert(es@.subrange(0, es@.len() as int) =~= es@);
        Route::new(path, time, distance, None)
    }

    /// The router answers with `route` for the nodes `s` and `gl` that start
    /// and goal snap to: a trail from `s` to a node with `gl`'s id, the
    /// cheapest one when the heuristic is zero, and the route it spells.
    pub open spec fn answers(&self, s: int, gl: int, es: Seq<usize>, route: Route) -> bool {
        &&& 0 <= s < self.graph.nodes@.len()
        &&& 0 <= gl < self.graph.nodes@.len()
        &&& self.graph.serves(s, self.mode)
        &&& self.graph.serves(gl, self.mode)
        &&& self.graph.nodes@[s].id != self.graph.nodes@[gl].id
        &&& self.leads_to_goal(es, s, gl)
        &&& self.is_dijkstra() ==> self.shortest(es, s, gl)
        &&& self.spells(es, s, route)
    }

    /// How `shortest_path(start, goal)` fails, if it does: a failed snap (the
    /// start's first), snaps to nodes of one id, or no trail between them.
    #[verifier::opaque]
    pub open spec fn path_error(&self, start: Coordinates, goal: Coordinates) -> Option<RouteError> {
        match self.graph.snap(start, self.mode, self.metric) {
            Err(e) => Some(e),
            Ok(s) => match self.graph.snap(goal, self.mode, self.metric) {
                Err(e) => Some(e),
                Ok(gl) => if self.graph.nodes@[s as int].id == self.graph.nodes@[gl as int].id {
                    Some(RouteError::StartIsGoal)
                } else if self.unreachable(s as int, gl as int) {
                    Some(RouteError::NoPath)
                } else {
                    None
                },
            },
        }
    }

    /// `route` answers a query from `start` to `goal`: it is spelt by a trail
    /// from the node `start` snaps to, to a node with the id of the node
    /// `goal` snaps to (the cheapest such trail when the heuristic is zero).
    #[verifier::opaque]
    pub open spec fn path_answer(&self, start: Coordinates, goal: Coordinates, route: Route) -> bool {
        match (self.graph.snap(start, self.mode, self.metric), self.graph.snap(goal, self.mode, self.metric)) {
            (Ok(s), Ok(gl)) => exists|es: Seq<usize>| #[trigger] self.answers(s as int, gl as int, es, route),
            _ => false,
        }
    }

    /// No trail open to the mode from node `s` to a node with the id of node
    /// `gl` costs less than `u32::MAX`.
    pub open spec fn unreachable(&self, s: int, gl: int) -> bool {
        forall|es: Seq<usize>, t: int|
            0 <= t < self.graph.nodes@.len() && self.graph.nodes@[t].id == self.graph.nodes@[gl].id
                && #[trigger] is_trail(self.graph.edges@, es, t, s, self.mode) ==> trail_cost(
                self.graph.edges@,
                es,
                self.mode,
                self.routing,
            ) >= u32::MAX
    }

    /// A router over `graph` for `mode`, minimising `routing`, with `metric`
    /// for straight-line distances.
    pub fn new(graph: &'a Graph, mode: Transport, routing: Routing, metric: D) -> (r: Self)
        ensures
            r.graph == graph,
            r.mode == mode,
            r.routing == routing,
            r.metric == metric,
    {
        Router { graph, mode, routing, metric }
    }

    /// The route from the node `start` snaps to, to the node `goal` snaps to,
    /// for the mode, listed from the goal back to the start. A failed snap is
    /// passed on (the start's first), snaps to nodes of one id give
    /// `StartIsGoal`, and `NoPath` comes exactly when no trail open to the
    /// mode joins them at a cost under `u32::MAX`. When a car routes by time
    /// the heuristic is zero and the route is the cheapest; otherwise the
    /// straight-line heuristic comes from the metric, which need not be
    /// consistent with rounded edge lengths, and no optimality is claimed.
    pub fn shortest_path(&self, start: &Coordinates, goal: &Coordinates) -> (r: Result<Route, RouteError>)
        requires
            self.graph.wf(),
            self.mode == Transport::Car || self.mode == Transport::Bike,
            is_metric(self.metric),
        ensures
            match self.path_error(*start, *goal) {
                Some(e) => r == Err::<Route, RouteError>(e),
                None => r matches Ok(route) && self.path_answer(*start, *goal, route),
            },
            r matches Ok(route) ==> route.visited_charging is None && route.path@.len() >= 1,
    {
        proof {
            reveal(Router::path_error);
            reveal(Router::path_answer);
        }
        let s = match self.graph.nearest_neighbor(start, self.mode, &self.metric) {
            Ok(s) => s,
            Err(e) => {
                return Err(e);
            },
        };
        let gl = match self.graph.nearest_neighbor(goal, self.mode, &self.metric) {
            Ok(gl) => gl,
            Err(e) => {
                return Err(e);
            },
        };
        if self.graph.nodes[s].id == self.graph.nodes[gl].id {
            return Err(RouteError::StartIsGoal);
        }
        match self.search(s, gl) {
            Ok(es) => {
                proof {
                    let t = choose|t: int|
                        0 <= t < self.graph.nodes@.len() && self.graph.nodes@[t].id
                            == self.graph.nodes@[gl as int].id && #[trigger] is_trail(
                            self.graph.edges@,
                            es@,
                            t,
                            s as int,
                            self.mode,
                        );
                    assert(is_trail(self.graph.edges@, es@, t, s as int, self.mode));
                    assert(!self.unreachable(s as int, gl as int));
                }
                let route = self.route_of(s, &es);
                assert(self.answers(s as int, gl as int, es@, route));
                Ok(route)
            },
            Err(e) => {
                assert(self.unreachable(s as int, gl as int));
                Err(e)
            },
        }
    }

    /// The length of a route that the router answers with is the sum of the
    /// lengths of the edges it follows (capped at `u32::MAX`), and its time
    /// the sum of their times.
    pub proof fn lemma_route_distance_is_edge_sum(&self, s: int, gl: int, es: Seq<usize>, route: Route)
        requires
            self.answers(s, gl, es, route),
        ensures
            route.distance == sat(trail_distance(self.graph.edges@, es)),
            route.time == sat(trail_time(self.graph.edges@, es, self.mode)),
    {
    }

    /// Every edge of a route that the router answers with is open to the
    /// query's mode.
    pub proof fn lemma_route_edges_admit_mode(&self, s: int, gl: int, es: Seq<usize>, route: Route)
        requires
            self.answers(s, gl, es, route),
        ensures
            forall|i: int|
                0 <= i < es.len() ==> transport_admits(
                    self.graph.edges@[#[trigger] es[i] as int].transport,
                    self.mode,
                ),
    {
        let t = choose|t: int|
            0 <= t < self.graph.nodes@.len() && self.graph.nodes@[t].id == self.graph.nodes@[gl].id
                && #[trigger] is_trail(self.graph.edges@, es, t, s, self.mode);
        assert forall|i: int| 0 <= i < es.len() implies transport_admits(
            self.graph.edges@[#[trigger] es[i] as int].transport,
            self.mode,
        ) by {
            assert((es[i] as int) < self.graph.edges@.len());
        }
    }

    /// The queue holds known nodes at no less than their cost.
    #[verifier::opaque]
    pub open spec fn queue_ok(&self, cost: Seq<u32>, q: Multiset<RouterNode>) -> bool {
        forall|e: RouterNode|
            #[trigger] q.contains(e) ==> e.index < cost.len() && cost[e.index as int] <= e.cost
                < u32::MAX && (self.is_dijkstra() ==> e.heuristic == 0)
    }

    /// The heuristic is zero: a car routing by time, where A* is Dijkstra's
    /// algorithm.
    pub open spec fn is_dijkstra(&self) -> bool {
        self.mode == Transport::Car && self.routing == Routing::Time
    }

    /// No trail open to the mode from node `s` to a node with the id of node
    /// `gl` costs less than the trail `es`.
    pub open spec fn shortest(&self, es: Seq<usize>, s: int, gl: int) -> bool {
        forall|other: Seq<usize>, t: int|
            0 <= t < self.graph.nodes@.len() && self.graph.nodes@[t].id == self.graph.nodes@[gl].id
                && #[trigger] is_trail(self.graph.edges@, other, t, s, self.mode) ==> trail_cost(
                self.graph.edges@,
                es,
                self.mode,
                self.routing,
            ) <= trail_cost(self.graph.edges@, other, self.mode, self.routing)
    }
}

} // verus!
