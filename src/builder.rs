//! Building the road graph from OpenStreetMap objects, in three passes: the
//! charging stations, the ways (which number the nodes they use and emit the
//! edges), and the nodes' positions. `create_graph` then lays the edges out.
use std::collections::HashMap;

use vstd::prelude::*;

use crate::graph::{csr_wf, ChargingNode, Edge, Graph, Node};
use crate::grid;
use crate::slots::{slot_bound, slot_nodes, slots_get, slots_insert, slots_with_capacity, NodeTable};
use crate::highway::{default_speed_of, way_highway, way_max_speed, Highway, Kmh};
use crate::options::{transport_of, ChargingOptions, Transport};
use crate::osm::{
    amenity_bytes, bicycle_bytes, car_bytes, charging_station_bytes, has_tag, is_oneway,
    tags_contain, way_is_oneway, word_amenity, word_bicycle, word_car, word_charging_station,
    word_yes, yes_bytes, is_metric, measure, Coordinates, OsmNode, OsmWay,
};

verus! {

broadcast use vstd::std_specs::hash::group_hash_axioms;

/// Why the graph could not be built.
#[derive(Debug, Clone, Copy, PartialEq, Eq, Structural)]
pub enum BuildError {
    /// A way uses a node id for which no node was read.
    MissingNode,
    /// The ways number more nodes than a node table can hold (`isize::MAX`).
    TooManyNodes,
}

/// The state of an ingest: the dense index of every node id that a way uses,
/// the charging stations, the out-edges of each node index, and, once the
/// third pass has begun, the nodes read so far by index.
pub struct Pbf {
    pub node_indices: HashMap<i64, usize>,
    pub charging_nodes: Vec<ChargingNode>,
    pub buckets: Vec<Vec<Edge>>,
    pub nodes: Option<NodeTable>,
    pub slots: usize,
}

/// What a charging station's `car` and `bicycle` tags say it charges; both or
/// neither mean both.
pub open spec fn station_options(node: OsmNode) -> ChargingOptions {
    let car = has_tag(node.tags@, word_car(), word_yes());
    let bike = has_tag(node.tags@, word_bicycle(), word_yes());
    if car && !bike {
        ChargingOptions::Car
    } else if bike && !car {
        ChargingOptions::Bike
    } else {
        ChargingOptions::CarBike
    }
}

/// The node is tagged `amenity=charging_station`.
pub open spec fn is_station(node: OsmNode) -> bool {
    has_tag(node.tags@, word_amenity(), word_charging_station())
}

/// The speed of a way of class `h`: the one it posts, else the class default.
pub open spec fn way_speed(way: OsmWay, h: Highway) -> u32 {
    match way_max_speed(way) {
        Some(s) => s,
        None => default_speed_of(h),
    }
}

/// Bucket `s` holds an edge to `t` open to `tr` at speed `sp`.
pub open spec fn has_edge(buckets: Seq<Vec<Edge>>, s: int, t: int, tr: Transport, sp: u32) -> bool {
    exists|j: int|
        0 <= j < buckets[s]@.len() && {
            let e = #[trigger] buckets[s]@[j];
            e.target_index == t && e.transport == tr && e.max_speed.speed == sp
        }
}

/// Edge `e` is one that way `way` of class `h` emits, with node indices from
/// `m`: for some consecutive pair (a, b) of its nodes, the edge a to b, or
/// b to a when the way is not one-way; open to the class's vehicles, at the
/// way's speed, with no length yet.
pub open spec fn way_emits(m: Map<i64, usize>, way: OsmWay, h: Highway, e: Edge) -> bool {
    exists|i: int|
        1 <= i < way.nodes@.len() && {
            let a = m[way.nodes@[i - 1]];
            let b = m[#[trigger] way.nodes@[i]];
            &&& e.distance == 0
            &&& e.transport == transport_of(h)
            &&& e.max_speed.speed == way_speed(way, h)
            &&& ((e.source_index == a && e.target_index == b) || (!way_is_oneway(way)
                && e.source_index == b && e.target_index == a))
        }
}

/// The edges in `new` beyond the prefix that `old` held.
pub open spec fn added(old: Seq<Vec<Edge>>, new: Seq<Vec<Edge>>, u: int, j: int) -> bool {
    &&& 0 <= u < new.len()
    &&& 0 <= j < new[u]@.len()
    &&& (u >= old.len() || j >= old[u]@.len())
}

/// The number of edges in all buckets.
pub open spec fn total_edges(b: Seq<Vec<Edge>>) -> int
    decreases b.len(),
{
    if b.len() == 0 {
        0
    } else {
        total_edges(b.drop_last()) + b.last()@.len()
    }
}

proof fn lemma_total_edges_update(b: Seq<Vec<Edge>>, s: int, v: Vec<Edge>)
    requires
        0 <= s < b.len(),
    ensures
        total_edges(b.update(s, v)) == total_edges(b) - b[s]@.len() + v@.len(),
    decreases b.len(),
{
    if s == b.len() - 1 {
        assert(b.update(s, v).drop_last() =~= b.drop_last());
    } else {
        lemma_total_edges_update(b.drop_last(), s, v);
        assert(b.update(s, v).drop_last() =~= b.drop_last().update(s, v));
    }
}

/// Every bucket of `old` is a prefix of the same bucket in `new`.
pub open spec fn buckets_grow(old: Seq<Vec<Edge>>, new: Seq<Vec<Edge>>) -> bool {
    &&& old.len() <= new.len()
    &&& forall|u: int| 0 <= u < old.len() ==> old[u]@.len() <= (#[trigger] new[u])@.len()
    &&& forall|u: int, j: int|
        0 <= u < old.len() && 0 <= j < old[u]@.len() ==> (#[trigger] new[u]@[j]) == old[u]@[j]
}

/// Some node id has dense index `i`.
pub open spec fn index_taken(m: Map<i64, usize>, i: int) -> bool {
    exists|id: i64| #[trigger] m.contains_key(id) && m[id] == i
}

/// `new` keeps every entry of `old`.
pub open spec fn map_grows(old: Map<i64, usize>, new: Map<i64, usize>) -> bool {
    forall|id: i64| #[trigger] old.contains_key(id) ==> new.contains_key(id) && new[id] == old[id]
}

/// Two edges agree in everything but their length.
pub open spec fn same_but_distance(a: Edge, b: Edge) -> bool {
    &&& a.source_index == b.source_index
    &&& a.target_index == b.target_index
    &&& a.transport == b.transport
    &&& a.max_speed == b.max_speed
}

/// The edges of `bucket` with their lengths measured by `dist` between the
/// positions of their endpoints in `nodes`.
pub open spec fn measured<D: Fn(Coordinates, Coordinates) -> u32>(
    bucket: Seq<Edge>,
    nodes: Seq<Node>,
    dist: D,
) -> Seq<Edge> {
    Seq::new(
        bucket.len(),
        |j: int|
            Edge {
                source_index: bucket[j].source_index,
                target_index: bucket[j].target_index,
                transport: bucket[j].transport,
                distance: measure(
                    dist,
                    nodes[bucket[j].source_index as int].coordinates,
                    nodes[bucket[j].target_index as int].coordinates,
                ),
                max_speed: bucket[j].max_speed,
            },
    )
}

/// The edges of the first `u` buckets are laid out in compressed-sparse-row
/// order: sorted by target within each node, lengths measured by `dist`.
#[verifier::opaque]
pub open spec fn laid_out<D: Fn(Coordinates, Coordinates) -> u32>(
    buckets: Seq<Vec<Edge>>,
    nodes: Seq<Node>,
    u: int,
    offsets: Seq<usize>,
    edges: Seq<Edge>,
    dist: D,
) -> bool {
    &&& offsets.len() == u + 1
    &&& offsets[0] == 0
    &&& offsets[u] == edges.len()
    &&& forall|a: int, b: int| 0 <= a <= b <= u ==> offsets[a] <= offsets[b]
    &&& forall|w: int| 0 <= w < u ==> offsets[w + 1] - offsets[w] == (#[trigger] buckets[w])@.len()
    &&& forall|k: int|
        0 <= k < edges.len() ==> {
            let s = (#[trigger] edges[k]).source_index as int;
            &&& 0 <= s < u
            &&& edges[k].target_index < buckets.len()
            &&& offsets[s] <= k < offsets[s + 1]
            &&& exists|j: int|
                0 <= j < buckets[s]@.len() && same_but_distance(edges[k], #[trigger] buckets[s]@[j])
            &&& dist.ensures(
                (nodes[s].coordinates, nodes[edges[k].target_index as int].coordinates),
                edges[k].distance,
            )
        }
    &&& forall|k1: int, k2: int|
        0 <= k1 <= k2 < edges.len() && (#[trigger] edges[k1]).source_index == (
        #[trigger] edges[k2]).source_index ==> edges[k1].target_index <= edges[k2].target_index
    &&& forall|w: int|
        0 <= w < u ==> edges.subrange(offsets[w] as int, offsets[w + 1] as int).to_multiset()
            == measured((#[trigger] buckets[w])@, nodes, dist).to_multiset()
}

/// The charging stations among `nodes`, in order, as the first pass records them.
pub open spec fn stations_of(nodes: Seq<OsmNode>) -> Seq<ChargingNode>
    decreases nodes.len(),
{
    if nodes.len() == 0 {
        Seq::empty()
    } else {
        let n = nodes.last();
        stations_of(nodes.drop_last()) + if is_station(n) {
            seq![ChargingNode { id: n.id, coordinates: n.coordinates, charging_options: station_options(n) }]
        } else {
            Seq::empty()
        }
    }
}

/// Some node of `nodes` has id `id`.
pub open spec fn has_node(nodes: Seq<OsmNode>, id: i64) -> bool {
    exists|m: int| 0 <= m < nodes.len() && #[trigger] nodes[m].id == id
}

/// A way of a known road class among `ways` uses node id `id`.
pub open spec fn road_uses(ways: Seq<OsmWay>, id: i64) -> bool {
    exists|w: int| 0 <= w < ways.len() && way_highway(#[trigger] ways[w]) is Some && ways[w].nodes@.contains(id)
}

/// `ids` added in order to the distinct ids `fs`: each id not yet among
/// them is appended.
pub open spec fn see_all(fs: Seq<i64>, ids: Seq<i64>) -> Seq<i64>
    decreases ids.len(),
{
    if ids.len() == 0 {
        fs
    } else {
        let p = see_all(fs, ids.drop_last());
        if p.contains(ids.last()) {
            p
        } else {
            p.push(ids.last())
        }
    }
}

/// The distinct node ids that the first `j` ways of a known road class use,
/// in order of first use.
pub open spec fn road_seen(ways: Seq<OsmWay>, j: int) -> Seq<i64>
    decreases j,
{
    if j <= 0 {
        Seq::empty()
    } else {
        let p = road_seen(ways, j - 1);
        if way_highway(ways[j - 1]) is Some {
            see_all(p, ways[j - 1].nodes@)
        } else {
            p
        }
    }
}

/// Numbering `m` gives the `i`-th id of `fs` index `i`, and numbers no other.
pub open spec fn numbered_as(m: Map<i64, usize>, fs: Seq<i64>) -> bool {
    &&& forall|i: int| 0 <= i < fs.len() ==> m.contains_key(#[trigger] fs[i]) && m[fs[i]] == i
    &&& forall|id: i64| #[trigger] m.contains_key(id) ==> fs.contains(id)
}

/// The graph has an edge from the node with id `a` to the node with id `b`,
/// open to `tr`, at speed `sp`, with its length measured by `dist`.
pub open spec fn joins<D: Fn(Coordinates, Coordinates) -> u32>(
    g: Graph,
    a: i64,
    b: i64,
    tr: Transport,
    sp: u32,
    dist: D,
) -> bool {
    exists|k: int|
        0 <= k < g.edges@.len() && {
            let e = #[trigger] g.edges@[k];
            &&& g.nodes@[e.source_index as int].id == a
            &&& g.nodes@[e.target_index as int].id == b
            &&& e.transport == tr
            &&& e.max_speed.speed == sp
            &&& e.distance == measure(
                dist,
                g.nodes@[e.source_index as int].coordinates,
                g.nodes@[e.target_index as int].coordinates,
            )
        }
}

/// The buckets hold, under numbering `m`, the edges of every consecutive node
/// pair of the first `j` ways of a known road class: both ways unless one-way.
pub open spec fn pairs_laid(buckets: Seq<Vec<Edge>>, m: Map<i64, usize>, ways: Seq<OsmWay>, j: int) -> bool {
    forall|w: int, i: int|
        #![trigger ways[w].nodes@[i]]
        0 <= w < j && way_highway(ways[w]) is Some && 1 <= i < ways[w].nodes@.len() ==> {
            let h = way_highway(ways[w])->0;
            let a = m[ways[w].nodes@[i - 1]] as int;
            let b = m[ways[w].nodes@[i]] as int;
            &&& has_edge(buckets, a, b, transport_of(h), way_speed(ways[w], h))
            &&& !way_is_oneway(ways[w]) ==> has_edge(buckets, b, a, transport_of(h), way_speed(ways[w], h))
        }
}

/// The node ids that ways of a known road class use.
pub open spec fn road_ids(ways: Seq<OsmWay>) -> Set<i64> {
    Set::new(|id: i64| road_uses(ways, id))
}

/// A way of a known road class uses a node id for which `nodes` holds no node.
pub open spec fn node_missing(nodes: Seq<OsmNode>, ways: Seq<OsmWay>) -> bool {
    exists|id: i64| #[trigger] road_uses(ways, id) && !has_node(nodes, id)
}

proof fn lemma_pair_joined<D: Fn(Coordinates, Coordinates) -> u32>(
    fin: Pbf,
    g: Graph,
    dist: D,
    x: i64,
    y: i64,
    tr: Transport,
    sp: u32,
)
    requires
        fin.wf(),
        fin.numbering_ok(),
        fin.node_indices@.contains_key(x),
        fin.node_indices@.contains_key(y),
        has_edge(fin.buckets@, fin.node_indices@[x] as int, fin.node_indices@[y] as int, tr, sp),
        g.wf(),
        g.nodes@.len() == fin.buckets@.len(),
        forall|i: int| 0 <= i < g.nodes@.len() ==> fin.node_at(i) == Some(#[trigger] g.nodes@[i]),
        forall|v: int|
            #![trigger fin.node_at(v)]
            fin.node_at(v) is Some ==> fin.node_indices@.contains_key(fin.node_at(v)->0.id)
                && fin.node_indices@[fin.node_at(v)->0.id] == v,
        forall|w: int|
            0 <= w < g.nodes@.len() ==> g.edges@.subrange(g.offsets@[w] as int, g.offsets@[w + 1] as int).to_multiset()
                == measured((#[trigger] fin.buckets@[w])@, g.nodes@, dist).to_multiset(),
    ensures
        joins(g, x, y, tr, sp, dist),
{
    broadcast use vstd::seq_lib::group_to_multiset_ensures;

    let a = fin.node_indices@[x] as int;
    let b = fin.node_indices@[y] as int;
    let jj = choose|jj: int|
        0 <= jj < fin.buckets@[a]@.len() && {
            let e = #[trigger] fin.buckets@[a]@[jj];
            e.target_index == b && e.transport == tr && e.max_speed.speed == sp
        };
    let e = fin.buckets@[a]@[jj];
    assert(e.source_index == a);
    let ms = measured(fin.buckets@[a]@, g.nodes@, dist);
    let me = ms[jj];
    assert(ms.contains(me));
    let slice = g.edges@.subrange(g.offsets@[a] as int, g.offsets@[a + 1] as int);
    assert(ms.to_multiset().count(me) > 0);
    assert(slice.contains(me));
    let p = choose|p: int| 0 <= p < slice.len() && slice[p] == me;
    assert(g.offsets@[a] <= g.offsets@[a + 1] <= g.offsets@[g.nodes@.len() as int]);
    let k = g.offsets@[a] + p;
    assert(g.edges@[k] == me);
    assert(fin.node_at(a) == Some(g.nodes@[a]));
    assert(fin.node_at(b) == Some(g.nodes@[b]));
    assert(fin.node_indices@[g.nodes@[a].id] == a);
    assert(fin.node_indices@[g.nodes@[b].id] == b);
}

proof fn lemma_laid_out_csr<D: Fn(Coordinates, Coordinates) -> u32>(
    buckets: Seq<Vec<Edge>>,
    nodes: Seq<Node>,
    offsets: Seq<usize>,
    edges: Seq<Edge>,
    dist: D,
)
    requires
        laid_out(buckets, nodes, buckets.len() as int, offsets, edges, dist),
    ensures
        csr_wf(buckets.len() as int, offsets, edges),
        forall|w: int|
            0 <= w < buckets.len() ==> edges.subrange(offsets[w] as int, offsets[w + 1] as int).to_multiset()
                == measured((#[trigger] buckets[w])@, nodes, dist).to_multiset(),
        forall|u: int|
            0 <= u < buckets.len() ==> offsets[u + 1] - offsets[u] == (#[trigger] buckets[u])@.len(),
        forall|k: int|
            0 <= k < edges.len() ==> {
                let e = #[trigger] edges[k];
                &&& exists|j: int|
                    0 <= j < buckets[e.source_index as int]@.len() && same_but_distance(
                        e,
                        #[trigger] buckets[e.source_index as int]@[j],
                    )
                &&& dist.ensures(
                    (nodes[e.source_index as int].coordinates, nodes[e.target_index as int].coordinates),
                    e.distance,
                )
            },
{
    reveal(laid_out);
}

proof fn lemma_laid_out_empty<D: Fn(Coordinates, Coordinates) -> u32>(
    buckets: Seq<Vec<Edge>>,
    nodes: Seq<Node>,
    offsets: Seq<usize>,
    edges: Seq<Edge>,
    dist: D,
)
    requires
        offsets =~= seq![0usize],
        edges.len() == 0,
    ensures
        laid_out(buckets, nodes, 0, offsets, edges, dist),
{
    reveal(laid_out);
}

proof fn lemma_buckets_grow_trans(a: Seq<Vec<Edge>>, b: Seq<Vec<Edge>>, c: Seq<Vec<Edge>>)
    requires
        buckets_grow(a, b),
        buckets_grow(b, c),
    ensures
        buckets_grow(a, c),
{
    assert forall|u: int, j: int| 0 <= u < a.len() && 0 <= j < a[u]@.len() implies (#[trigger] c[u]@[j])
        == a[u]@[j] by {
        assert(b[u]@[j] == a[u]@[j]);
        assert(c[u]@[j] == b[u]@[j]);
    }
    assert forall|u: int| 0 <= u < a.len() implies a[u]@.len() <= (#[trigger] c[u])@.len() by {
        assert(a[u]@.len() <= b[u]@.len());
    }
}

proof fn lemma_has_edge_kept(
    a: Seq<Vec<Edge>>,
    b: Seq<Vec<Edge>>,
    s: int,
    t: int,
    tr: Transport,
    sp: u32,
)
    requires
        buckets_grow(a, b),
        0 <= s < a.len(),
        has_edge(a, s, t, tr, sp),
    ensures
        has_edge(b, s, t, tr, sp),
{
    let j = choose|j: int|
        0 <= j < a[s]@.len() && {
            let e = #[trigger] a[s]@[j];
            e.target_index == t && e.transport == tr && e.max_speed.speed == sp
        };
    assert(b[s]@[j] == a[s]@[j]);
}

impl Pbf {
    /// The node read for dense index `i`, if any.
    pub open spec fn node_at(&self, i: int) -> Option<Node> {
        match self.nodes {
            Some(v) => if slot_nodes(v).contains_key(i) {
                Some(slot_nodes(v)[i])
            } else {
                None
            },
            None => None,
        }
    }

    /// The ingest invariant.
    pub open spec fn wf(&self) -> bool {
        &&& forall|id: i64| #[trigger]
            self.node_indices@.contains_key(id) ==> self.node_indices@[id] < self.buckets@.len()
        &&& forall|u: int, j: int|
            0 <= u < self.buckets@.len() && 0 <= j < self.buckets@[u]@.len() ==> {
                let e = #[trigger] self.buckets@[u]@[j];
                e.source_index == u && e.target_index < self.buckets@.len()
            }
        &&& self.nodes matches Some(v) ==> slot_bound(v) == self.slots && self.slots
            <= self.buckets@.len()
    }

    /// Node ids and dense indices correspond one to one.
    pub open spec fn numbering_ok(&self) -> bool {
        &&& forall|a: i64, b: i64|
            self.node_indices@.contains_key(a) && self.node_indices@.contains_key(b) && #[trigger] self.node_indices@[a]
                == #[trigger] self.node_indices@[b] ==> a == b
        &&& forall|i: int| 0 <= i < self.buckets@.len() ==> #[trigger] index_taken(self.node_indices@, i)
    }

    /// An empty ingest.
    pub fn new() -> (r: Self)
        ensures
            r.wf(),
            r.numbering_ok(),
            r.node_indices@ == Map::<i64, usize>::empty(),
            r.charging_nodes@.len() == 0,
            r.buckets@.len() == 0,
            r.nodes is None,
    {
        Pbf {
            node_indices: HashMap::new(),
            charging_nodes: Vec::new(),
            buckets: Vec::new(),
            nodes: None,
            slots: 0,
        }
    }

    /// The first pass, one node at a time: records the node if it is a
    /// charging station.
    pub fn parse_charging_station(&mut self, node: &OsmNode)
        ensures
            final(self).charging_nodes@ == (if is_station(*node) {
                old(self).charging_nodes@.push(
                    ChargingNode {
                        id: node.id,
                        coordinates: node.coordinates,
                        charging_options: station_options(*node),
                    },
                )
            } else {
                old(self).charging_nodes@
            }),
            final(self).node_indices@ == old(self).node_indices@,
            final(self).buckets@ == old(self).buckets@,
            final(self).nodes == old(self).nodes,
            final(self).slots == old(self).slots,
    {
        let amenity = amenity_bytes();
        let station = charging_station_bytes();
        if !tags_contain(&node.tags, amenity.as_slice(), station.as_slice()) {
            return;
        }
        let yes = yes_bytes();
        let car_key = car_bytes();
        let bike_key = bicycle_bytes();
        let car = tags_contain(&node.tags, car_key.as_slice(), yes.as_slice());
        let bike = tags_contain(&node.tags, bike_key.as_slice(), yes.as_slice());
        let options = if car && !bike {
            ChargingOptions::Car
        } else if bike && !car {
            ChargingOptions::Bike
        } else {
            ChargingOptions::CarBike
        };
        self.charging_nodes.push(ChargingNode::new(node.id, node.coordinates, options));
    }

    /// The dense index of node id `id`, numbering it next (the number of ids
    /// numbered so far) if it has none yet.
    pub fn insert_node_id(&mut self, id: i64) -> (r: usize)
        requires
            old(self).wf(),
        ensures
            final(self).wf(),
            r < final(self).buckets@.len(),
            final(self).node_indices@.contains_key(id),
            final(self).node_indices@[id] == r,
            map_grows(old(self).node_indices@, final(self).node_indices@),
            buckets_grow(old(self).buckets@, final(self).buckets@),
            old(self).node_indices@.contains_key(id) ==> final(self).buckets@ == old(self).buckets@,
            !old(self).node_indices@.contains_key(id) ==> final(self).buckets@.len() == old(self).buckets@.len() + 1
                && final(self).buckets@[old(self).buckets@.len() as int]@.len() == 0 && r == old(
                self,
            ).buckets@.len(),
            forall|u: int| 0 <= u < old(self).buckets@.len() ==> #[trigger] final(self).buckets@[u] == old(self).buckets@[u],
            total_edges(final(self).buckets@) == total_edges(old(self).buckets@),
            forall|fs: Seq<i64>|
                #[trigger] numbered_as(old(self).node_indices@, fs) && old(self).buckets@.len() == fs.len()
                    ==> numbered_as(
                    final(self).node_indices@,
                    if fs.contains(id) {
                        fs
                    } else {
                        fs.push(id)
                    },
                ) && final(self).buckets@.len() == (if fs.contains(id) {
                    fs
                } else {
                    fs.push(id)
                }).len(),
            final(self).charging_nodes@ == old(self).charging_nodes@,
            final(self).nodes == old(self).nodes,
            final(self).slots == old(self).slots,
            old(self).numbering_ok() ==> final(self).numbering_ok(),
            old(self).node_indices@.len() == old(self).buckets@.len() ==> final(self).node_indices@.len()
                == final(self).buckets@.len(),
            forall|k: i64| #[trigger]
                final(self).node_indices@.contains_key(k) ==> old(self).node_indices@.contains_key(k)
                    || k == id,
    {
        match self.node_indices.get(&id) {
            Some(i) => {
                proof {
                    assert forall|fs: Seq<i64>|
                        #[trigger] numbered_as(self.node_indices@, fs) && self.buckets@.len() == fs.len()
                            implies fs.contains(id) by {}
                }
                *i
            },
            None => {
                let i = self.buckets.len();
                let ghost old_map = self.node_indices@;
                let ghost old_len = self.buckets@.len();
                let ghost b0 = self.buckets@;
                self.node_indices.insert(id, i);
                self.buckets.push(Vec::new());
                proof {
                    assert(self.buckets@.drop_last() =~= b0);
                    assert forall|fs: Seq<i64>|
                        #[trigger] numbered_as(old_map, fs) && old_len == fs.len() implies numbered_as(
                            self.node_indices@,
                            fs.push(id),
                        ) && !fs.contains(id) by {
                        if fs.contains(id) {
                            let q = choose|q: int| 0 <= q < fs.len() && fs[q] == id;
                            assert(old_map.contains_key(fs[q]));
                        }
                        let f2 = fs.push(id);
                        assert forall|q: int| 0 <= q < f2.len() implies self.node_indices@.contains_key(
                            #[trigger] f2[q],
                        ) && self.node_indices@[f2[q]] == q by {
                            if q < fs.len() {
                                assert(f2[q] == fs[q]);
                                assert(old_map.contains_key(fs[q]));
                            }
                        }
                        assert forall|k: i64| #[trigger] self.node_indices@.contains_key(k) implies f2.contains(k) by {
                            if k == id {
                                assert(f2[fs.len() as int] == id);
                            } else {
                                assert(old_map.contains_key(k));
                                let q = choose|q: int| 0 <= q < fs.len() && fs[q] == k;
                                assert(f2[q] == k);
                            }
                        }
                    }
                    assert(old_map.dom().finite());
                    assert(self.node_indices@.dom() =~= old_map.dom().insert(id));
                    if forall|a: i64, b: i64|
                        old_map.contains_key(a) && old_map.contains_key(b) && #[trigger] old_map[a]
                            == #[trigger] old_map[b] ==> a == b {
                        assert forall|a: i64, b: i64|
                            self.node_indices@.contains_key(a) && self.node_indices@.contains_key(b)
                                && #[trigger] self.node_indices@[a] == #[trigger] self.node_indices@[b]
                                implies a == b by {
                            if a != id && b != id {
                                assert(old_map[a] == self.node_indices@[a]);
                                assert(old_map[b] == self.node_indices@[b]);
                            } else if a == id && b != id {
                                assert(old_map[b] < old_len);
                            } else if b == id && a != id {
                                assert(old_map[a] < old_len);
                            }
                        }
                    }
                    if forall|x: int| 0 <= x < old_len ==> #[trigger] index_taken(old_map, x) {
                        assert forall|x: int| 0 <= x < self.buckets@.len() implies #[trigger] index_taken(
                            self.node_indices@,
                            x,
                        ) by {
                            if x < old_len {
                                assert(index_taken(old_map, x));
                                let k = choose|k: i64| #[trigger] old_map.contains_key(k) && old_map[k] == x;
                                assert(self.node_indices@.contains_key(k) && self.node_indices@[k] == x);
                            } else {
                                assert(self.node_indices@.contains_key(id) && self.node_indices@[id] == x);
                            }
                        }
                    }
                }
                let ghost b = self.buckets@;
                assert forall|u: int, j: int|
                    0 <= u < b.len() && 0 <= j < b[u]@.len() implies {
                    let e = #[trigger] b[u]@[j];
                    e.source_index == u && e.target_index < b.len()
                } by {
                    assert(u < i);
                }
                i
            },
        }
    }

    fn add_edge(&mut self, e: Edge)
        requires
            old(self).wf(),
            e.source_index < old(self).buckets@.len(),
            e.target_index < old(self).buckets@.len(),
        ensures
            final(self).wf(),
            final(self).node_indices@ == old(self).node_indices@,
            final(self).buckets@.len() == old(self).buckets@.len(),
            buckets_grow(old(self).buckets@, final(self).buckets@),
            has_edge(
                final(self).buckets@,
                e.source_index as int,
                e.target_index as int,
                e.transport,
                e.max_speed.speed,
            ),
            final(self).buckets@[e.source_index as int]@ == old(self).buckets@[e.source_index as int]@.push(e),
            total_edges(final(self).buckets@) == total_edges(old(self).buckets@) + 1,
            forall|u: int|
                0 <= u < old(self).buckets@.len() && u != e.source_index ==> (
                #[trigger] final(self).buckets@[u])@ == old(self).buckets@[u]@,
            final(self).charging_nodes@ == old(self).charging_nodes@,
            final(self).nodes == old(self).nodes,
            final(self).slots == old(self).slots,
    {
        let s = e.source_index;
        let ghost before = self.buckets@;
        self.buckets[s].push(e);
        let ghost b = self.buckets@;
        proof {
            assert(b =~= before.update(s as int, b[s as int]));
            lemma_total_edges_update(before, s as int, b[s as int]);
        }
        assert(b[s as int]@[before[s as int]@.len() as int] == e);
        assert forall|u: int, j: int|
            0 <= u < b.len() && 0 <= j < b[u]@.len() implies {
            let x = #[trigger] b[u]@[j];
            x.source_index == u && x.target_index < b.len()
        } by {
            if u != s || j < before[u]@.len() {
                assert(b[u]@[j] == before[u]@[j]);
            }
        }
        assert forall|u: int, j: int|
            0 <= u < before.len() && 0 <= j < before[u]@.len() implies (#[trigger] b[u]@[j])
            == before[u]@[j] by {}
    }

    /// The second pass, one way at a time: a way of a known road class numbers
    /// its nodes and emits an edge for each consecutive pair, and the reverse
    /// edge too unless it is one-way. Other ways are skipped.
    pub fn parse_way(&mut self, way: &OsmWay)
        requires
            old(self).wf(),
        ensures
            final(self).wf(),
            map_grows(old(self).node_indices@, final(self).node_indices@),
            buckets_grow(old(self).buckets@, final(self).buckets@),
            final(self).charging_nodes@ == old(self).charging_nodes@,
            final(self).nodes == old(self).nodes,
            final(self).slots == old(self).slots,
            way_highway(*way) is None ==> final(self).node_indices@ == old(self).node_indices@
                && final(self).buckets@ == old(self).buckets@,
            old(self).numbering_ok() ==> final(self).numbering_ok(),
            old(self).node_indices@.len() == old(self).buckets@.len() ==> final(self).node_indices@.len()
                == final(self).buckets@.len(),
            forall|k: i64| #[trigger]
                final(self).node_indices@.contains_key(k) ==> old(self).node_indices@.contains_key(k)
                    || way.nodes@.contains(k),
            forall|fs: Seq<i64>|
                #[trigger] numbered_as(old(self).node_indices@, fs) && old(self).buckets@.len() == fs.len()
                    ==> numbered_as(
                    final(self).node_indices@,
                    if way_highway(*way) is Some {
                        see_all(fs, way.nodes@)
                    } else {
                        fs
                    },
                ) && final(self).buckets@.len() == (if way_highway(*way) is Some {
                    see_all(fs, way.nodes@)
                } else {
                    fs
                }).len(),
            total_edges(final(self).buckets@) == total_edges(old(self).buckets@) + (if way_highway(
                *way,
            ) is Some && way.nodes@.len() > 0 {
                (way.nodes@.len() - 1) * (if way_is_oneway(*way) { 1int } else { 2int })
            } else {
                0int
            }),
            forall|u: int, j: int|
                #[trigger] added(old(self).buckets@, final(self).buckets@, u, j) ==> way_highway(*way) is Some
                    && way_emits(
                    final(self).node_indices@,
                    *way,
                    way_highway(*way)->0,
                    final(self).buckets@[u]@[j],
                ),
            way_highway(*way) matches Some(h) ==> {
                &&& forall|i: int|
                    0 <= i < way.nodes@.len() ==> final(self).node_indices@.contains_key(
                        #[trigger] way.nodes@[i],
                    )
                &&& forall|i: int|
                    1 <= i < way.nodes@.len() ==> {
                        let a = final(self).node_indices@[way.nodes@[i - 1]] as int;
                        let b = final(self).node_indices@[#[trigger] way.nodes@[i]] as int;
                        &&& has_edge(final(self).buckets@, a, b, transport_of(h), way_speed(*way, h))
                        &&& !way_is_oneway(*way) ==> has_edge(
                            final(self).buckets@,
                            b,
                            a,
                            transport_of(h),
                            way_speed(*way, h),
                        )
                    }
            },
    {
        let highway = match Highway::from(way) {
            Some(h) => h,
            None => return,
        };
        if way.nodes.len() == 0 {
            assert(way.nodes@ =~= Seq::<i64>::empty());
            return;
        }
        let transport = Transport::from(highway);
        let max_speed = match Kmh::from(way) {
            Some(s) => s,
            None => match highway.default_speed() {
                Some(s) => s,
                None => Kmh::new(0),
            },
        };
        let oneway = is_oneway(way);
        let ghost sp = way_speed(*way, highway);
        assert(max_speed.speed == sp);
        let ghost start = *self;
        let mut prev = self.insert_node_id(way.nodes[0]);
        assert(way.nodes@.contains(way.nodes@[0]));
        proof {
            assert forall|fs: Seq<i64>|
                #[trigger] numbered_as(start.node_indices@, fs) && start.buckets@.len() == fs.len()
                    implies numbered_as(self.node_indices@, see_all(fs, way.nodes@.subrange(0, 1)))
                    && self.buckets@.len() == see_all(fs, way.nodes@.subrange(0, 1)).len() by {
                let sub = way.nodes@.subrange(0, 1);
                assert(sub.drop_last() =~= Seq::<i64>::empty());
                assert(sub.last() == way.nodes@[0]);
                assert(see_all(fs, Seq::<i64>::empty()) == fs);
            }
        }
        assert forall|u: int, j: int| #[trigger] added(start.buckets@, self.buckets@, u, j) implies false by {
            if u >= start.buckets@.len() {
                assert(self.buckets@[u]@.len() == 0);
            }
        }
        let mut i: usize = 1;
        while i < way.nodes.len()
            invariant
                self.wf(),
                1 <= i <= way.nodes@.len(),
                transport == transport_of(highway),
                max_speed.speed == sp,
                oneway == way_is_oneway(*way),
                map_grows(start.node_indices@, self.node_indices@),
                buckets_grow(start.buckets@, self.buckets@),
                start.numbering_ok() ==> self.numbering_ok(),
                start.node_indices@.len() == start.buckets@.len() ==> self.node_indices@.len()
                    == self.buckets@.len(),
                forall|fs: Seq<i64>|
                    #[trigger] numbered_as(start.node_indices@, fs) && start.buckets@.len() == fs.len()
                        ==> numbered_as(self.node_indices@, see_all(fs, way.nodes@.subrange(0, i as int)))
                        && self.buckets@.len() == see_all(fs, way.nodes@.subrange(0, i as int)).len(),
                total_edges(self.buckets@) == total_edges(start.buckets@) + (i - 1) * (if oneway {
                    1int
                } else {
                    2int
                }),
                forall|k: i64| #[trigger]
                    self.node_indices@.contains_key(k) ==> start.node_indices@.contains_key(k)
                        || way.nodes@.contains(k),
                way_highway(*way) == Some(highway),
                forall|u: int, j: int|
                    #[trigger] added(start.buckets@, self.buckets@, u, j) ==> exists|x: int|
                        1 <= x < i && {
                            let a = self.node_indices@[way.nodes@[x - 1]];
                            let b = self.node_indices@[#[trigger] way.nodes@[x]];
                            let e = self.buckets@[u]@[j];
                            &&& e.distance == 0
                            &&& e.transport == transport
                            &&& e.max_speed.speed == sp
                            &&& ((e.source_index == a && e.target_index == b) || (!oneway
                                && e.source_index == b && e.target_index == a))
                        },
                self.charging_nodes@ == start.charging_nodes@,
                self.nodes == start.nodes,
                self.slots == start.slots,
                self.node_indices@.contains_key(way.nodes@[i - 1]),
                prev == self.node_indices@[way.nodes@[i - 1]],
                forall|k: int|
                    0 <= k < i ==> self.node_indices@.contains_key(#[trigger] way.nodes@[k]),
                forall|k: int|
                    1 <= k < i ==> {
                        let a = self.node_indices@[way.nodes@[k - 1]] as int;
                        let b = self.node_indices@[#[trigger] way.nodes@[k]] as int;
                        &&& 0 <= a < self.buckets@.len()
                        &&& 0 <= b < self.buckets@.len()
                        &&& has_edge(self.buckets@, a, b, transport, sp)
                        &&& !oneway ==> has_edge(self.buckets@, b, a, transport, sp)
                    },
            decreases way.nodes@.len() - i,
        {
            let ghost s0 = *self;
            let target = self.insert_node_id(way.nodes[i]);
            assert(way.nodes@.contains(way.nodes@[i as int]));
            let ghost s1n = *self;
            proof {
                assert forall|fs: Seq<i64>|
                    #[trigger] numbered_as(start.node_indices@, fs) && start.buckets@.len() == fs.len()
                        implies numbered_as(self.node_indices@, see_all(fs, way.nodes@.subrange(0, i + 1)))
                        && self.buckets@.len() == see_all(fs, way.nodes@.subrange(0, i + 1)).len() by {
                    let p = see_all(fs, way.nodes@.subrange(0, i as int));
                    assert(numbered_as(s0.node_indices@, p));
                    let sub = way.nodes@.subrange(0, i + 1);
                    assert(sub.drop_last() =~= way.nodes@.subrange(0, i as int));
                    assert(sub.last() == way.nodes@[i as int]);
                }
            }
            let ghost s1 = *self;
            let forward = Edge::new(prev, target, transport, 0, max_speed);
            if !oneway {
                let reverse = Edge::new(target, prev, transport, 0, max_speed);
                self.add_edge(reverse);
            }
            let ghost s2 = *self;
            self.add_edge(forward);
            proof {
                lemma_buckets_grow_trans(s0.buckets@, s1.buckets@, s2.buckets@);
                lemma_buckets_grow_trans(s0.buckets@, s2.buckets@, self.buckets@);
                lemma_buckets_grow_trans(start.buckets@, s0.buckets@, self.buckets@);
                if !oneway {
                    lemma_has_edge_kept(s2.buckets@, self.buckets@, target as int, prev as int, transport, sp);
                }
                assert forall|k: int|
                    1 <= k < i + 1 implies {
                        let a = self.node_indices@[way.nodes@[k - 1]] as int;
                        let b = self.node_indices@[#[trigger] way.nodes@[k]] as int;
                        &&& 0 <= a < self.buckets@.len()
                        &&& 0 <= b < self.buckets@.len()
                        &&& has_edge(self.buckets@, a, b, transport, sp)
                        &&& !oneway ==> has_edge(self.buckets@, b, a, transport, sp)
                    } by {
                    if k < i {
                        let a = s0.node_indices@[way.nodes@[k - 1]] as int;
                        let b = s0.node_indices@[way.nodes@[k]] as int;
                        assert(s0.node_indices@.contains_key(way.nodes@[k - 1]));
                        assert(s0.node_indices@.contains_key(way.nodes@[k]));
                        lemma_has_edge_kept(s0.buckets@, self.buckets@, a, b, transport, sp);
                        if !oneway {
                            lemma_has_edge_kept(s0.buckets@, self.buckets@, b, a, transport, sp);
                        }
                    }
                }
                assert forall|k: int|
                    0 <= k < i + 1 implies self.node_indices@.contains_key(#[trigger] way.nodes@[k]) by {
                    if k < i {
                        assert(s0.node_indices@.contains_key(way.nodes@[k]));
                    }
                }
                assert forall|u: int, j: int|
                    #[trigger] added(start.buckets@, self.buckets@, u, j) implies exists|x: int|
                        1 <= x < i + 1 && {
                            let a = self.node_indices@[way.nodes@[x - 1]];
                            let b = self.node_indices@[#[trigger] way.nodes@[x]];
                            let e = self.buckets@[u]@[j];
                            &&& e.distance == 0
                            &&& e.transport == transport
                            &&& e.max_speed.speed == sp
                            &&& ((e.source_index == a && e.target_index == b) || (!oneway
                                && e.source_index == b && e.target_index == a))
                        } by {
                    let e = self.buckets@[u]@[j];
                    assert(self.node_indices@[way.nodes@[i - 1]] == prev);
                    assert(self.node_indices@[way.nodes@[i as int]] == target);
                    if added(start.buckets@, s0.buckets@, u, j) {
                        assert(e == s0.buckets@[u]@[j]);
                        let x = choose|x: int|
                            1 <= x < i && {
                                let a = s0.node_indices@[way.nodes@[x - 1]];
                                let b = s0.node_indices@[#[trigger] way.nodes@[x]];
                                let e0 = s0.buckets@[u]@[j];
                                &&& e0.distance == 0
                                &&& e0.transport == transport
                                &&& e0.max_speed.speed == sp
                                &&& ((e0.source_index == a && e0.target_index == b) || (!oneway
                                    && e0.source_index == b && e0.target_index == a))
                            };
                        assert(s0.node_indices@.contains_key(way.nodes@[x - 1]));
                        assert(s0.node_indices@.contains_key(way.nodes@[x]));
                        assert(self.node_indices@[way.nodes@[x - 1]] == s0.node_indices@[way.nodes@[x - 1]]);
                        assert(self.node_indices@[way.nodes@[x]] == s0.node_indices@[way.nodes@[x]]);
                    } else {
                        assert(u >= s0.buckets@.len() || j >= s0.buckets@[u]@.len());
                        if u >= s0.buckets@.len() {
                            assert(s1.buckets@[u]@.len() == 0);
                        }
                        assert(j >= s1.buckets@[u]@.len());
                        if u == prev && j == s2.buckets@[u]@.len() {
                            assert(e == forward);
                        } else {
                            assert(j < s2.buckets@[u]@.len());
                            assert(e == s2.buckets@[u]@[j]);
                            assert(!oneway && u == target);
                            assert(e == (Edge {
                                source_index: target,
                                target_index: prev,
                                transport,
                                distance: 0,
                                max_speed,
                            }));
                        }
                    }
                }
            }
            prev = target;
            i = i + 1;
        }
        assert(way.nodes@.subrange(0, way.nodes@.len() as int) =~= way.nodes@);
    }

    /// The third pass, one node at a time: a node whose id a way numbered
    /// takes its place under that index. The first call sizes the table for
    /// the nodes numbered so far (at most `isize::MAX`, the most a table holds).
    pub fn parse_node(&mut self, node: &OsmNode)
        requires
            old(self).wf(),
        ensures
            final(self).wf(),
            final(self).node_indices@ == old(self).node_indices@,
            final(self).buckets@ == old(self).buckets@,
            final(self).charging_nodes@ == old(self).charging_nodes@,
            old(self).nodes is Some || old(self).buckets@.len() <= isize::MAX ==> final(self).nodes is Some,
            old(self).nodes is None && old(self).buckets@.len() <= isize::MAX ==> final(self).slots
                == old(self).buckets@.len(),
            old(self).nodes is Some ==> final(self).slots == old(self).slots,
            forall|i: int|
                #![trigger final(self).node_at(i)]
                final(self).node_at(i) == (if old(self).node_indices@.contains_key(node.id)
                    && old(self).node_indices@[node.id] == i && (old(self).nodes is None || i
                    < slot_bound(old(self).nodes->0)) && i < old(self).buckets@.len() && (old(
                    self,
                ).nodes is Some || old(self).buckets@.len() <= isize::MAX) {
                    Some(Node { id: node.id, coordinates: node.coordinates })
                } else {
                    old(self).node_at(i)
                }),
    {
        let n = self.buckets.len();
        if self.nodes.is_none() {
            if n > isize::MAX as usize {
                return;
            }
            self.nodes = Some(slots_with_capacity(n));
            self.slots = n;
        }
        let index = match self.node_indices.get(&node.id) {
            Some(i) => *i,
            None => {
                return;
            },
        };
        let mut table = match self.nodes.take() {
            Some(v) => v,
            None => {
                return;
            },
        };
        if index < self.slots {
            slots_insert(&mut table, index, Node::new(node.id, node.coordinates));
        }
        self.nodes = Some(table);
    }

    /// Lays the edges out in compressed-sparse-row order, each node's out-edges
    /// sorted by target, with every edge's length measured by `dist` between its
    /// endpoints; builds the grid. Fails when a numbered node was never read.
    #[verifier::rlimit(40)]
    #[verifier::spinoff_prover]
    pub fn create_graph<D: Fn(Coordinates, Coordinates) -> u32>(self, dist: &D) -> (r: Result<
        Graph,
        BuildError,
    >)
        requires
            self.wf(),
            is_metric(*dist),
        ensures
            match r {
                Ok(g) => {
                    &&& g.wf()
                    &&& g.nodes@.len() == self.buckets@.len()
                    &&& forall|i: int|
                        0 <= i < g.nodes@.len() ==> self.node_at(i) == Some(#[trigger] g.nodes@[i])
                    &&& g.charging_nodes@ == self.charging_nodes@
                    &&& forall|u: int|
                        0 <= u < g.nodes@.len() ==> g.offsets@[u + 1] - g.offsets@[u]
                            == (#[trigger] self.buckets@[u])@.len()
                    &&& forall|w: int|
                        0 <= w < g.nodes@.len() ==> g.edges@.subrange(
                            g.offsets@[w] as int,
                            g.offsets@[w + 1] as int,
                        ).to_multiset() == measured((#[trigger] self.buckets@[w])@, g.nodes@, *dist).to_multiset()
                    &&& forall|k: int|
                        0 <= k < g.edges@.len() ==> {
                            let e = #[trigger] g.edges@[k];
                            &&& exists|j: int|
                                0 <= j < self.buckets@[e.source_index as int]@.len()
                                    && same_but_distance(
                                    e,
                                    #[trigger] self.buckets@[e.source_index as int]@[j],
                                )
                            &&& dist.ensures(
                                (
                                    g.nodes@[e.source_index as int].coordinates,
                                    g.nodes@[e.target_index as int].coordinates,
                                ),
                                e.distance,
                            )
                        }
                },
                Err(BuildError::MissingNode) => exists|i: int|
                    0 <= i < self.buckets@.len() && #[trigger] self.node_at(i) is None,
                Err(BuildError::TooManyNodes) => false,
            },
    {
        let n = self.buckets.len();
        let nodes = match self.collect_nodes() {
            Some(nodes) => nodes,
            None => {
                return Err(BuildError::MissingNode);
            },
        };
        let (offsets, edges) = self.lay_out(&nodes, dist);
        let (cell_index, cells) = grid::create(&nodes);
        Ok(Graph { nodes, offsets, edges, cell_index, cells, charging_nodes: self.charging_nodes })
    }

    /// Appends the out-edges of node `u`, measured and sorted by target, and
    /// the offset that ends them.
    #[verifier::rlimit(40)]
    fn append_bucket<D: Fn(Coordinates, Coordinates) -> u32>(
        &self,
        u: usize,
        nodes: &Vec<Node>,
        edges: &mut Vec<Edge>,
        offsets: &mut Vec<usize>,
        dist: &D,
    )
        requires
            self.wf(),
            u < self.buckets@.len(),
            nodes@.len() == self.buckets@.len(),
            laid_out(self.buckets@, nodes@, u as int, old(offsets)@, old(edges)@, *dist),
            is_metric(*dist),
        ensures
            laid_out(self.buckets@, nodes@, u + 1, final(offsets)@, final(edges)@, *dist),
    {
        let n = self.buckets.len();
        proof {
            reveal(laid_out);
        }
        let mut local = self.measure_bucket(u, nodes, dist);
        let ghost mlist = local@;
        sort_by_target(&mut local);
        let ghost base = edges@;
        let ghost first = edges@.len();
        let mut k: usize = 0;
        while k < local.len()
            invariant
                k <= local@.len(),
                edges@.len() == first + k,
                forall|j: int| 0 <= j < first ==> edges@[j] == #[trigger] base[j],
                forall|j: int| 0 <= j < k ==> edges@[first + j] == #[trigger] local@[j],
            decreases local@.len() - k,
        {
            edges.push(local[k]);
            k = k + 1;
        }
        let ghost old_offsets = offsets@;
        offsets.push(edges.len());
        proof {
            assert forall|k: int| 0 <= k < edges@.len() implies {
                let s = (#[trigger] edges@[k]).source_index as int;
                &&& 0 <= s < u + 1
                &&& edges@[k].target_index < n
                &&& offsets@[s] <= k < offsets@[s + 1]
                &&& exists|j: int|
                    0 <= j < self.buckets@[s]@.len() && same_but_distance(
                        edges@[k],
                        #[trigger] self.buckets@[s]@[j],
                    )
                &&& dist.ensures(
                    (nodes@[s].coordinates, nodes@[edges@[k].target_index as int].coordinates),
                    edges@[k].distance,
                )
            } by {
                if k < first {
                    assert(edges@[k] == base[k]);
                } else {
                    let j = k - first;
                    assert(edges@[first + j] == local@[j]);
                    assert(mlist.contains(local@[j]));
                    let jj = choose|jj: int| 0 <= jj < mlist.len() && mlist[jj] == local@[j];
                    assert(same_but_distance(edges@[k], self.buckets@[u as int]@[jj]));
                }
            }
            assert forall|k1: int, k2: int|
                0 <= k1 <= k2 < edges@.len() && (#[trigger] edges@[k1]).source_index == (
                #[trigger] edges@[k2]).source_index implies edges@[k1].target_index
                    <= edges@[k2].target_index by {
                if k2 < first {
                    assert(edges@[k1] == base[k1]);
                    assert(edges@[k2] == base[k2]);
                } else if k1 >= first {
                    assert(edges@[first + (k1 - first)] == local@[k1 - first]);
                    assert(edges@[first + (k2 - first)] == local@[k2 - first]);
                } else {
                    assert(edges@[k1] == base[k1]);
                    assert(edges@[first + (k2 - first)] == local@[k2 - first]);
                    assert(mlist.contains(local@[k2 - first]));
                }
            }
            assert forall|a: int, b: int| 0 <= a <= b <= u + 1 implies offsets@[a] <= offsets@[b] by {
                if b <= u {
                    assert(old_offsets[a] <= old_offsets[b]);
                } else if a <= u {
                    assert(old_offsets[a] <= old_offsets[u as int]);
                }
            }
            assert(edges@.subrange(first as int, (first + local@.len()) as int) =~= local@);
            assert forall|w: int|
                0 <= w < u + 1 implies edges@.subrange(offsets@[w] as int, offsets@[w + 1] as int).to_multiset()
                    == measured((#[trigger] self.buckets@[w])@, nodes@, *dist).to_multiset() by {
                if w < u {
                    assert(old_offsets[w + 1] <= old_offsets[u as int]);
                    assert(offsets@[w] == old_offsets[w] && offsets@[w + 1] == old_offsets[w + 1]);
                    assert(edges@.subrange(offsets@[w] as int, offsets@[w + 1] as int) =~= base.subrange(
                        old_offsets[w] as int,
                        old_offsets[w + 1] as int,
                    ));
                }
            }
            assert forall|w: int|
                0 <= w < u + 1 implies offsets@[w + 1] - offsets@[w] == (#[trigger] self.buckets@[w])@.len() by {
                if w < u {
                    assert(old_offsets[w + 1] - old_offsets[w] == self.buckets@[w]@.len());
                }
            }
        }
    }

    /// Runs the three passes over buffered objects: the charging stations
    /// among `nodes`, then `ways`, then the positions of `nodes`; and lays
    /// the graph out.
    pub fn read<D: Fn(Coordinates, Coordinates) -> u32>(
        self,
        nodes: &Vec<OsmNode>,
        ways: &Vec<OsmWay>,
        dist: &D,
    ) -> (r: Result<Graph, BuildError>)
        requires
            self.wf(),
            self.numbering_ok(),
            self.node_indices@ == Map::<i64, usize>::empty(),
            self.buckets@.len() == 0,
            self.charging_nodes@.len() == 0,
            self.nodes is None,
            is_metric(*dist),
        ensures
            node_missing(nodes@, ways@) ==> r is Err,
            r == Err::<Graph, BuildError>(BuildError::MissingNode) ==> node_missing(nodes@, ways@),
            r is Err ==> r == Err::<Graph, BuildError>(BuildError::MissingNode) || r == Err::<
                Graph,
                BuildError,
            >(BuildError::TooManyNodes),
            r == Err::<Graph, BuildError>(BuildError::TooManyNodes) ==> road_ids(ways@).finite()
                && road_ids(ways@).len() > isize::MAX,
            road_ids(ways@).finite() && road_ids(ways@).len() <= isize::MAX ==> (r is Ok <==> !node_missing(
                nodes@,
                ways@,
            )),
            r matches Ok(g) ==> {
                &&& g.wf()
                &&& g.charging_nodes@ == stations_of(nodes@)
                &&& forall|i: int|
                    0 <= i < g.nodes@.len() ==> exists|m: int|
                        0 <= m < nodes@.len() && nodes@[m].id == (#[trigger] g.nodes@[i]).id
                            && nodes@[m].coordinates == g.nodes@[i].coordinates
                &&& forall|i: int, j: int|
                    0 <= i < g.nodes@.len() && 0 <= j < g.nodes@.len() && (#[trigger] g.nodes@[i]).id
                        == (#[trigger] g.nodes@[j]).id ==> i == j
                &&& forall|id: i64| #[trigger] road_uses(ways@, id) ==> exists|i: int|
                    0 <= i < g.nodes@.len() && g.nodes@[i].id == id
                &&& g.nodes@.len() == road_seen(ways@, ways@.len() as int).len()
                &&& forall|i: int|
                    0 <= i < g.nodes@.len() ==> (#[trigger] g.nodes@[i]).id == road_seen(
                        ways@,
                        ways@.len() as int,
                    )[i]
                &&& forall|w: int, i: int|
                    #![trigger ways@[w].nodes@[i]]
                    0 <= w < ways@.len() && way_highway(ways@[w]) is Some && 1 <= i < ways@[w].nodes@.len()
                        ==> {
                        let h = way_highway(ways@[w])->0;
                        let a = ways@[w].nodes@[i - 1];
                        let b = ways@[w].nodes@[i];
                        &&& joins(g, a, b, transport_of(h), way_speed(ways@[w], h), *dist)
                        &&& !way_is_oneway(ways@[w]) ==> joins(
                            g,
                            b,
                            a,
                            transport_of(h),
                            way_speed(ways@[w], h),
                            *dist,
                        )
                    }
            },
    {
        let mut pbf = self;
        let mut i: usize = 0;
        assert(stations_of(nodes@.subrange(0, 0)) =~= Seq::<ChargingNode>::empty());
        while i < nodes.len()
            invariant
                pbf.wf(),
                pbf.numbering_ok(),
                pbf.node_indices@ == Map::<i64, usize>::empty(),
                pbf.buckets@.len() == 0,
                pbf.nodes is None,
                i <= nodes@.len(),
                pbf.charging_nodes@ == stations_of(nodes@.subrange(0, i as int)),
            decreases nodes@.len() - i,
        {
            pbf.parse_charging_station(&nodes[i]);
            proof {
                let sub = nodes@.subrange(0, i + 1);
                assert(sub.drop_last() =~= nodes@.subrange(0, i as int));
                assert(sub.last() == nodes@[i as int]);
            }
            i = i + 1;
        }
        assert(nodes@.subrange(0, nodes@.len() as int) =~= nodes@);
        assert(road_seen(ways@, 0) =~= Seq::<i64>::empty());
        let mut j: usize = 0;
        while j < ways.len()
            invariant
                pbf.wf(),
                pbf.numbering_ok(),
                pbf.node_indices@.len() == pbf.buckets@.len(),
                pbf.nodes is None,
                pbf.charging_nodes@ == stations_of(nodes@),
                j <= ways@.len(),
                forall|id: i64| #[trigger]
                    pbf.node_indices@.contains_key(id) ==> road_uses(ways@.subrange(0, j as int), id),
                forall|id: i64| #[trigger]
                    road_uses(ways@.subrange(0, j as int), id) ==> pbf.node_indices@.contains_key(id),
                pairs_laid(pbf.buckets@, pbf.node_indices@, ways@, j as int),
                numbered_as(pbf.node_indices@, road_seen(ways@, j as int)),
                pbf.buckets@.len() == road_seen(ways@, j as int).len(),
            decreases ways@.len() - j,
        {
            let ghost before = pbf;
            pbf.parse_way(&ways[j]);
            proof {
                assert(numbered_as(before.node_indices@, road_seen(ways@, j as int)));
                let pre = ways@.subrange(0, j as int);
                let post = ways@.subrange(0, j + 1);
                assert forall|id: i64| #[trigger] pbf.node_indices@.contains_key(id) implies road_uses(post, id) by {
                    if before.node_indices@.contains_key(id) {
                        let w = choose|w: int| 0 <= w < pre.len() && way_highway(#[trigger] pre[w]) is Some
                            && pre[w].nodes@.contains(id);
                        assert(post[w] == pre[w]);
                    } else {
                        assert(post[j as int] == ways@[j as int]);
                    }
                }
                assert forall|id: i64| #[trigger] road_uses(post, id) implies pbf.node_indices@.contains_key(id) by {
                    let w = choose|w: int| 0 <= w < post.len() && way_highway(#[trigger] post[w]) is Some
                        && post[w].nodes@.contains(id);
                    if w < j {
                        assert(pre[w] == post[w]);
                        assert(road_uses(pre, id));
                    } else {
                        let k = choose|k: int| 0 <= k < ways@[j as int].nodes@.len() && ways@[j as int].nodes@[k] == id;
                        assert(pbf.node_indices@.contains_key(ways@[j as int].nodes@[k]));
                    }
                }
                assert forall|w: int, i: int|
                    #![trigger ways@[w].nodes@[i]]
                    0 <= w < j + 1 && way_highway(ways@[w]) is Some && 1 <= i < ways@[w].nodes@.len() implies {
                        let h = way_highway(ways@[w])->0;
                        let a = pbf.node_indices@[ways@[w].nodes@[i - 1]] as int;
                        let b = pbf.node_indices@[ways@[w].nodes@[i]] as int;
                        &&& has_edge(pbf.buckets@, a, b, transport_of(h), way_speed(ways@[w], h))
                        &&& !way_is_oneway(ways@[w]) ==> has_edge(pbf.buckets@, b, a, transport_of(h), way_speed(ways@[w], h))
                    } by {
                    if w < j {
                        let h = way_highway(ways@[w])->0;
                        let x = ways@[w].nodes@[i - 1];
                        let y = ways@[w].nodes@[i];
                        assert(pre[w] == ways@[w]);
                        assert(ways@[w].nodes@.contains(x));
                        assert(ways@[w].nodes@.contains(y));
                        assert(road_uses(pre, x));
                        assert(road_uses(pre, y));
                        assert(before.node_indices@.contains_key(x));
                        assert(before.node_indices@.contains_key(y));
                        let a = before.node_indices@[x] as int;
                        let b = before.node_indices@[y] as int;
                        lemma_has_edge_kept(before.buckets@, pbf.buckets@, a, b, transport_of(h), way_speed(ways@[w], h));
                        if !way_is_oneway(ways@[w]) {
                            lemma_has_edge_kept(before.buckets@, pbf.buckets@, b, a, transport_of(h), way_speed(ways@[w], h));
                        }
                    }
                }
            }
            j = j + 1;
        }
        assert(ways@.subrange(0, ways@.len() as int) =~= ways@);
        proof {
            assert(pbf.node_indices@.dom() =~= road_ids(ways@));
            assert(pbf.node_indices@.dom().finite());
        }
        if pbf.node_indices.len() > isize::MAX as usize {
            return Err(BuildError::TooManyNodes);
        }
        let ghost n = pbf.buckets@.len();
        let mut k: usize = 0;
        while k < nodes.len()
            invariant
                pbf.wf(),
                pbf.numbering_ok(),
                pbf.buckets@.len() == n,
                n <= isize::MAX,
                pbf.charging_nodes@ == stations_of(nodes@),
                forall|id: i64| #[trigger] pbf.node_indices@.contains_key(id) <==> road_uses(ways@, id),
                k <= nodes@.len(),
                k > 0 ==> pbf.nodes is Some && pbf.slots == n,
                k == 0 ==> pbf.nodes is None,
                pairs_laid(pbf.buckets@, pbf.node_indices@, ways@, ways@.len() as int),
                numbered_as(pbf.node_indices@, road_seen(ways@, ways@.len() as int)),
                pbf.buckets@.len() == road_seen(ways@, ways@.len() as int).len(),
                forall|x: int|
                    #![trigger pbf.node_at(x)]
                    pbf.node_at(x) is Some ==> pbf.node_indices@.contains_key(pbf.node_at(x)->0.id)
                        && pbf.node_indices@[pbf.node_at(x)->0.id] == x && exists|m: int|
                        0 <= m < k && nodes@[m].id == pbf.node_at(x)->0.id && nodes@[m].coordinates
                            == pbf.node_at(x)->0.coordinates,
                forall|id: i64|
                    pbf.node_indices@.contains_key(id) && (exists|m: int| 0 <= m < k && #[trigger] nodes@[m].id == id)
                        ==> #[trigger] pbf.node_at(pbf.node_indices@[id] as int) is Some,
            decreases nodes@.len() - k,
        {
            let ghost before = pbf;
            pbf.parse_node(&nodes[k]);
            proof {
                assert forall|x: int|
                    #![trigger pbf.node_at(x)]
                    pbf.node_at(x) is Some implies pbf.node_indices@.contains_key(pbf.node_at(x)->0.id)
                        && pbf.node_indices@[pbf.node_at(x)->0.id] == x && exists|m: int|
                        0 <= m < k + 1 && nodes@[m].id == pbf.node_at(x)->0.id && nodes@[m].coordinates
                            == pbf.node_at(x)->0.coordinates by {
                    if pbf.node_at(x) != before.node_at(x) {
                        assert(nodes@[k as int].id == pbf.node_at(x)->0.id);
                    } else {
                        let nd = pbf.node_at(x)->0;
                        let m = choose|m: int| 0 <= m < k && nodes@[m].id == nd.id && nodes@[m].coordinates == nd.coordinates;
                        assert(0 <= m < k + 1);
                    }
                }
                assert forall|id: i64|
                    pbf.node_indices@.contains_key(id) && (exists|m: int| 0 <= m < k + 1 && #[trigger] nodes@[m].id == id)
                        implies #[trigger] pbf.node_at(pbf.node_indices@[id] as int) is Some by {
                    let x = pbf.node_indices@[id] as int;
                    if nodes@[k as int].id == id {
                        assert(x < n);
                    } else {
                        let m = choose|m: int| 0 <= m < k + 1 && #[trigger] nodes@[m].id == id;
                        assert(m < k);
                        assert(before.node_at(x) is Some);
                        if pbf.node_at(x) != before.node_at(x) {
                        }
                    }
                }
            }
            k = k + 1;
        }
        let ghost fin = pbf;
        let r = pbf.create_graph(dist);
        proof {
            if node_missing(nodes@, ways@) {
                let id = choose|id: i64| #[trigger] road_uses(ways@, id) && !has_node(nodes@, id);
                assert(fin.node_indices@.contains_key(id));
                assert(fin.node_indices@[id] < fin.buckets@.len());
                let x = fin.node_indices@[id] as int;
                if let Some(nd) = fin.node_at(x) {
                    assert(fin.node_indices@[nd.id] == fin.node_indices@[id]);
                    let m = choose|m: int| 0 <= m < nodes@.len() && nodes@[m].id == nd.id && nodes@[m].coordinates == nd.coordinates;
                    assert(nodes@[m].id == id);
                }
                assert(fin.node_at(x) is None);
                assert(x < fin.buckets@.len());
                if r is Ok {
                    assert(fin.node_at(x) == Some(r->Ok_0.nodes@[x]));
                }
                assert(r is Err);
            }
            if r == Err::<Graph, BuildError>(BuildError::MissingNode) {
                let x = choose|x: int| 0 <= x < fin.buckets@.len() && #[trigger] fin.node_at(x) is None;
                assert(index_taken(fin.node_indices@, x));
                let id = choose|id: i64| #[trigger] fin.node_indices@.contains_key(id) && fin.node_indices@[id] == x;
                assert(road_uses(ways@, id));
                if has_node(nodes@, id) {
                    let m = choose|m: int| 0 <= m < nodes@.len() && #[trigger] nodes@[m].id == id;
                    assert(fin.node_at(fin.node_indices@[id] as int) is Some);
                }
            }
            if r is Ok {
                let g = r->Ok_0;
                assert forall|i: int| 0 <= i < g.nodes@.len() implies exists|m: int|
                    0 <= m < nodes@.len() && nodes@[m].id == (#[trigger] g.nodes@[i]).id
                        && nodes@[m].coordinates == g.nodes@[i].coordinates by {
                    assert(fin.node_at(i) == Some(g.nodes@[i]));
                }
                assert forall|i: int, j: int|
                    0 <= i < g.nodes@.len() && 0 <= j < g.nodes@.len() && (#[trigger] g.nodes@[i]).id
                        == (#[trigger] g.nodes@[j]).id implies i == j by {
                    assert(fin.node_at(i) == Some(g.nodes@[i]));
                    assert(fin.node_at(j) == Some(g.nodes@[j]));
                }
                assert forall|id: i64| #[trigger] road_uses(ways@, id) implies exists|i: int|
                    0 <= i < g.nodes@.len() && g.nodes@[i].id == id by {
                    let x = fin.node_indices@[id] as int;
                    assert(fin.node_at(x) == Some(g.nodes@[x]));
                }
                let fs = road_seen(ways@, ways@.len() as int);
                assert forall|i: int| 0 <= i < g.nodes@.len() implies (#[trigger] g.nodes@[i]).id == fs[i] by {
                    assert(fin.node_at(i) == Some(g.nodes@[i]));
                    assert(fin.node_indices@.contains_key(fs[i]) && fin.node_indices@[fs[i]] == i);
                }
                assert forall|w: int, i: int|
                    #![trigger ways@[w].nodes@[i]]
                    0 <= w < ways@.len() && way_highway(ways@[w]) is Some && 1 <= i < ways@[w].nodes@.len()
                        implies {
                        let h = way_highway(ways@[w])->0;
                        let a = ways@[w].nodes@[i - 1];
                        let b = ways@[w].nodes@[i];
                        &&& joins(g, a, b, transport_of(h), way_speed(ways@[w], h), *dist)
                        &&& !way_is_oneway(ways@[w]) ==> joins(
                            g,
                            b,
                            a,
                            transport_of(h),
                            way_speed(ways@[w], h),
                            *dist,
                        )
                    } by {
                    let h = way_highway(ways@[w])->0;
                    let a = ways@[w].nodes@[i - 1];
                    let b = ways@[w].nodes@[i];
                    assert(ways@[w].nodes@.contains(a));
                    assert(ways@[w].nodes@.contains(b));
                    assert(road_uses(ways@, a));
                    assert(road_uses(ways@, b));
                    lemma_pair_joined(fin, g, *dist, a, b, transport_of(h), way_speed(ways@[w], h));
                    if !way_is_oneway(ways@[w]) {
                        lemma_pair_joined(fin, g, *dist, b, a, transport_of(h), way_speed(ways@[w], h));
                    }
                }
            }
        }
        r
    }

    /// The offsets and edge array of the compressed-sparse-row layout.
    fn lay_out<D: Fn(Coordinates, Coordinates) -> u32>(&self, nodes: &Vec<Node>, dist: &D) -> (r: (
        Vec<usize>,
        Vec<Edge>,
    ))
        requires
            self.wf(),
            nodes@.len() == self.buckets@.len(),
            is_metric(*dist),
        ensures
            csr_wf(self.buckets@.len() as int, r.0@, r.1@),
            forall|w: int|
                0 <= w < self.buckets@.len() ==> r.1@.subrange(r.0@[w] as int, r.0@[w + 1] as int).to_multiset()
                    == measured((#[trigger] self.buckets@[w])@, nodes@, *dist).to_multiset(),
            forall|u: int|
                0 <= u < self.buckets@.len() ==> r.0@[u + 1] - r.0@[u] == (#[trigger] self.buckets@[u])@.len(),
            forall|k: int|
                0 <= k < r.1@.len() ==> {
                    let e = #[trigger] r.1@[k];
                    &&& exists|j: int|
                        0 <= j < self.buckets@[e.source_index as int]@.len() && same_but_distance(
                            e,
                            #[trigger] self.buckets@[e.source_index as int]@[j],
                        )
                    &&& dist.ensures(
                        (nodes@[e.source_index as int].coordinates, nodes@[e.target_index as int].coordinates),
                        e.distance,
                    )
                },
    {
        let n = self.buckets.len();
        let mut edges: Vec<Edge> = Vec::new();
        let mut offsets: Vec<usize> = Vec::new();
        offsets.push(0);
        proof {
            lemma_laid_out_empty(self.buckets@, nodes@, offsets@, edges@, *dist);
        }
        let mut u: usize = 0;
        while u < n
            invariant
                self.wf(),
                n == self.buckets@.len(),
                nodes@.len() == n,
                u <= n,
                laid_out(self.buckets@, nodes@, u as int, offsets@, edges@, *dist),
                is_metric(*dist),
            decreases n - u,
        {
            self.append_bucket(u, nodes, &mut edges, &mut offsets, dist);
            u = u + 1;
        }
        proof {
            lemma_laid_out_csr(self.buckets@, nodes@, offsets@, edges@, *dist);
        }
        (offsets, edges)
    }

    /// The nodes by index, if every numbered node was read.
    fn collect_nodes(&self) -> (r: Option<Vec<Node>>)
        ensures
            match r {
                Some(nodes) => nodes@.len() == self.buckets@.len() && forall|k: int|
                    0 <= k < nodes@.len() ==> self.node_at(k) == Some(#[trigger] nodes@[k]),
                None => exists|i: int| 0 <= i < self.buckets@.len() && #[trigger] self.node_at(i) is None,
            },
    {
        let n = self.buckets.len();
        let mut nodes: Vec<Node> = Vec::new();
        let mut i: usize = 0;
        while i < n
            invariant
                n == self.buckets@.len(),
                i <= n,
                nodes@.len() == i,
                forall|k: int| 0 <= k < i ==> self.node_at(k) == Some(#[trigger] nodes@[k]),
            decreases n - i,
        {
            let found = match &self.nodes {
                Some(table) => slots_get(table, i),
                None => None,
            };
            match found {
                Some(node) => nodes.push(node),
                None => {
                    assert(self.node_at(i as int) is None);
                    return None;
                },
            }
            i = i + 1;
        }
        Some(nodes)
    }

    /// The out-edges of node `u` with their lengths measured by `dist`.
    fn measure_bucket<D: Fn(Coordinates, Coordinates) -> u32>(
        &self,
        u: usize,
        nodes: &Vec<Node>,
        dist: &D,
    ) -> (r: Vec<Edge>)
        requires
            self.wf(),
            u < self.buckets@.len(),
            nodes@.len() == self.buckets@.len(),
            is_metric(*dist),
        ensures
            r@.len() == self.buckets@[u as int]@.len(),
            r@ == measured(self.buckets@[u as int]@, nodes@, *dist),
            forall|j: int|
                0 <= j < r@.len() ==> {
                    let e = #[trigger] r@[j];
                    &&& same_but_distance(e, self.buckets@[u as int]@[j])
                    &&& e.source_index == u
                    &&& e.target_index < nodes@.len()
                    &&& dist.ensures(
                        (nodes@[u as int].coordinates, nodes@[e.target_index as int].coordinates),
                        e.distance,
                    )
                },
    {
        let bucket = &self.buckets[u];
        let mut r: Vec<Edge> = Vec::new();
        let mut j: usize = 0;
        while j < bucket.len()
            invariant
                self.wf(),
                u < self.buckets@.len(),
                nodes@.len() == self.buckets@.len(),
                *bucket == self.buckets@[u as int],
                j <= bucket@.len(),
                r@.len() == j,
                is_metric(*dist),
                forall|i: int|
                    0 <= i < j ==> {
                        let e = #[trigger] r@[i];
                        &&& same_but_distance(e, bucket@[i])
                        &&& e.source_index == u
                        &&& e.target_index < nodes@.len()
                        &&& dist.ensures(
                            (nodes@[u as int].coordinates, nodes@[e.target_index as int].coordinates),
                            e.distance,
                        )
                    },
                forall|i: int| 0 <= i < j ==> #[trigger] r@[i] == measured(bucket@, nodes@, *dist)[i],
            decreases bucket@.len() - j,
        {
            let mut e = bucket[j];
            assert(e == self.buckets@[u as int]@[j as int]);
            let d = dist(nodes[u].coordinates, nodes[e.target_index].coordinates);
            e.distance = d;
            r.push(e);
            assert(d == measure(*dist, nodes@[u as int].coordinates, nodes@[e.target_index as int].coordinates));
            j = j + 1;
        }
        assert(r@ =~= measured(bucket@, nodes@, *dist));
        r
    }
}

proof fn lemma_swap_keeps_multiset(s: Seq<Edge>, i: int, j: int)
    requires
        0 <= i < s.len(),
        0 <= j < s.len(),
    ensures
        s.update(i, s[j]).update(j, s[i]).to_multiset() =~= s.to_multiset(),
{
    broadcast use vstd::multiset::group_multiset_axioms;
    broadcast use vstd::seq_lib::group_to_multiset_ensures;

    let s1 = s.update(i, s[j]);
    vstd::seq_lib::to_multiset_update(s, i, s[j]);
    vstd::seq_lib::to_multiset_update(s1, j, s[i]);
    if i == j {
        assert(s.update(i, s[j]).update(j, s[i]) =~= s);
    } else {
        assert(s1[j] == s[j]);
    }
}

/// Sorts edges by target, keeping the order of edges with equal targets.
fn sort_by_target(v: &mut Vec<Edge>)
    ensures
        final(v)@.len() == old(v)@.len(),
        forall|k1: int, k2: int|
            0 <= k1 <= k2 < final(v)@.len() ==> (#[trigger] final(v)@[k1]).target_index
                <= (#[trigger] final(v)@[k2]).target_index,
        forall|k: int| 0 <= k < final(v)@.len() ==> old(v)@.contains(#[trigger] final(v)@[k]),
        final(v)@.to_multiset() == old(v)@.to_multiset(),
{
    let ghost orig = v@;
    assert forall|k: int| 0 <= k < v@.len() implies orig.contains(#[trigger] v@[k]) by {
        assert(v@[k] == orig[k]);
    }
    let mut i: usize = 1;
    while i < v.len()
        invariant
            v@.len() == orig.len(),
            forall|k1: int, k2: int|
                0 <= k1 <= k2 < i && k2 < v@.len() ==> (#[trigger] v@[k1]).target_index <= (
                #[trigger] v@[k2]).target_index,
            forall|k: int| 0 <= k < v@.len() ==> orig.contains(#[trigger] v@[k]),
            v@.to_multiset() == orig.to_multiset(),
        decreases v@.len() - i,
    {
        let mut j: usize = i;
        while j > 0 && v[j - 1].target_index > v[j].target_index
            invariant
                v@.len() == orig.len(),
                0 <= j <= i < v@.len(),
                forall|k1: int, k2: int|
                    0 <= k1 <= k2 < j ==> (#[trigger] v@[k1]).target_index <= (
                    #[trigger] v@[k2]).target_index,
                forall|k1: int, k2: int|
                    j < k1 <= k2 <= i ==> (#[trigger] v@[k1]).target_index <= (
                    #[trigger] v@[k2]).target_index,
                forall|k1: int, k2: int|
                    0 <= k1 < j && j < k2 <= i ==> (#[trigger] v@[k1]).target_index <= (
                    #[trigger] v@[k2]).target_index,
                forall|k: int| j < k <= i ==> v@[j as int].target_index < (#[trigger] v@[k]).target_index,
                forall|k: int| 0 <= k < v@.len() ==> orig.contains(#[trigger] v@[k]),
                v@.to_multiset() == orig.to_multiset(),
            decreases j,
        {
            let a = v[j - 1];
            let b = v[j];
            let ghost before = v@;
            v.set(j - 1, b);
            v.set(j, a);
            proof {
                lemma_swap_keeps_multiset(before, j - 1, j as int);
                assert(v@ =~= before.update(j - 1, before[j as int]).update(j as int, before[j - 1]));
            }
            assert forall|k: int| 0 <= k < v@.len() implies orig.contains(#[trigger] v@[k]) by {
                if k == j - 1 {
                    assert(v@[k] == before[j as int]);
                } else if k == j {
                    assert(v@[k] == before[j - 1]);
                } else {
                    assert(v@[k] == before[k]);
                }
            }
            j = j - 1;
        }
        i = i + 1;
    }
}

impl Graph {
    /// The graph of an extract's nodes and ways, read in three passes.
    pub fn from_pbf<D: Fn(Coordinates, Coordinates) -> u32>(
        nodes: &Vec<OsmNode>,
        ways: &Vec<OsmWay>,
        dist: &D,
    ) -> (r: Result<Graph, BuildError>)
        requires
            is_metric(*dist),
        ensures
            node_missing(nodes@, ways@) ==> r is Err,
            r == Err::<Graph, BuildError>(BuildError::MissingNode) ==> node_missing(nodes@, ways@),
            r is Err ==> r == Err::<Graph, BuildError>(BuildError::MissingNode) || r == Err::<
                Graph,
                BuildError,
            >(BuildError::TooManyNodes),
            r == Err::<Graph, BuildError>(BuildError::TooManyNodes) ==> road_ids(ways@).finite()
                && road_ids(ways@).len() > isize::MAX,
            road_ids(ways@).finite() && road_ids(ways@).len() <= isize::MAX ==> (r is Ok <==> !node_missing(
                nodes@,
                ways@,
            )),
            r matches Ok(g) ==> {
                &&& g.wf()
                &&& g.charging_nodes@ == stations_of(nodes@)
                &&& forall|i: int|
                    0 <= i < g.nodes@.len() ==> exists|m: int|
                        0 <= m < nodes@.len() && nodes@[m].id == (#[trigger] g.nodes@[i]).id
                            && nodes@[m].coordinates == g.nodes@[i].coordinates
                &&& forall|i: int, j: int|
                    0 <= i < g.nodes@.len() && 0 <= j < g.nodes@.len() && (#[trigger] g.nodes@[i]).id
                        == (#[trigger] g.nodes@[j]).id ==> i == j
                &&& forall|id: i64| #[trigger] road_uses(ways@, id) ==> exists|i: int|
                    0 <= i < g.nodes@.len() && g.nodes@[i].id == id
                &&& g.nodes@.len() == road_seen(ways@, ways@.len() as int).len()
                &&& forall|i: int|
                    0 <= i < g.nodes@.len() ==> (#[trigger] g.nodes@[i]).id == road_seen(
                        ways@,
                        ways@.len() as int,
                    )[i]
                &&& forall|w: int, i: int|
                    #![trigger ways@[w].nodes@[i]]
                    0 <= w < ways@.len() && way_highway(ways@[w]) is Some && 1 <= i < ways@[w].nodes@.len()
                        ==> {
                        let h = way_highway(ways@[w])->0;
                        let a = ways@[w].nodes@[i - 1];
                        let b = ways@[w].nodes@[i];
                        &&& joins(g, a, b, transport_of(h), way_speed(ways@[w], h), *dist)
                        &&& !way_is_oneway(ways@[w]) ==> joins(
                            g,
                            b,
                            a,
                            transport_of(h),
                            way_speed(ways@[w], h),
                            *dist,
                        )
                    }
            },
    {
        Pbf::new().read(nodes, ways, dist)
    }
}

} // verus!
