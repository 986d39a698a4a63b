//! The road graph: nodes, directed edges in compressed-sparse-row layout, the
//! spatial grid over the nodes, and the charging stations.
use std::collections::HashMap;

use vstd::prelude::*;

use crate::highway::{travel_time, Kmh};
use crate::options::{ChargingOptions, Routing, Transport};
use crate::osm::{cell_of, Coordinates};

verus! {

/// A road-network node: its OpenStreetMap id and position.
#[derive(Debug, Clone, Copy)]
pub struct Node {
    pub id: i64,
    pub coordinates: Coordinates,
}

/// A charging station: its OpenStreetMap id, position and the vehicles it charges.
#[derive(Debug, Clone, Copy)]
pub struct ChargingNode {
    pub id: i64,
    pub coordinates: Coordinates,
    pub charging_options: ChargingOptions,
}

/// A directed road segment between two nodes, given by their dense indices.
#[derive(Debug, Clone, Copy)]
pub struct Edge {
    pub source_index: usize,
    pub target_index: usize,
    pub transport: Transport,
    pub distance: u32,
    pub max_speed: Kmh,
}

/// The key of a grid cell in the cell index: tenths of a degree of latitude
/// times 10000 plus tenths of a degree of longitude.
pub open spec fn pack_cell(lat: int, lon: int) -> int {
    lat * 10000 + lon
}

/// The cell-index key of a position.
pub open spec fn cell_key(c: Coordinates) -> i64 {
    pack_cell(cell_of(c).0, cell_of(c).1) as i64
}

/// What an edge costs a query: its travel time by car when a car routes by
/// time, else its length in meters.
pub open spec fn edge_cost(e: Edge, mode: Transport, routing: Routing) -> u32 {
    if mode == Transport::Car && routing == Routing::Time {
        travel_time(e.max_speed.speed, e.distance)
    } else {
        e.distance
    }
}

/// The seconds an edge takes: at its own speed by car, at 20 km/h by bike.
pub open spec fn edge_time(e: Edge, mode: Transport) -> u32 {
    if mode == Transport::Car {
        travel_time(e.max_speed.speed, e.distance)
    } else {
        travel_time(20, e.distance)
    }
}

/// The road graph, built once and then only read.
///
/// The out-edges of node `u` are `edges[offsets[u]..offsets[u + 1]]`, sorted by
/// target. `cell_index` maps the key of every occupied grid cell to its
/// position in `cells`, which lists the nodes in that cell.
pub struct Graph {
    pub nodes: Vec<Node>,
    pub offsets: Vec<usize>,
    pub edges: Vec<Edge>,
    pub cell_index: HashMap<i64, usize>,
    pub cells: Vec<Vec<usize>>,
    pub charging_nodes: Vec<ChargingNode>,
}

/// The compressed-sparse-row layout of `edges` over `n` nodes.
pub open spec fn csr_wf(n: int, offsets: Seq<usize>, edges: Seq<Edge>) -> bool {
    &&& offsets.len() == n + 1
    &&& offsets[0] == 0
    &&& offsets[n] == edges.len()
    &&& forall|i: int, j: int| 0 <= i <= j <= n ==> offsets[i] <= offsets[j]
    &&& forall|k: int|
        0 <= k < edges.len() ==> {
            let s = (#[trigger] edges[k]).source_index as int;
            &&& 0 <= s < n
            &&& edges[k].target_index < n
            &&& offsets[s] <= k < offsets[s + 1]
        }
    &&& forall|k1: int, k2: int|
        0 <= k1 && k2 == k1 + 1 && k2 < edges.len() && (#[trigger] edges[k1]).source_index == (
        #[trigger] edges[k2]).source_index ==> edges[k1].target_index <= edges[k2].target_index
}

/// The grid over `nodes`: every node is listed in the cell of its key, and
/// each cell lists, in increasing order and at least one, only nodes with its
/// key.
#[verifier::opaque]
pub open spec fn cells_wf(
    nodes: Seq<Node>,
    index: Map<i64, usize>,
    cells: Seq<Vec<usize>>,
) -> bool {
    &&& forall|k: i64| #[trigger] index.contains_key(k) ==> index[k] < cells.len()
    &&& forall|k1: i64, k2: i64|
        index.contains_key(k1) && index.contains_key(k2) && #[trigger] index[k1]
            == #[trigger] index[k2] ==> k1 == k2
    &&& forall|i: int|
        0 <= i < nodes.len() ==> {
            let k = cell_key((#[trigger] nodes[i]).coordinates);
            &&& index.contains_key(k)
            &&& cells[index[k] as int]@.contains(i as usize)
        }
    &&& forall|c: int| 0 <= c < cells.len() ==> (#[trigger] cells[c])@.len() > 0
    &&& forall|c: int, j1: int, j2: int|
        0 <= c < cells.len() && 0 <= j1 < j2 < cells[c]@.len() ==> #[trigger] cells[c]@[j1]
            < #[trigger] cells[c]@[j2]
    &&& forall|c: int, j: int|
        0 <= c < cells.len() && 0 <= j < cells[c]@.len() ==> {
            let v = (#[trigger] cells[c]@[j]) as int;
            &&& 0 <= v < nodes.len()
            &&& index.contains_key(cell_key(nodes[v].coordinates))
            &&& index[cell_key(nodes[v].coordinates)] == c
        }
}

impl Graph {
    /// The structural invariant of a built graph.
    pub open spec fn wf(&self) -> bool {
        &&& csr_wf(self.nodes@.len() as int, self.offsets@, self.edges@)
        &&& cells_wf(self.nodes@, self.cell_index@, self.cells@)
    }

    /// The number of nodes.
    pub open spec fn n(&self) -> int {
        self.nodes@.len() as int
    }

    /// The edge at position `k` of the edge array.
    pub open spec fn edge(&self, k: int) -> Edge {
        self.edges@[k]
    }

    /// Node `u` has an out-edge open to `mode`.
    pub open spec fn serves(&self, u: int, mode: Transport) -> bool {
        exists|k: int|
            self.offsets@[u] <= k < self.offsets@[u + 1] && crate::options::transport_admits(
                (#[trigger] self.edges@[k]).transport,
                mode,
            )
    }

    /// The node with dense index `index`.
    pub fn node(&self, index: usize) -> (r: &Node)
        requires
            index < self.nodes@.len(),
        ensures
            *r == self.nodes@[index as int],
    {
        &self.nodes[index]
    }

    /// The position of the node with dense index `index`.
    pub fn coordinates(&self, index: usize) -> (r: &Coordinates)
        requires
            index < self.nodes@.len(),
        ensures
            *r == self.nodes@[index as int].coordinates,
    {
        &self.node(index).coordinates
    }

    /// The out-edges of node `node_index`.
    pub fn edges(&self, node_index: usize) -> (r: &[Edge])
        requires
            self.wf(),
            node_index < self.nodes@.len(),
        ensures
            r@ == self.edges@.subrange(
                self.offsets@[node_index as int] as int,
                self.offsets@[node_index + 1] as int,
            ),
    {
        let bound = self.offsets.len();
        assert(node_index < bound - 1);
        let start = self.offsets[node_index];
        let end = self.offsets[node_index + 1];
        assert(start <= end <= self.edges@.len()) by {
            assert(self.offsets@[node_index as int] <= self.offsets@[node_index + 1]);
            assert(self.offsets@[node_index + 1] <= self.offsets@[self.nodes@.len() as int]);
        }
        vstd::slice::slice_subrange(self.edges.as_slice(), start, end)
    }

    /// The registered charging stations.
    pub fn charging_stations(&self) -> (r: &Vec<ChargingNode>)
        ensures
            r@ == self.charging_nodes@,
    {
        &self.charging_nodes
    }
}

impl Node {
    /// A node with OpenStreetMap id `id` at `coordinates`.
    pub fn new(id: i64, coordinates: Coordinates) -> (r: Self)
        ensures
            r.id == id,
            r.coordinates == coordinates,
    {
        Self { id, coordinates }
    }
}

impl ChargingNode {
    /// A charging station with OpenStreetMap id `id` at `coordinates`.
    pub fn new(id: i64, coordinates: Coordinates, charging_options: ChargingOptions) -> (r: Self)
        ensures
            r.id == id,
            r.coordinates == coordinates,
            r.charging_options == charging_options,
    {
        Self { id, coordinates, charging_options }
    }
}

impl Edge {
    /// An edge from `source_index` to `target_index`.
    pub fn new(
        source_index: usize,
        target_index: usize,
        transport: Transport,
        distance: u32,
        max_speed: Kmh,
    ) -> (r: Self)
        ensures
            r == (Edge { source_index, target_index, transport, distance, max_speed }),
    {
        Self { source_index, target_index, transport, distance, max_speed }
    }

    /// What this edge costs a query of `mode` minimising `routing`.
    pub fn cost(&self, mode: Transport, routing: Routing) -> (r: u32)
        ensures
            r == edge_cost(*self, mode, routing),
    {
        if mode == Transport::Car && routing == Routing::Time {
            self.max_speed.time(self.distance)
        } else {
            self.distance
        }
    }

    /// The seconds this edge takes in `mode`, a car or a bike.
    pub fn time(&self, mode: Transport) -> (r: u32)
        requires
            mode == Transport::Car || mode == Transport::Bike,
        ensures
            r == edge_time(*self, mode),
    {
        if mode == Transport::Car {
            self.max_speed.time(self.distance)
        } else {
            Kmh::new(20).time(self.distance)
        }
    }
}

} // verus!

verus! {

/// In a compressed-sparse-row layout the edges in node `u`'s range start at `u`.
pub proof fn lemma_range_source(n: int, offsets: Seq<usize>, edges: Seq<Edge>, u: int, k: int)
    requires
        csr_wf(n, offsets, edges),
        0 <= u < n,
        offsets[u] <= k < offsets[u + 1],
    ensures
        edges[k].source_index == u,
{
    assert(offsets[u + 1] <= offsets[n]);
    let s = edges[k].source_index as int;
    if s < u {
        assert(offsets[s + 1] <= offsets[u]);
    } else if s > u {
        assert(offsets[u + 1] <= offsets[s]);
    }
}

} // verus!
