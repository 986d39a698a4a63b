//! Persisting a graph: its parts, checked again when they are read back, and
//! the header that marks the bytes of a snapshot and its format version.
use vstd::prelude::*;

use crate::graph::{csr_wf, ChargingNode, Edge, Graph, Node};
use crate::grid;

verus! {

/// Why stored bytes or parts do not make a graph.
#[derive(Debug, Clone, Copy, PartialEq, Eq, Structural)]
pub enum SnapshotError {
    /// The bytes do not start with the snapshot mark.
    NotASnapshot,
    /// The snapshot was written in a format version this library does not read.
    UnsupportedVersion,
    /// The parts break the compressed-sparse-row layout.
    Corrupt,
}

/// The format version written and read.
pub const VERSION: u8 = 1;

/// The mark that opens a snapshot: `OSMG`.
pub open spec fn magic() -> Seq<u8> {
    seq![79u8, 83, 77, 71]
}

/// The bytes of a snapshot holding `payload`: the mark, the version, the payload.
pub open spec fn frame_spec(payload: Seq<u8>) -> Seq<u8> {
    magic() + seq![VERSION] + payload
}

/// What reading `bytes` as a snapshot gives.
pub open spec fn unframe_spec(bytes: Seq<u8>) -> Result<Seq<u8>, SnapshotError> {
    if bytes.len() < 4 || bytes.subrange(0, 4) != magic() {
        Err(SnapshotError::NotASnapshot)
    } else if bytes.len() < 5 || bytes[4] != VERSION {
        Err(SnapshotError::UnsupportedVersion)
    } else {
        Ok(bytes.subrange(5, bytes.len() as int))
    }
}

/// Reading back a framed payload gives the payload.
pub proof fn lemma_frame_round_trip(payload: Seq<u8>)
    ensures
        unframe_spec(frame_spec(payload)) == Ok::<Seq<u8>, SnapshotError>(payload),
{
    let b = frame_spec(payload);
    assert(b.subrange(0, 4) =~= magic());
    assert(b.subrange(5, b.len() as int) =~= payload);
}

/// The snapshot bytes for `payload`.
pub fn frame(payload: &[u8]) -> (r: Vec<u8>)
    ensures
        r@ == frame_spec(payload@),
{
    let mut r: Vec<u8> = vec![79u8, 83, 77, 71, VERSION];
    let mut i: usize = 0;
    while i < payload.len()
        invariant
            i <= payload@.len(),
            r@ == magic() + seq![VERSION] + payload@.subrange(0, i as int),
        decreases payload@.len() - i,
    {
        r.push(payload[i]);
        i = i + 1;
        assert(r@ =~= magic() + seq![VERSION] + payload@.subrange(0, i as int));
    }
    assert(payload@.subrange(0, payload@.len() as int) =~= payload@);
    r
}

/// The payload of snapshot bytes, if they are a snapshot of this version.
pub fn unframe(bytes: &[u8]) -> (r: Result<Vec<u8>, SnapshotError>)
    ensures
        match r {
            Ok(p) => unframe_spec(bytes@) == Ok::<Seq<u8>, SnapshotError>(p@),
            Err(e) => unframe_spec(bytes@) == Err::<Seq<u8>, SnapshotError>(e),
        },
{
    let mark: Vec<u8> = vec![79u8, 83, 77, 71];
    assert(mark@ =~= magic());
    if bytes.len() < 4 {
        return Err(SnapshotError::NotASnapshot);
    }
    let mut i: usize = 0;
    while i < 4
        invariant
            4 <= bytes@.len(),
            mark@ == magic(),
            i <= 4,
            forall|k: int| 0 <= k < i ==> bytes@[k] == mark@[k],
        decreases 4 - i,
    {
        if bytes[i] != mark[i] {
            assert(bytes@.subrange(0, 4)[i as int] != magic()[i as int]);
            return Err(SnapshotError::NotASnapshot);
        }
        i = i + 1;
    }
    assert(bytes@.subrange(0, 4) =~= magic());
    if bytes.len() < 5 || bytes[4] != VERSION {
        return Err(SnapshotError::UnsupportedVersion);
    }
    let mut p: Vec<u8> = Vec::new();
    let mut j: usize = 5;
    while j < bytes.len()
        invariant
            5 <= j <= bytes@.len(),
            p@ == bytes@.subrange(5, j as int),
        decreases bytes@.len() - j,
    {
        p.push(bytes[j]);
        j = j + 1;
        assert(p@ =~= bytes@.subrange(5, j as int));
    }
    Ok(p)
}

proof fn lemma_offsets_monotone(offsets: Seq<usize>, n: int)
    requires
        offsets.len() == n + 1,
        forall|u: int| 0 <= u < n ==> #[trigger] offsets[u] <= offsets[u + 1],
    ensures
        forall|a: int, b: int| 0 <= a <= b <= n ==> offsets[a] <= offsets[b],
{
    assert forall|a: int, b: int| 0 <= a <= b <= n implies offsets[a] <= offsets[b] by {
        lemma_offsets_step(offsets, n, a, b);
    }
}

proof fn lemma_offsets_step(offsets: Seq<usize>, n: int, a: int, b: int)
    requires
        offsets.len() == n + 1,
        forall|u: int| 0 <= u < n ==> #[trigger] offsets[u] <= offsets[u + 1],
        0 <= a <= b <= n,
    ensures
        offsets[a] <= offsets[b],
    decreases b - a,
{
    if a < b {
        lemma_offsets_step(offsets, n, a, b - 1);
        assert(offsets[b - 1] <= offsets[b]);
    }
}

/// Whether `offsets` and `edges` lay out a graph of `n` nodes.
pub fn check_csr(n: usize, offsets: &Vec<usize>, edges: &Vec<Edge>) -> (r: bool)
    ensures
        r == csr_wf(n as int, offsets@, edges@),
{
    if offsets.len() == 0 || offsets.len() - 1 != n || offsets[0] != 0 || offsets[n] != edges.len() {
        return false;
    }
    let mut u: usize = 0;
    while u < n
        invariant
            offsets@.len() == n + 1,
            u <= n,
            forall|w: int| 0 <= w < u ==> #[trigger] offsets@[w] <= offsets@[w + 1],
        decreases n - u,
    {
        if offsets[u] > offsets[u + 1] {
            return false;
        }
        u = u + 1;
    }
    proof {
        lemma_offsets_monotone(offsets@, n as int);
    }
    let mut u: usize = 0;
    while u < n
        invariant
            offsets@.len() == n + 1,
            offsets@[0] == 0,
            offsets@[n as int] == edges@.len(),
            u <= n,
            forall|a: int, b: int| 0 <= a <= b <= n ==> offsets@[a] <= offsets@[b],
            forall|k: int|
                0 <= k < offsets@[u as int] ==> {
                    let s = (#[trigger] edges@[k]).source_index as int;
                    &&& 0 <= s < n
                    &&& edges@[k].target_index < n
                    &&& offsets@[s] <= k < offsets@[s + 1]
                },
            forall|k1: int, k2: int|
                0 <= k1 && k2 == k1 + 1 && k2 < offsets@[u as int] && (#[trigger] edges@[k1]).source_index
                    == (#[trigger] edges@[k2]).source_index ==> edges@[k1].target_index
                    <= edges@[k2].target_index,
        decreases n - u,
    {
        let lo = offsets[u];
        let hi = offsets[u + 1];
        assert(hi <= offsets@[n as int]);
        let mut k: usize = lo;
        while k < hi
            invariant
                offsets@.len() == n + 1,
                offsets@[n as int] == edges@.len(),
                u < n,
                lo == offsets@[u as int],
                hi == offsets@[u + 1],
                lo <= k <= hi <= edges@.len(),
                forall|a: int, b: int| 0 <= a <= b <= n ==> offsets@[a] <= offsets@[b],
                forall|x: int|
                    0 <= x < k ==> {
                        let s = (#[trigger] edges@[x]).source_index as int;
                        &&& 0 <= s < n
                        &&& edges@[x].target_index < n
                        &&& offsets@[s] <= x < offsets@[s + 1]
                    },
                forall|x: int| lo <= x < k ==> (#[trigger] edges@[x]).source_index == u,
                forall|k1: int, k2: int|
                    0 <= k1 && k2 == k1 + 1 && k2 < k && (#[trigger] edges@[k1]).source_index == (
                    #[trigger] edges@[k2]).source_index ==> edges@[k1].target_index
                        <= edges@[k2].target_index,
            decreases hi - k,
        {
            let e = edges[k];
            if e.source_index != u || e.target_index >= n {
                proof {
                    if csr_wf(n as int, offsets@, edges@) {
                        crate::graph::lemma_range_source(n as int, offsets@, edges@, u as int, k as int);
                    }
                }
                return false;
            }
            if k > lo && edges[k - 1].target_index > e.target_index {
                proof {
                    if csr_wf(n as int, offsets@, edges@) {
                        assert(edges@[k - 1].source_index == u);
                    }
                }
                return false;
            }
            if k > lo {
                assert(edges@[k - 1].source_index == u);
            }
            k = k + 1;
        }
        u = u + 1;
    }
    proof {
        assert forall|k1: int, k2: int|
            0 <= k1 && k2 == k1 + 1 && k2 < edges@.len() && (#[trigger] edges@[k1]).source_index == (
            #[trigger] edges@[k2]).source_index implies edges@[k1].target_index
                <= edges@[k2].target_index by {}
    }
    true
}

impl Graph {
    /// The stored parts of the graph: nodes, offsets, edges and charging
    /// stations. The grid is rebuilt from the nodes.
    pub fn into_parts(self) -> (r: (Vec<Node>, Vec<usize>, Vec<Edge>, Vec<ChargingNode>))
        ensures
            r.0@ == self.nodes@,
            r.1@ == self.offsets@,
            r.2@ == self.edges@,
            r.3@ == self.charging_nodes@,
    {
        (self.nodes, self.offsets, self.edges, self.charging_nodes)
    }

    /// A graph from stored parts, with its grid rebuilt; refused when the
    /// parts break the compressed-sparse-row layout.
    pub fn new(
        nodes: Vec<Node>,
        offsets: Vec<usize>,
        edges: Vec<Edge>,
        charging_nodes: Vec<ChargingNode>,
    ) -> (r: Result<Graph, SnapshotError>)
        ensures
            match r {
                Ok(g) => {
                    &&& g.wf()
                    &&& g.nodes@ == nodes@
                    &&& g.offsets@ == offsets@
                    &&& g.edges@ == edges@
                    &&& g.charging_nodes@ == charging_nodes@
                },
                Err(e) => e == SnapshotError::Corrupt && !csr_wf(nodes@.len() as int, offsets@, edges@),
            },
    {
        if !check_csr(nodes.len(), &offsets, &edges) {
            return Err(SnapshotError::Corrupt);
        }
        let (cell_index, cells) = grid::create(&nodes);
        Ok(Graph { nodes, offsets, edges, cell_index, cells, charging_nodes })
    }
}

} // verus!
