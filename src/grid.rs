//! The spatial grid over the graph's nodes and the snapping of a point to the
//! nearest node that a mode can use.
use std::collections::HashMap;

use vstd::prelude::*;

use crate::error::RouteError;
use crate::graph::{cell_key, cells_wf, pack_cell, Graph, Node};
use crate::options::{transport_admits, Transport};
use crate::osm::{cell_of, is_metric, measure, Coordinates};

verus! {

broadcast use vstd::std_specs::hash::group_hash_axioms;

/// The cell-index key of a position.
pub fn cell_key_of(c: &Coordinates) -> (r: i64)
    ensures
        r == cell_key(*c),
        r == pack_cell(cell_of(*c).0, cell_of(*c).1),
{
    let lat = c.lat_rounded() as i64;
    let lon = c.lon_rounded() as i64;
    lat * 10000 + lon
}

/// The grid over `nodes`: the index from cell key to cell, and the cells, each
/// listing its nodes.
pub fn create(nodes: &Vec<Node>) -> (r: (HashMap<i64, usize>, Vec<Vec<usize>>))
    ensures
        cells_wf(nodes@, r.0@, r.1@),
{
    let mut index: HashMap<i64, usize> = HashMap::new();
    let mut cells: Vec<Vec<usize>> = Vec::new();
    let mut i: usize = 0;
    while i < nodes.len()
        invariant
            i <= nodes@.len(),
            forall|k: i64| #[trigger] index@.contains_key(k) ==> index@[k] < cells@.len(),
            forall|k1: i64, k2: i64|
                index@.contains_key(k1) && index@.contains_key(k2) && #[trigger] index@[k1]
                    == #[trigger] index@[k2] ==> k1 == k2,
            forall|v: int|
                0 <= v < i ==> {
                    let k = cell_key((#[trigger] nodes@[v]).coordinates);
                    &&& index@.contains_key(k)
                    &&& cells@[index@[k] as int]@.contains(v as usize)
                },
            forall|c: int| 0 <= c < cells@.len() ==> (#[trigger] cells@[c])@.len() > 0,
            forall|c: int, j1: int, j2: int|
                0 <= c < cells@.len() && 0 <= j1 < j2 < cells@[c]@.len() ==> #[trigger] cells@[c]@[j1]
                    < #[trigger] cells@[c]@[j2],
            forall|c: int, j: int|
                0 <= c < cells@.len() && 0 <= j < cells@[c]@.len() ==> {
                    let v = (#[trigger] cells@[c]@[j]) as int;
                    &&& 0 <= v < i
                    &&& index@.contains_key(cell_key(nodes@[v].coordinates))
                    &&& index@[cell_key(nodes@[v].coordinates)] == c
                },
        decreases nodes@.len() - i,
    {
        let key = cell_key_of(&nodes[i].coordinates);
        let found = index.get(&key);
        match found {
            Some(c) => {
                let c = *c;
                let ghost before = cells@;
                cells[c].push(i);
                assert forall|v: int| 0 <= v < i + 1 implies {
                    let k = cell_key((#[trigger] nodes@[v]).coordinates);
                    &&& index@.contains_key(k)
                    &&& cells@[index@[k] as int]@.contains(v as usize)
                } by {
                    let k = cell_key(nodes@[v].coordinates);
                    if v < i {
                        let d = index@[k] as int;
                        let w = choose|w: int| 0 <= w < before[d]@.len() && before[d]@[w] == v as usize;
                        assert(cells@[d]@[w] == v as usize);
                    } else {
                        assert(cells@[c as int]@[cells@[c as int]@.len() - 1] == i);
                    }
                }
                assert forall|cc: int, j: int|
                    0 <= cc < cells@.len() && 0 <= j < cells@[cc]@.len() implies {
                    let v = (#[trigger] cells@[cc]@[j]) as int;
                    &&& 0 <= v < i + 1
                    &&& index@.contains_key(cell_key(nodes@[v].coordinates))
                    &&& index@[cell_key(nodes@[v].coordinates)] == cc
                } by {
                    if cc == c && j == before[cc]@.len() {
                    } else {
                        assert(cells@[cc]@[j] == before[cc]@[j]);
                    }
                }
                assert forall|cc: int, j1: int, j2: int|
                    0 <= cc < cells@.len() && 0 <= j1 < j2 < cells@[cc]@.len() implies #[trigger] cells@[cc]@[j1]
                        < #[trigger] cells@[cc]@[j2] by {
                    assert(cells@[cc]@[j1] == before[cc]@[j1]);
                    if cc == c && j2 == before[cc]@.len() {
                        assert(before[cc]@[j1] < i);
                    } else {
                        assert(cells@[cc]@[j2] == before[cc]@[j2]);
                    }
                }
                assert forall|cc: int| 0 <= cc < cells@.len() implies (#[trigger] cells@[cc])@.len() > 0 by {
                    assert(before[cc]@.len() > 0);
                }
            },
            None => {
                let c = cells.len();
                let ghost before = cells@;
                index.insert(key, c);
                let mut list: Vec<usize> = Vec::new();
                list.push(i);
                cells.push(list);
                assert forall|v: int| 0 <= v < i + 1 implies {
                    let k = cell_key((#[trigger] nodes@[v]).coordinates);
                    &&& index@.contains_key(k)
                    &&& cells@[index@[k] as int]@.contains(v as usize)
                } by {
                    let k = cell_key(nodes@[v].coordinates);
                    if v < i {
                        let d = index@[k] as int;
                        let w = choose|w: int| 0 <= w < before[d]@.len() && before[d]@[w] == v as usize;
                        assert(cells@[d]@[w] == v as usize);
                    } else {
                        assert(cells@[c as int]@[0] == i);
                    }
                }
            },
        }
        i = i + 1;
    }
    proof {
        reveal(cells_wf);
    }
    (index, cells)
}

/// How many rings of cells lie between cells `a` and `b`: the larger of the
/// differences of their coordinates.
pub open spec fn ring_distance(a: (int, int), b: (int, int)) -> int {
    let dl = if a.0 >= b.0 { a.0 - b.0 } else { b.0 - a.0 };
    let dn = if a.1 >= b.1 { a.1 - b.1 } else { b.1 - a.1 };
    if dl >= dn { dl } else { dn }
}

/// The best candidate of a scan: a node and its distance to the query point,
/// or no node and `u32::MAX`.
struct Neighbor {
    index: Option<usize>,
    dist: u32,
}

impl Neighbor {
    /// No candidate yet.
    fn new() -> (r: Self)
        ensures
            r.index is None,
            r.dist == u32::MAX,
    {
        Self { index: None, dist: u32::MAX }
    }
}

impl Graph {
    /// The nodes of the listed cells, cell after cell.
    pub open spec fn cells_flat(&self, cells: Seq<usize>) -> Seq<usize>
        decreases cells.len(),
    {
        if cells.len() == 0 {
            Seq::empty()
        } else {
            self.cells_flat(cells.drop_last()) + self.cells@[cells.last() as int]@
        }
    }

    /// Scanning the nodes `s` in order for the nearest to `q` that has an
    /// out-edge open to `mode`: the node kept and its distance, a later node
    /// replacing it only when strictly nearer.
    pub open spec fn scan<D: Fn(Coordinates, Coordinates) -> u32>(
        &self,
        s: Seq<usize>,
        q: Coordinates,
        mode: Transport,
        dist: D,
    ) -> (Option<usize>, u32)
        decreases s.len(),
    {
        if s.len() == 0 {
            (None, u32::MAX)
        } else {
            let b = self.scan(s.drop_last(), q, mode, dist);
            let v = s.last();
            let d = measure(dist, q, self.nodes@[v as int].coordinates);
            if self.serves(v as int, mode) && d < b.1 {
                (Some(v), d)
            } else {
                b
            }
        }
    }

    /// The cell at grid coordinates (`a`, `b`) as a list of at most one cell
    /// number: empty when no node lies there.
    pub open spec fn cell_found(&self, a: int, b: int) -> Seq<usize> {
        if -2148 <= a <= 2148 && -2148 <= b <= 2148 && self.cell_index@.contains_key(
            pack_cell(a, b) as i64,
        ) {
            seq![self.cell_index@[pack_cell(a, b) as i64]]
        } else {
            Seq::empty()
        }
    }

    /// The first `k` steps along the top and bottom rows of the ring of
    /// radius `r` around (`lat`, `lon`): bottom then top cell of each column.
    pub open spec fn ring_rows(&self, lat: int, lon: int, r: int, k: int) -> Seq<usize>
        decreases k,
    {
        if k <= 0 {
            Seq::empty()
        } else {
            self.ring_rows(lat, lon, r, k - 1) + self.cell_found(lat - r + k - 1, lon - r)
                + self.cell_found(lat - r + k - 1, lon + r)
        }
    }

    /// The first `k` steps along the left and right columns of the ring,
    /// corners left out.
    pub open spec fn ring_cols(&self, lat: int, lon: int, r: int, k: int) -> Seq<usize>
        decreases k,
    {
        if k <= 0 {
            Seq::empty()
        } else {
            self.ring_cols(lat, lon, r, k - 1) + self.cell_found(lat - r, lon - r + k)
                + self.cell_found(lat + r, lon - r + k)
        }
    }

    /// The occupied cells of the ring of radius `r` around (`lat`, `lon`), in
    /// scan order.
    pub open spec fn ring_seq(&self, lat: int, lon: int, r: int) -> Seq<usize> {
        self.ring_rows(lat, lon, r, 2 * r + 1) + self.ring_cols(lat, lon, r, 2 * r - 1)
    }

    /// The number of rings the snap may examine: a tenth of the cells.
    pub open spec fn max_rings(&self) -> int {
        if self.cells@.len() / 10 > 4297 {
            4297
        } else {
            (self.cells@.len() / 10) as int
        }
    }

    /// The ring search from radius `radius` on, with `best` found so far: a
    /// ring replaces it when it holds a strictly nearer node (or nothing was
    /// found yet); the first ring that does not stops the search.
    pub open spec fn ring_search<D: Fn(Coordinates, Coordinates) -> u32>(
        &self,
        q: Coordinates,
        mode: Transport,
        dist: D,
        radius: int,
        best: (Option<usize>, u32),
    ) -> (Option<usize>, u32)
        decreases self.max_rings() + 1 - radius,
    {
        if radius > self.max_rings() || radius < 1 {
            best
        } else {
            let adj = self.scan(
                self.cells_flat(self.ring_seq(cell_of(q).0, cell_of(q).1, radius)),
                q,
                mode,
                dist,
            );
            if best.0 is None || best.1 > adj.1 {
                self.ring_search(q, mode, dist, radius + 1, adj)
            } else {
                best
            }
        }
    }

    /// What snapping `q` gives for `mode`: off the map when its cell holds no
    /// node; else the nearest usable node of its cell, improved ring by ring;
    /// no usable node at all gives `NoModeMatch`.
    #[verifier::opaque]
    pub open spec fn snap<D: Fn(Coordinates, Coordinates) -> u32>(
        &self,
        q: Coordinates,
        mode: Transport,
        dist: D,
    ) -> Result<usize, RouteError> {
        if !self.cell_index@.contains_key(cell_key(q)) {
            Err(RouteError::PointOffMap)
        } else {
            let own = self.cell_index@[cell_key(q)];
            let b = self.ring_search(
                q,
                mode,
                dist,
                1,
                self.scan(self.cells_flat(seq![own]), q, mode, dist),
            );
            match b.0 {
                Some(u) => Ok(u),
                None => Err(RouteError::NoModeMatch),
            }
        }
    }

    /// Node `v` lies in cell number `c`.
    pub open spec fn in_cell(&self, c: int, v: int) -> bool {
        exists|j: int| 0 <= j < self.cells@[c]@.len() && self.cells@[c]@[j] == v
    }

    /// Whether node `u` has an out-edge open to `mode`.
    pub fn serves_mode(&self, u: usize, mode: Transport) -> (r: bool)
        requires
            self.wf(),
            u < self.nodes@.len(),
        ensures
            r == self.serves(u as int, mode),
    {
        let out = self.edges(u);
        let ghost lo = self.offsets@[u as int] as int;
        assert(self.offsets@[u as int] <= self.offsets@[u + 1] <= self.offsets@[self.nodes@.len() as int]);
        let mut k: usize = 0;
        while k < out.len()
            invariant
                self.wf(),
                u < self.nodes@.len(),
                lo == self.offsets@[u as int],
                self.offsets@[u as int] <= self.offsets@[u + 1] <= self.edges@.len(),
                k <= out@.len(),
                out@ == self.edges@.subrange(lo, self.offsets@[u + 1] as int),
                forall|i: int| 0 <= i < k ==> !transport_admits(#[trigger] out@[i].transport, mode),
            decreases out@.len() - k,
        {
            if out[k].transport.contains(mode) {
                assert(self.edges@[lo + k] == out@[k as int]);
                return true;
            }
            k = k + 1;
        }
        assert forall|i: int|
            self.offsets@[u as int] <= i < self.offsets@[u + 1] implies !transport_admits(
            (#[trigger] self.edges@[i]).transport,
            mode,
        ) by {
            assert(out@[i - lo] == self.edges@[i]);
        }
        false
    }

    /// The node nearest to `coords` among those in the listed cells that have
    /// an out-edge open to `mode`; the first of equals in scan order.
    fn closest<D: Fn(Coordinates, Coordinates) -> u32>(
        &self,
        cells: &Vec<usize>,
        coords: &Coordinates,
        mode: Transport,
        dist: &D,
    ) -> (r: Neighbor)
        requires
            self.wf(),
            is_metric(*dist),
            forall|i: int| 0 <= i < cells@.len() ==> #[trigger] cells@[i] < self.cells@.len(),
        ensures
            r.index matches Some(u) ==> {
                &&& u < self.nodes@.len()
                &&& self.serves(u as int, mode)
                &&& r.dist == measure(*dist, *coords, self.nodes@[u as int].coordinates)
                &&& r.dist < u32::MAX
            },
            r.index is None ==> r.dist == u32::MAX,
            forall|i: int, v: int|
                0 <= i < cells@.len() && #[trigger] self.in_cell(cells@[i] as int, v) && self.serves(
                    v,
                    mode,
                ) ==> r.dist <= measure(*dist, *coords, self.nodes@[v].coordinates),
            (r.index, r.dist) == self.scan(self.cells_flat(cells@), *coords, mode, *dist),
    {
        proof {
            reveal(cells_wf);
        }
        let mut best = Neighbor::new();
        let mut i: usize = 0;
        assert(cells@.subrange(0, 0) =~= Seq::<usize>::empty());
        assert(self.cells_flat(Seq::<usize>::empty()) =~= Seq::<usize>::empty());
        while i < cells.len()
            invariant
                self.wf(),
                is_metric(*dist),
                cells_wf(self.nodes@, self.cell_index@, self.cells@),
                forall|x: int| 0 <= x < cells@.len() ==> #[trigger] cells@[x] < self.cells@.len(),
                i <= cells@.len(),
                best.index matches Some(u) ==> {
                    &&& u < self.nodes@.len()
                    &&& self.serves(u as int, mode)
                    &&& best.dist == measure(*dist, *coords, self.nodes@[u as int].coordinates)
                    &&& best.dist < u32::MAX
                },
                best.index is None ==> best.dist == u32::MAX,
                forall|x: int, v: int|
                    0 <= x < i && #[trigger] self.in_cell(cells@[x] as int, v) && self.serves(v, mode)
                        ==> best.dist <= measure(*dist, *coords, self.nodes@[v].coordinates),
                (best.index, best.dist) == self.scan(self.cells_flat(cells@.subrange(0, i as int)), *coords, mode, *dist),
            decreases cells@.len() - i,
        {
            let c = cells[i];
            let list = &self.cells[c];
            let mut j: usize = 0;
            while j < list.len()
                invariant
                    self.wf(),
                    is_metric(*dist),
                    cells_wf(self.nodes@, self.cell_index@, self.cells@),
                    c < self.cells@.len(),
                    *list == self.cells@[c as int],
                    j <= list@.len(),
                    best.index matches Some(u) ==> {
                        &&& u < self.nodes@.len()
                        &&& self.serves(u as int, mode)
                        &&& best.dist == measure(*dist, *coords, self.nodes@[u as int].coordinates)
                        &&& best.dist < u32::MAX
                    },
                    best.index is None ==> best.dist == u32::MAX,
                    forall|x: int|
                        0 <= x < cells@.len() ==> #[trigger] cells@[x] < self.cells@.len(),
                    i < cells@.len(),
                    c == cells@[i as int],
                    forall|x: int, v: int|
                        0 <= x < i && #[trigger] self.in_cell(cells@[x] as int, v) && self.serves(v, mode)
                            ==> best.dist <= measure(*dist, *coords, self.nodes@[v].coordinates),
                    (best.index, best.dist) == self.scan(
                        self.cells_flat(cells@.subrange(0, i as int)) + list@.subrange(0, j as int),
                        *coords,
                        mode,
                        *dist,
                    ),
                    forall|y: int|
                        0 <= y < j && self.serves(#[trigger] list@[y] as int, mode)
                            ==> best.dist <= measure(*dist, *coords, self.nodes@[list@[y] as int].coordinates),
                decreases list@.len() - j,
            {
                let v = list[j];
                proof {
                    reveal(cells_wf);
                }
                assert(self.cells@[c as int]@[j as int] == v);
                assert(v < self.nodes@.len());
                let ghost pre = self.cells_flat(cells@.subrange(0, i as int)) + list@.subrange(0, j as int);
                let ghost post = self.cells_flat(cells@.subrange(0, i as int)) + list@.subrange(0, j + 1);
                assert(post.drop_last() =~= pre);
                assert(post.last() == v);
                if self.serves_mode(v, mode) {
                    let d = dist(*coords, self.nodes[v].coordinates);
                    assert(d == measure(*dist, *coords, self.nodes@[v as int].coordinates));
                    if d < best.dist {
                        best = Neighbor { index: Some(v), dist: d };
                    }
                }
                j = j + 1;
            }
            proof {
                let sub = cells@.subrange(0, i + 1);
                assert(sub.drop_last() =~= cells@.subrange(0, i as int));
                assert(sub.last() == c);
                assert(list@.subrange(0, list@.len() as int) =~= list@);
                assert(self.cells_flat(sub) == self.cells_flat(cells@.subrange(0, i as int)) + list@);
            }
            assert forall|x: int, v: int|
                0 <= x < i + 1 && #[trigger] self.in_cell(cells@[x] as int, v) && self.serves(v, mode)
                    implies best.dist <= measure(*dist, *coords, self.nodes@[v].coordinates) by {
                if x == i {
                    let y = choose|y: int| 0 <= y < list@.len() && list@[y] == v;
                    assert(self.serves(list@[y] as int, mode));
                }
            }
            i = i + 1;
        }
        assert(cells@.subrange(0, cells@.len() as int) =~= cells@);
        best
    }

    fn push_cell(&self, lat: i64, lon: i64, out: &mut Vec<usize>)
        requires
            self.wf(),
            forall|i: int| 0 <= i < old(out)@.len() ==> #[trigger] old(out)@[i] < self.cells@.len(),
        ensures
            forall|i: int| 0 <= i < final(out)@.len() ==> #[trigger] final(out)@[i] < self.cells@.len(),
            forall|v: int|
                0 <= v < self.nodes@.len() && cell_of(#[trigger] self.nodes@[v].coordinates) == (
                lat as int,
                lon as int,
                ) ==> exists|i: int| 0 <= i < final(out)@.len() && self.in_cell(final(out)@[i] as int, v),
            forall|i: int| 0 <= i < old(out)@.len() ==> final(out)@[i] == old(out)@[i],
            old(out)@.len() <= final(out)@.len(),
            final(out)@ == old(out)@ + self.cell_found(lat as int, lon as int),
    {
        proof {
            reveal(cells_wf);
        }
        let ghost before = out@;
        let node_count = self.nodes.len();
        assert(self.nodes@.len() == node_count);
        if -2148 <= lat && lat <= 2148 && -2148 <= lon && lon <= 2148 {
            let key = lat * 10000 + lon;
            if let Some(c) = self.cell_index.get(&key) {
                out.push(*c);
                assert(out@ =~= before + self.cell_found(lat as int, lon as int));
                assert forall|v: int|
                    0 <= v < self.nodes@.len() && cell_of(#[trigger] self.nodes@[v].coordinates) == (
                    lat as int,
                    lon as int,
                    ) implies exists|i: int| 0 <= i < out@.len() && self.in_cell(out@[i] as int, v) by {
                    let k = cell_key(self.nodes@[v].coordinates);
                    assert(k == key);
                    assert(self.cell_index@[k] == *c);
                    assert(self.cells@[*c as int]@.contains(v as usize));
                    let j = choose|j: int| 0 <= j < self.cells@[*c as int]@.len() && self.cells@[*c as int]@[j] == v as usize;
                    assert(v < self.nodes@.len());
                    assert(self.cells@[*c as int]@[j] as int == v);
                    assert(out@[before.len() as int] == *c);
                    assert(self.in_cell(out@[before.len() as int] as int, v));
                }
            } else {
                assert forall|v: int|
                    0 <= v < self.nodes@.len() && cell_of(#[trigger] self.nodes@[v].coordinates) == (
                    lat as int,
                    lon as int,
                    ) implies false by {
                    assert(cell_key(self.nodes@[v].coordinates) == key);
                }
                assert(out@ =~= before + self.cell_found(lat as int, lon as int));
            }
        } else {
            assert forall|v: int|
                0 <= v < self.nodes@.len() && cell_of(#[trigger] self.nodes@[v].coordinates) == (
                lat as int,
                lon as int,
                ) implies false by {
                assert(-2148 <= cell_of(self.nodes@[v].coordinates).0 <= 2148);
                assert(-2148 <= cell_of(self.nodes@[v].coordinates).1 <= 2148);
            }
            assert(out@ =~= before + self.cell_found(lat as int, lon as int));
        }
    }

    /// The occupied cells on the square ring `radius` cells around the cell
    /// of `coords`.
    fn adjacent_cells(&self, coords: &Coordinates, radius: usize) -> (r: Vec<usize>)
        requires
            self.wf(),
            1 <= radius <= 4297,
        ensures
            forall|i: int| 0 <= i < r@.len() ==> #[trigger] r@[i] < self.cells@.len(),
            forall|v: int|
                0 <= v < self.nodes@.len() && ring_distance(
                    cell_of(#[trigger] self.nodes@[v].coordinates),
                    cell_of(*coords),
                ) == radius ==> exists|i: int| 0 <= i < r@.len() && self.in_cell(r@[i] as int, v),
            r@ == self.ring_seq(cell_of(*coords).0, cell_of(*coords).1, radius as int),
    {
        let lat = coords.lat_rounded() as i64;
        let lon = coords.lon_rounded() as i64;
        let r = radius as i64;
        let mut out: Vec<usize> = Vec::new();
        let mut i: i64 = -r;
        while i <= r
            invariant
                self.wf(),
                lat == cell_of(*coords).0,
                lon == cell_of(*coords).1,
                -2148 <= lat <= 2148,
                -2148 <= lon <= 2148,
                1 <= r <= 4297,
                -r <= i <= r + 1,
                out@ == self.ring_rows(lat as int, lon as int, r as int, i + r),
                forall|x: int| 0 <= x < out@.len() ==> #[trigger] out@[x] < self.cells@.len(),
                forall|v: int|
                    0 <= v < self.nodes@.len() && ({
                        let c = cell_of(#[trigger] self.nodes@[v].coordinates);
                        (c.1 == lon - r || c.1 == lon + r) && lat - r <= c.0 < lat + i
                    }) ==> exists|x: int| 0 <= x < out@.len() && self.in_cell(out@[x] as int, v),
            decreases r + 1 - i,
        {
            let ghost o0 = out@;
            self.push_cell(lat + i, lon - r, &mut out);
            let ghost o1 = out@;
            self.push_cell(lat + i, lon + r, &mut out);
            proof {
                assert(out@ =~= self.ring_rows(lat as int, lon as int, r as int, i + r + 1));
                assert forall|v: int|
                    0 <= v < self.nodes@.len() && ({
                        let c = cell_of(#[trigger] self.nodes@[v].coordinates);
                        (c.1 == lon - r || c.1 == lon + r) && lat - r <= c.0 < lat + i + 1
                    }) implies exists|x: int| 0 <= x < out@.len() && self.in_cell(out@[x] as int, v) by {
                    let c = cell_of(self.nodes@[v].coordinates);
                    if c.0 < lat + i {
                        let x = choose|x: int| 0 <= x < o0.len() && self.in_cell(o0[x] as int, v);
                        assert(out@[x] == o1[x] && o1[x] == o0[x]);
                    } else if c.1 == lon - r {
                        let x = choose|x: int| 0 <= x < o1.len() && self.in_cell(o1[x] as int, v);
                        assert(out@[x] == o1[x]);
                    }
                }
            }
            i = i + 1;
        }
        assert(self.ring_cols(lat as int, lon as int, r as int, 0) =~= Seq::<usize>::empty());
        assert(out@ =~= self.ring_rows(lat as int, lon as int, r as int, 2 * r + 1) + self.ring_cols(
            lat as int,
            lon as int,
            r as int,
            0,
        ));
        let mut j: i64 = -r + 1;
        while j < r
            invariant
                self.wf(),
                lat == cell_of(*coords).0,
                lon == cell_of(*coords).1,
                -2148 <= lat <= 2148,
                -2148 <= lon <= 2148,
                1 <= r <= 4297,
                -r + 1 <= j <= r,
                out@ == self.ring_rows(lat as int, lon as int, r as int, 2 * r + 1) + self.ring_cols(
                    lat as int,
                    lon as int,
                    r as int,
                    j + r - 1,
                ),
                forall|x: int| 0 <= x < out@.len() ==> #[trigger] out@[x] < self.cells@.len(),
                forall|v: int|
                    0 <= v < self.nodes@.len() && ({
                        let c = cell_of(#[trigger] self.nodes@[v].coordinates);
                        ((c.1 == lon - r || c.1 == lon + r) && lat - r <= c.0 <= lat + r) || ((c.0
                            == lat - r || c.0 == lat + r) && lon - r < c.1 < lon + j)
                    }) ==> exists|x: int| 0 <= x < out@.len() && self.in_cell(out@[x] as int, v),
            decreases r - j,
        {
            let ghost o0 = out@;
            self.push_cell(lat - r, lon + j, &mut out);
            let ghost o1 = out@;
            self.push_cell(lat + r, lon + j, &mut out);
            proof {
                assert(self.ring_cols(lat as int, lon as int, r as int, j + r) == self.ring_cols(
                    lat as int,
                    lon as int,
                    r as int,
                    j + r - 1,
                ) + self.cell_found(lat - r, lon + j) + self.cell_found(lat + r, lon + j));
                assert(out@ =~= self.ring_rows(lat as int, lon as int, r as int, 2 * r + 1) + self.ring_cols(
                    lat as int,
                    lon as int,
                    r as int,
                    j + r,
                ));
                assert forall|v: int|
                    0 <= v < self.nodes@.len() && ({
                        let c = cell_of(#[trigger] self.nodes@[v].coordinates);
                        ((c.1 == lon - r || c.1 == lon + r) && lat - r <= c.0 <= lat + r) || ((c.0
                            == lat - r || c.0 == lat + r) && lon - r < c.1 < lon + j + 1)
                    }) implies exists|x: int| 0 <= x < out@.len() && self.in_cell(out@[x] as int, v) by {
                    let c = cell_of(self.nodes@[v].coordinates);
                    if ((c.1 == lon - r || c.1 == lon + r) && lat - r <= c.0 <= lat + r) || c.1 < lon + j {
                        let x = choose|x: int| 0 <= x < o0.len() && self.in_cell(o0[x] as int, v);
                        assert(out@[x] == o1[x] && o1[x] == o0[x]);
                    } else if c.0 == lat - r {
                        let x = choose|x: int| 0 <= x < o1.len() && self.in_cell(o1[x] as int, v);
                        assert(out@[x] == o1[x]);
                    }
                }
            }
            j = j + 1;
        }
        out
    }

    /// No node that has an out-edge open to `mode` and lies within `reach`
    /// rings of the cell of `q` is nearer to `q` than `best`.
    pub open spec fn none_nearer<D: Fn(Coordinates, Coordinates) -> u32>(
        &self,
        q: Coordinates,
        mode: Transport,
        dist: D,
        best: u32,
        reach: int,
    ) -> bool {
        forall|v: int|
            0 <= v < self.nodes@.len() && self.serves(v, mode) && ring_distance(
                cell_of(#[trigger] self.nodes@[v].coordinates),
                cell_of(q),
            ) <= reach ==> best <= measure(dist, q, self.nodes@[v].coordinates)
    }

    /// The node nearest to `coords` that has an out-edge open to `mode`, by
    /// the metric `dist`: the nearest in the point's own grid cell, then the
    /// search widens ring by ring, up to a tenth of the number of cells, as
    /// long as a ring holds a nearer one. The result is the nearest within
    /// the rings examined, which are at least one when there are ten cells or
    /// more; a nearer node farther out may be missed.
    pub fn nearest_neighbor<D: Fn(Coordinates, Coordinates) -> u32>(
        &self,
        coords: &Coordinates,
        mode: Transport,
        dist: &D,
    ) -> (r: Result<usize, RouteError>)
        requires
            self.wf(),
            is_metric(*dist),
        ensures
            r == Err::<usize, RouteError>(RouteError::PointOffMap) <==> !self.cell_index@.contains_key(
                cell_key(*coords),
            ),
            r == Err::<usize, RouteError>(RouteError::PointOffMap) <==> forall|v: int|
                0 <= v < self.nodes@.len() ==> cell_key(#[trigger] self.nodes@[v].coordinates) != cell_key(
                    *coords,
                ),
            r is Ok || r == Err::<usize, RouteError>(RouteError::PointOffMap) || r == Err::<
                usize,
                RouteError,
            >(RouteError::NoModeMatch),
            r matches Ok(u) ==> {
                &&& u < self.nodes@.len()
                &&& self.serves(u as int, mode)
                &&& exists|reach: int|
                    reach >= (if self.cells@.len() >= 10 { 1int } else { 0int }) && #[trigger] self.none_nearer(
                        *coords,
                        mode,
                        *dist,
                        measure(*dist, *coords, self.nodes@[u as int].coordinates),
                        reach,
                    )
            },
            r == Err::<usize, RouteError>(RouteError::NoModeMatch) ==> exists|reach: int|
                reach >= (if self.cells@.len() >= 10 { 1int } else { 0int }) && #[trigger] self.none_nearer(
                    *coords,
                    mode,
                    *dist,
                    u32::MAX,
                    reach,
                ),
            r == self.snap(*coords, mode, *dist),
    {
        proof {
            reveal(cells_wf);
            reveal(Graph::snap);
        }
        let key = cell_key_of(coords);
        let exact = match self.cell_index.get(&key) {
            Some(c) => *c,
            None => {
                proof {
                    assert forall|v: int| 0 <= v < self.nodes@.len() implies cell_key(
                        #[trigger] self.nodes@[v].coordinates,
                    ) != cell_key(*coords) by {
                        assert(self.cell_index@.contains_key(cell_key(self.nodes@[v].coordinates)));
                    }
                }
                return Err(RouteError::PointOffMap);
            },
        };
        proof {
            let v0 = self.cells@[exact as int]@[0] as int;
            assert(self.cells@[exact as int]@.len() > 0);
            assert(self.cell_index@[cell_key(self.nodes@[v0].coordinates)] == exact);
            assert(cell_key(self.nodes@[v0].coordinates) == key);
        }
        let mut list: Vec<usize> = Vec::new();
        list.push(exact);
        let mut best = self.closest(&list, coords, mode, dist);
        let ghost init = (best.index, best.dist);
        proof {
            assert(list@ =~= seq![exact]);
            assert(list@[0] == exact);
            assert forall|v: int|
                0 <= v < self.nodes@.len() && self.serves(v, mode) && ring_distance(
                    cell_of(#[trigger] self.nodes@[v].coordinates),
                    cell_of(*coords),
                ) <= 0 implies best.dist <= measure(*dist, *coords, self.nodes@[v].coordinates) by {
                assert(cell_of(self.nodes@[v].coordinates) == cell_of(*coords));
                assert(cell_key(self.nodes@[v].coordinates) == key);
                assert(self.cells@[exact as int]@.contains(v as usize));
                let node_count = self.nodes@.len();
                let j = choose|j: int| 0 <= j < self.cells@[exact as int]@.len() && self.cells@[exact as int]@[j] == v as usize;
                assert(self.in_cell(list@[0] as int, v));
            }
        }
        let tenth = self.cells.len() / 10;
        let max_radius: usize = if tenth > 4297 { 4297 } else { tenth };
        let mut radius: usize = 1;
        let mut done = false;
        let ghost mut reach: int = 0;
        while radius <= max_radius && !done
            invariant
                self.wf(),
                is_metric(*dist),
                max_radius <= 4297,
                max_radius == (if self.cells@.len() / 10 > 4297 { 4297 } else { self.cells@.len() / 10 }),
                1 <= radius <= max_radius + 1,
                reach == (if done { radius as int } else { radius - 1 }),
                best.index matches Some(u) ==> {
                    &&& u < self.nodes@.len()
                    &&& self.serves(u as int, mode)
                    &&& best.dist == measure(*dist, *coords, self.nodes@[u as int].coordinates)
                    &&& best.dist < u32::MAX
                },
                best.index is None ==> best.dist == u32::MAX,
                self.none_nearer(*coords, mode, *dist, best.dist, reach),
                self.ring_search(*coords, mode, *dist, 1, init) == (if done {
                    (best.index, best.dist)
                } else {
                    self.ring_search(*coords, mode, *dist, radius as int, (best.index, best.dist))
                }),
            decreases max_radius + 1 - radius, (if done { 0int } else { 1int }),
        {
            let ring = self.adjacent_cells(coords, radius);
            let adjacent = self.closest(&ring, coords, mode, dist);
            let ghost before = (best.index, best.dist);
            proof {
                assert(radius as int <= self.max_rings());
                assert(self.ring_search(*coords, mode, *dist, radius as int, before) == (if before.0 is None
                    || before.1 > adjacent.dist {
                    self.ring_search(*coords, mode, *dist, radius + 1, (adjacent.index, adjacent.dist))
                } else {
                    before
                }));
                assert forall|v: int|
                    0 <= v < self.nodes@.len() && self.serves(v, mode) && ring_distance(
                        cell_of(#[trigger] self.nodes@[v].coordinates),
                        cell_of(*coords),
                    ) == radius implies adjacent.dist <= measure(*dist, *coords, self.nodes@[v].coordinates) by {
                    let x = choose|x: int| 0 <= x < ring@.len() && self.in_cell(ring@[x] as int, v);
                    assert(self.in_cell(ring@[x] as int, v));
                }
            }
            if best.index.is_none() || best.dist > adjacent.dist {
                best = adjacent;
                radius = radius + 1;
                proof {
                    reach = radius - 1;
                }
            } else {
                done = true;
                proof {
                    reach = radius as int;
                }
            }
        }
        proof {
            assert(reach >= (if self.cells@.len() >= 10 { 1int } else { 0int }));
            match best.index {
                Some(u) => {
                    assert(self.none_nearer(
                        *coords,
                        mode,
                        *dist,
                        measure(*dist, *coords, self.nodes@[u as int].coordinates),
                        reach,
                    ));
                },
                None => {
                    assert(self.none_nearer(*coords, mode, *dist, u32::MAX, reach));
                },
            }
        }
        match best.index {
            Some(u) => Ok(u),
            None => Err(RouteError::NoModeMatch),
        }
    }
}

} // verus!
