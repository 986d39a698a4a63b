//! The table of nodes by dense index that the third ingest pass fills: a
//! `StableVec`, whose slots may stay empty.
use stable_vec::StableVec;
use vstd::prelude::*;

use crate::graph::Node;

verus! {

/// A node table: a `StableVec` of nodes, held opaquely, since its type's core
/// parameter is bound by a trait of its crate.
#[verifier::external_body]
pub struct NodeTable {
    table: StableVec<Node>,
}

/// The filled slots of a node table: the node at each filled index.
pub uninterp spec fn slot_nodes(v: NodeTable) -> Map<int, Node>;

/// The number of slots a node table was made with.
pub uninterp spec fn slot_bound(v: NodeTable) -> nat;

/// A table with no slot filled.
pub open spec fn no_nodes() -> Map<int, Node> {
    Map::empty()
}

/// Relies on `StableVec::with_capacity`: an empty table that can hold `n`
/// elements; it panics above `isize::MAX`.
#[verifier::external_body]
pub fn slots_with_capacity(n: usize) -> (r: NodeTable)
    requires
        n <= isize::MAX,
    ensures
        slot_nodes(r) == no_nodes(),
        slot_bound(r) == n,
{
    NodeTable { table: StableVec::with_capacity(n) }
}

/// Relies on `StableVec::insert`: puts `node` in slot `index`, replacing what
/// was there; it panics at an index not below the capacity.
#[verifier::external_body]
pub fn slots_insert(v: &mut NodeTable, index: usize, node: Node)
    requires
        index < slot_bound(*old(v)),
    ensures
        slot_nodes(*final(v)) == slot_nodes(*old(v)).insert(index as int, node),
        slot_bound(*final(v)) == slot_bound(*old(v)),
{
    v.table.insert(index, node);
}

/// Relies on `StableVec::get`: the node in slot `index`, if the slot is filled.
#[verifier::external_body]
pub fn slots_get(v: &NodeTable, index: usize) -> (r: Option<Node>)
    ensures
        r == (if slot_nodes(*v).contains_key(index as int) {
            Some(slot_nodes(*v)[index as int])
        } else {
            None
        }),
{
    v.table.get(index).copied()
}

} // verus!
