//! The search frontier: a binary min-heap of entries ordered by priority
//! (cost plus heuristic), then node index, then cost.
use vstd::multiset::Multiset;
use vstd::prelude::*;

verus! {

broadcast use vstd::seq_lib::group_to_multiset_ensures;

/// A frontier entry: a node index, the cost at which it was reached, and the
/// heuristic estimate of the rest of the way.
#[derive(Debug, Clone, Copy, PartialEq, Eq, Structural)]
pub struct RouterNode {
    pub index: usize,
    pub cost: u32,
    pub heuristic: u32,
}

/// The priority of an entry: cost plus heuristic.
pub open spec fn priority_of(n: RouterNode) -> int {
    n.cost + n.heuristic
}

/// `a` leaves the queue no later than `b`: lower priority first, then lower
/// node index, then lower cost. Entries equal in all three are equal.
pub open spec fn goes_first(a: RouterNode, b: RouterNode) -> bool {
    ||| priority_of(a) < priority_of(b)
    ||| (priority_of(a) == priority_of(b) && a.index < b.index)
    ||| (priority_of(a) == priority_of(b) && a.index == b.index && a.cost <= b.cost)
}

/// Ties are broken deterministically: of any entries, at most one goes no
/// later than all the others, so what `pop` returns depends on the queue's
/// contents alone.
pub proof fn lemma_first_is_unique(m: Multiset<RouterNode>, x: RouterNode, y: RouterNode)
    requires
        m.contains(x),
        m.contains(y),
        forall|e: RouterNode| #[trigger] m.contains(e) ==> goes_first(x, e),
        forall|e: RouterNode| #[trigger] m.contains(e) ==> goes_first(y, e),
    ensures
        x == y,
{
    assert(goes_first(x, y) && goes_first(y, x));
}

impl RouterNode {
    /// An entry for node `index` reached at `cost`, with estimate `heuristic`.
    pub fn new(index: usize, cost: u32, heuristic: u32) -> (r: Self)
        ensures
            r == (RouterNode { index, cost, heuristic }),
    {
        Self { index, cost, heuristic }
    }

    /// Cost plus heuristic.
    pub fn priority(&self) -> (r: u64)
        ensures
            r == priority_of(*self),
    {
        self.cost as u64 + self.heuristic as u64
    }
}

fn first_of(a: &RouterNode, b: &RouterNode) -> (r: bool)
    ensures
        r == goes_first(*a, *b),
{
    let pa = a.priority();
    let pb = b.priority();
    pa < pb || (pa == pb && a.index < b.index) || (pa == pb && a.index == b.index && a.cost <= b.cost)
}

/// Heap position `k` is a child of position `p`.
pub open spec fn is_child(p: int, k: int) -> bool {
    k == 2 * p + 1 || k == 2 * p + 2
}

/// Every entry goes no earlier than its parent.
pub open spec fn heap_ordered(s: Seq<RouterNode>) -> bool {
    forall|p: int, k: int|
        0 <= p && is_child(p, k) && k < s.len() ==> goes_first(#[trigger] s[p], #[trigger] s[k])
}

/// A min-priority queue of frontier entries.
pub struct MinQueue {
    heap: Vec<RouterNode>,
}

impl View for MinQueue {
    type V = Multiset<RouterNode>;

    closed spec fn view(&self) -> Multiset<RouterNode> {
        self.heap@.to_multiset()
    }
}

proof fn lemma_root_first(s: Seq<RouterNode>, j: int)
    requires
        heap_ordered(s),
        0 <= j < s.len(),
    ensures
        goes_first(s[0], s[j]),
    decreases j,
{
    if j > 0 {
        let p = (j - 1) / 2;
        assert(is_child(p, j));
        lemma_root_first(s, p);
        assert(goes_first(s[p], s[j]));
    }
}

proof fn lemma_swap_multiset(s: Seq<RouterNode>, i: int, j: int)
    requires
        0 <= i < s.len(),
        0 <= j < s.len(),
    ensures
        s.update(i, s[j]).update(j, s[i]).to_multiset() =~= s.to_multiset(),
{
    broadcast use vstd::multiset::group_multiset_axioms;

    let s1 = s.update(i, s[j]);
    vstd::seq_lib::to_multiset_update(s, i, s[j]);
    vstd::seq_lib::to_multiset_update(s1, j, s[i]);
    if i == j {
        assert(s.update(i, s[j]).update(j, s[i]) =~= s);
    } else {
        assert(s1[j] == s[j]);
    }
}

impl MinQueue {
    /// The heap invariant.
    pub closed spec fn wf(&self) -> bool {
        heap_ordered(self.heap@)
    }

    /// An empty queue.
    pub fn new() -> (r: Self)
        ensures
            r.wf(),
            r@ =~= Multiset::<RouterNode>::empty(),
    {
        let r = MinQueue { heap: Vec::new() };
        proof {
            broadcast use vstd::multiset::group_multiset_axioms;
            assert(r.heap@ =~= Seq::<RouterNode>::empty());
        }
        r
    }

    /// The number of entries.
    pub fn len(&self) -> (r: usize)
        ensures
            r == self@.len(),
    {
        self.heap.len()
    }

    /// Whether the queue is empty.
    pub fn is_empty(&self) -> (r: bool)
        ensures
            r == (self@.len() == 0),
    {
        self.heap.len() == 0
    }

    /// Adds an entry.
    pub fn push(&mut self, n: RouterNode)
        requires
            old(self).wf(),
        ensures
            final(self).wf(),
            final(self)@ == old(self)@.insert(n),
    {
        self.heap.push(n);
        let ghost added = self.heap@;
        let mut i: usize = self.heap.len() - 1;
        let mut done = false;
        while i > 0 && !done
            invariant
                0 <= i < self.heap@.len(),
                self.heap@.to_multiset() == added.to_multiset(),
                forall|p: int, k: int|
                    0 <= p && is_child(p, k) && k < self.heap@.len() && k != i ==> goes_first(
                        #[trigger] self.heap@[p],
                        #[trigger] self.heap@[k],
                    ),
                forall|p: int, k: int|
                    0 <= p && is_child(p, i as int) && is_child(i as int, k) && k < self.heap@.len()
                        ==> goes_first(#[trigger] self.heap@[p], #[trigger] self.heap@[k]),
                done ==> forall|p: int|
                    0 <= p && is_child(p, i as int) ==> goes_first(#[trigger] self.heap@[p], self.heap@[i as int]),
            decreases i, (if done { 0int } else { 1int }),
        {
            let p = (i - 1) / 2;
            assert(is_child(p as int, i as int));
            if first_of(&self.heap[p], &self.heap[i]) {
                proof {
                    assert forall|q: int| 0 <= q && is_child(q, i as int) implies goes_first(
                        #[trigger] self.heap@[q],
                        self.heap@[i as int],
                    ) by {
                        assert(q == p);
                    }
                }
                done = true;
                continue;
            }
            let a = self.heap[p];
            let b = self.heap[i];
            let ghost before = self.heap@;
            self.heap.set(p, b);
            self.heap.set(i, a);
            proof {
                lemma_swap_multiset(before, p as int, i as int);
                assert(self.heap@ =~= before.update(p as int, before[i as int]).update(
                    i as int,
                    before[p as int],
                ));
                assert forall|q: int, k: int|
                    0 <= q && is_child(q, k) && k < self.heap@.len() && k != p implies goes_first(
                        #[trigger] self.heap@[q],
                        #[trigger] self.heap@[k],
                    ) by {
                    {
                        if k == i {
                            assert(q == p);
                        } else if q == i {
                            assert(goes_first(before[p as int], before[k]));
                        } else if q == p {
                            assert(goes_first(before[p as int], before[k]));
                        } else {
                            assert(goes_first(before[q], before[k]));
                        }
                    }
                }
                assert forall|q: int, k: int|
                    0 <= q && is_child(q, p as int) && is_child(p as int, k) && k < self.heap@.len()
                        implies goes_first(#[trigger] self.heap@[q], #[trigger] self.heap@[k]) by {
                    {
                        assert(goes_first(before[q], before[p as int]));
                        if k != i {
                            assert(goes_first(before[p as int], before[k]));
                        }
                    }
                }
            }
            i = p;
        }
        proof {
            assert(heap_ordered(self.heap@)) by {
                assert forall|q: int, k: int|
                    0 <= q && is_child(q, k) && k < self.heap@.len() implies goes_first(
                        #[trigger] self.heap@[q],
                        #[trigger] self.heap@[k],
                    ) by {
                    if k == i {
                        assert(done);
                    }
                }
            }
        }
    }

    /// Removes and returns the entry that goes first.
    pub fn pop(&mut self) -> (r: Option<RouterNode>)
        requires
            old(self).wf(),
        ensures
            final(self).wf(),
            old(self)@.len() == 0 ==> r is None && final(self)@ == old(self)@,
            old(self)@.len() > 0 ==> (r matches Some(x) && old(self)@.contains(x) && final(self)@
                == old(self)@.remove(x) && forall|y: RouterNode|
                #[trigger] old(self)@.contains(y) ==> goes_first(x, y)),
    {
        if self.heap.len() == 0 {
            return None;
        }
        let ghost orig = self.heap@;
        let last = self.heap.len() - 1;
        let top = self.heap[0];
        proof {
            assert forall|y: RouterNode| #[trigger] orig.to_multiset().contains(y) implies goes_first(top, y) by {
                assert(orig.contains(y));
                let j = choose|j: int| 0 <= j < orig.len() && orig[j] == y;
                lemma_root_first(orig, j);
            }
        }
        let moved = self.heap[last];
        self.heap.set(0, moved);
        self.heap.pop();
        let ghost rest = self.heap@;
        proof {
            broadcast use vstd::multiset::group_multiset_axioms;
            if last > 0 {
                assert(rest =~= orig.update(0, orig[last as int]).drop_last());
                vstd::seq_lib::to_multiset_update(orig, 0, orig[last as int]);
                assert(orig.update(0, orig[last as int]).drop_last() =~= orig.update(0, orig[last as int]).remove(last as int));
                vstd::seq_lib::to_multiset_remove(orig.update(0, orig[last as int]), last as int);
                assert(rest.to_multiset() =~= orig.to_multiset().remove(top));
            } else {
                assert(rest =~= Seq::<RouterNode>::empty());
                assert(orig =~= seq![top]);
                assert(rest.to_multiset() =~= orig.to_multiset().remove(top));
            }
        }
        let n = self.heap.len();
        let half = n / 2;
        let mut i: usize = 0;
        let mut done = false;
        while i < half && !done
            invariant
                n == self.heap@.len(),
                half == n / 2,
                i < n || n == 0,
                self.heap@.to_multiset() == rest.to_multiset(),
                forall|p: int, k: int|
                    0 <= p && is_child(p, k) && k < n && p != i ==> goes_first(
                        #[trigger] self.heap@[p],
                        #[trigger] self.heap@[k],
                    ),
                forall|q: int, k: int|
                    0 <= q && is_child(q, i as int) && is_child(i as int, k) && k < n ==> goes_first(
                        #[trigger] self.heap@[q],
                        #[trigger] self.heap@[k],
                    ),
                done ==> forall|k: int|
                    is_child(i as int, k) && k < n ==> goes_first(self.heap@[i as int], #[trigger] self.heap@[k]),
            decreases n - i, (if done { 0int } else { 1int }),
        {
            let left = 2 * i + 1;
            let right = left + 1;
            let child = if right < n && !first_of(&self.heap[left], &self.heap[right]) {
                right
            } else {
                left
            };
            assert(is_child(i as int, child as int));
            assert(goes_first(self.heap@[child as int], self.heap@[left as int]));
            assert(right < n ==> goes_first(self.heap@[child as int], self.heap@[right as int]));
            if first_of(&self.heap[i], &self.heap[child]) {
                done = true;
                continue;
            }
            let a = self.heap[i];
            let b = self.heap[child];
            let ghost before = self.heap@;
            self.heap.set(i, b);
            self.heap.set(child, a);
            proof {
                lemma_swap_multiset(before, i as int, child as int);
                assert(self.heap@ =~= before.update(i as int, before[child as int]).update(
                    child as int,
                    before[i as int],
                ));
                assert forall|p: int, k: int|
                    0 <= p && is_child(p, k) && k < n && p != child implies goes_first(
                        #[trigger] self.heap@[p],
                        #[trigger] self.heap@[k],
                    ) by {
                    {
                        if p == i {
                            if k != child {
                                assert(goes_first(before[child as int], before[k]));
                            }
                        } else if k == i {
                            assert(goes_first(before[p], before[child as int]));
                        } else {
                            assert(goes_first(before[p], before[k]));
                        }
                    }
                }
                assert forall|q: int, k: int|
                    0 <= q && is_child(q, child as int) && is_child(child as int, k) && k < n implies goes_first(
                        #[trigger] self.heap@[q],
                        #[trigger] self.heap@[k],
                    ) by {
                    {
                        assert(q == i);
                        assert(goes_first(before[child as int], before[k]));
                    }
                }
            }
            i = child;
        }
        proof {
            assert(heap_ordered(self.heap@)) by {
                assert forall|p: int, k: int|
                    0 <= p && is_child(p, k) && k < self.heap@.len() implies goes_first(
                        #[trigger] self.heap@[p],
                        #[trigger] self.heap@[k],
                    ) by {
                    if p == i && !done {
                        assert(k >= n);
                    }
                }
            }
        }
        Some(top)
    }
}

} // verus!
