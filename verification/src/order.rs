//! What it means for a sequence of nodes to be the visiting order of a
//! traversal.
//!
//! A traversal starts at its start node and then repeatedly picks an unvisited
//! neighbour of a visited node. The three traversals differ only in which
//! visited node they pick from and which of its unvisited neighbours they
//! take, and each of these rules determines the whole order.

use crate::graph::Graph;
use vstd::prelude::*;

verus! {

/// The number of node identifiers, and so the most nodes that a traversal
/// can visit.
pub open spec fn identifier_count() -> int {
    0x1_0000_0000
}

/// The rule by which a traversal picks the next node to visit.
#[derive(Clone, Copy, Debug, PartialEq, Eq)]
pub enum Traversal {
    /// Pick from the earliest visited node that still has an unvisited
    /// neighbour, and take the first such neighbour in its list.
    BreadthFirst,
    /// Pick from the latest visited node that still has an unvisited
    /// neighbour, and take the first such neighbour in its list.
    DepthFirst,
    /// Pick from the latest visited node that still has an unvisited
    /// neighbour, and take the last such neighbour in its list.
    DepthFirstStack,
}

impl Traversal {
    /// Visited nodes at the positions `k` must have no unvisited neighbour
    /// left when the node at position `j` of `len` visited nodes is picked from.
    pub open spec fn passes_over(self, len: int, j: int, k: int) -> bool {
        match self {
            Traversal::BreadthFirst => 0 <= k < j,
            _ => j < k < len,
        }
    }

    /// Neighbours at the positions `r` must be visited already when the
    /// neighbour at position `t` of a list of `len` is taken.
    pub open spec fn skips(self, len: int, t: int, r: int) -> bool {
        match self {
            Traversal::DepthFirstStack => t < r < len,
            _ => 0 <= r < t,
        }
    }
}

impl Graph {
    /// Every neighbour of `u` occurs in `seen`.
    pub open spec fn exhausted(&self, seen: Seq<i32>, u: i32) -> bool {
        forall|t: int|
            0 <= t < self.neighbors(u).len() ==> seen.contains(#[trigger] self.neighbors(u)[t])
    }

    /// After the nodes of `seen` were visited in that order, the traversal
    /// visits `x` next: `x` is the neighbour at position `t` in the list of
    /// `seen[j]`, it is unvisited, and the rule `kind` picks this `j` and `t`.
    pub open spec fn picks(&self, kind: Traversal, seen: Seq<i32>, x: i32, j: int, t: int) -> bool {
        &&& 0 <= j < seen.len()
        &&& 0 <= t < self.neighbors(seen[j]).len()
        &&& self.neighbors(seen[j])[t] == x
        &&& !seen.contains(x)
        &&& forall|k: int|
            kind.passes_over(seen.len() as int, j, k) ==> self.exhausted(seen, #[trigger] seen[k])
        &&& forall|r: int|
            kind.skips(self.neighbors(seen[j]).len() as int, t, r) ==> seen.contains(
                #[trigger] self.neighbors(seen[j])[r],
            )
    }

    /// The node at position `i` of `order` is the one that the traversal
    /// visits after those before it.
    pub open spec fn follows(&self, kind: Traversal, order: Seq<i32>, i: int) -> bool {
        exists|j: int, t: int| self.picks(kind, order.take(i), order[i], j, t)
    }

    /// `order` is the beginning of a traversal: every node after the first
    /// is the one that the rule picks.
    pub open spec fn is_partial(&self, kind: Traversal, order: Seq<i32>) -> bool {
        &&& order.len() > 0
        &&& forall|i: int| 1 <= i < order.len() ==> #[trigger] self.follows(kind, order, i)
    }

    /// No node of `order` has an unvisited neighbour left.
    pub open spec fn is_complete(&self, order: Seq<i32>) -> bool {
        self.exhausted_upto(order, order.len() as int)
    }

    /// The first `done` nodes of `order` have no unvisited neighbour left.
    pub open spec fn exhausted_upto(&self, order: Seq<i32>, done: int) -> bool {
        forall|k: int| 0 <= k < done ==> self.exhausted(order, #[trigger] order[k])
    }

    /// `order` is the whole visiting order of the traversal `kind` from `start`.
    pub open spec fn is_traversal(&self, kind: Traversal, start: i32, order: Seq<i32>) -> bool {
        &&& self.is_partial(kind, order)
        &&& order[0] == start
        &&& self.is_complete(order)
    }

    /// A node that is exhausted stays so when more nodes are visited.
    pub proof fn lemma_exhausted_grows(&self, seen: Seq<i32>, more: Seq<i32>, u: i32)
        requires
            self.exhausted(seen, u),
            seen.is_prefix_of(more),
        ensures
            self.exhausted(more, u),
    {
        assert forall|t: int| 0 <= t < self.neighbors(u).len() implies more.contains(
            #[trigger] self.neighbors(u)[t],
        ) by {
            let x = self.neighbors(u)[t];
            assert(seen.contains(x));
            let i = choose|i: int| 0 <= i < seen.len() && seen[i] == x;
            assert(more[i] == x);
        }
    }

    /// The beginning of a traversal, extended by the node that the rule
    /// picks next, is the beginning of a traversal.
    pub proof fn lemma_partial_push(&self, kind: Traversal, order: Seq<i32>, x: i32, j: int, t: int)
        requires
            self.is_partial(kind, order),
            self.picks(kind, order, x, j, t),
        ensures
            self.is_partial(kind, order.push(x)),
    {
        let next = order.push(x);
        assert forall|i: int| 1 <= i < next.len() implies #[trigger] self.follows(
            kind,
            next,
            i,
        ) by {
            if i < order.len() {
                assert(self.follows(kind, order, i));
                let (a, b) = choose|a: int, b: int|
                    self.picks(kind, order.take(i), order[i], a, b);
                assert(next.take(i) =~= order.take(i));
                assert(self.picks(kind, next.take(i), next[i], a, b));
            } else {
                assert(next.take(i) =~= order);
                assert(self.picks(kind, next.take(i), next[i], j, t));
            }
        }
    }

    /// A traversal visits no node twice.
    pub proof fn lemma_partial_no_duplicates(&self, kind: Traversal, order: Seq<i32>)
        requires
            self.is_partial(kind, order),
        ensures
            order.no_duplicates(),
    {
        assert forall|a: int, b: int|
            0 <= a < order.len() && 0 <= b < order.len() && a != b implies order[a]
            != order[b] by {
            let (lo, hi) = if a < b {
                (a, b)
            } else {
                (b, a)
            };
            assert(self.follows(kind, order, hi));
            assert(order.take(hi)[lo] == order[lo]);
        }
    }

    /// A traversal visits at most as many nodes as there are identifiers.
    pub proof fn lemma_distinct_nodes_bound(&self, kind: Traversal, order: Seq<i32>)
        requires
            self.is_partial(kind, order),
        ensures
            order.len() <= identifier_count(),
    {
        self.lemma_partial_no_duplicates(kind, order);
        order.unique_seq_to_set();
        let all = Set::<i32>::full();
        broadcast use vstd::set_lib::full_set_properties;
        vstd::set_lib::range_set_properties::<i32>(i32::MIN, i32::MAX);
        assert(all =~= Set::<i32>::range_inclusive(i32::MIN, i32::MAX));
        vstd::set_lib::lemma_len_subset(order.to_set(), all);
    }

    /// A traversal visits only nodes that are reachable from its first node.
    pub proof fn lemma_partial_reachable(&self, kind: Traversal, order: Seq<i32>, i: int)
        requires
            self.is_partial(kind, order),
            0 <= i < order.len(),
        ensures
            self.reachable(order[0], order[i]),
        decreases i,
    {
        if i == 0 {
            self.lemma_distance_self(order[0]);
        } else {
            assert(self.follows(kind, order, i));
            let (j, t) = choose|j: int, t: int| self.picks(kind, order.take(i), order[i], j, t);
            assert(order.take(i)[j] == order[j]);
            self.lemma_partial_reachable(kind, order, j);
            self.lemma_distance_edge(order[0], order[j], order[i]);
        }
    }

    /// An order that leaves no visited node with an unvisited neighbour
    /// holds the last node of every walk that starts in it.
    pub proof fn lemma_complete_holds_walk(&self, order: Seq<i32>, p: Seq<i32>, k: int)
        requires
            self.is_complete(order),
            self.is_walk(p),
            order.contains(p[0]),
            0 <= k < p.len(),
        ensures
            order.contains(p[k]),
        decreases k,
    {
        if k > 0 {
            self.lemma_complete_holds_walk(order, p, k - 1);
            let u = p[k - 1];
            let m = choose|m: int| 0 <= m < order.len() && order[m] == u;
            assert(self.exhausted(order, order[m]));
            assert(self.has_edge(p[k - 1], p[k - 1 + 1]));
            let t = choose|t: int| 0 <= t < self.neighbors(u).len() && self.neighbors(u)[t] == p[k];
            assert(order.contains(self.neighbors(order[m])[t]));
        }
    }
}

/// The set of a sequence with one more entry is the sequence's set with
/// that entry.
pub proof fn lemma_to_set_push(s: Seq<i32>, x: i32)
    ensures
        s.push(x).to_set() == s.to_set().insert(x),
{
    let longer = s.push(x);
    assert forall|y: i32| longer.contains(y) <==> (s.contains(y) || y == x) by {
        if s.contains(y) {
            let i = choose|i: int| 0 <= i < s.len() && s[i] == y;
            assert(longer[i] == y);
        }
        if y == x {
            assert(longer[s.len() as int] == y);
        }
    }
    assert(longer.to_set() =~= s.to_set().insert(x));
}

/// What occurs in a prefix occurs in the whole sequence.
pub proof fn lemma_prefix_contains(head: Seq<i32>, whole: Seq<i32>, x: i32)
    requires
        head.is_prefix_of(whole),
        head.contains(x),
    ensures
        whole.contains(x),
{
    let i = choose|i: int| 0 <= i < head.len() && head[i] == x;
    assert(whole[i] == x);
}

} // verus!
