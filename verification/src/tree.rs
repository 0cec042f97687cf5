//! The tree that a traversal leaves behind: every visited node but the first
//! hangs below the node from whose list it was picked.

use crate::graph::Graph;
use crate::order::Traversal;
use vstd::prelude::*;

verus! {

impl Graph {
    /// The position in `order` of the node from whose list the node at
    /// position `i` was picked.
    pub open spec fn parent_index(&self, kind: Traversal, order: Seq<i32>, i: int) -> int {
        (choose|j: int, t: int| self.picks(kind, order.take(i), order[i], j, t)).0
    }

    /// The number of tree edges between the first node of `order` and the
    /// node at position `i`.
    pub open spec fn tree_depth(&self, kind: Traversal, order: Seq<i32>, i: int) -> nat
        decreases i,
    {
        if i <= 0 {
            0
        } else {
            let j = self.parent_index(kind, order, i);
            if 0 <= j < i {
                self.tree_depth(kind, order, j) + 1
            } else {
                0
            }
        }
    }

    /// The nodes on the tree's way from the first node of `order` down to
    /// the node at position `i`.
    pub open spec fn tree_path(&self, kind: Traversal, order: Seq<i32>, i: int) -> Seq<i32>
        decreases i,
    {
        if i <= 0 {
            seq![order[0]]
        } else {
            let j = self.parent_index(kind, order, i);
            if 0 <= j < i {
                self.tree_path(kind, order, j).push(order[i])
            } else {
                seq![order[i]]
            }
        }
    }

    /// The nodes above the node at position `i` in the tree.
    pub open spec fn ancestors(&self, kind: Traversal, order: Seq<i32>, i: int) -> Set<i32>
        decreases i,
    {
        if i <= 0 {
            Set::empty()
        } else {
            let j = self.parent_index(kind, order, i);
            if 0 <= j < i {
                self.ancestors(kind, order, j).insert(order[j])
            } else {
                Set::empty()
            }
        }
    }

    /// A rule picks at most one next node, from one position of one list.
    pub proof fn lemma_picks_unique(
        &self,
        kind: Traversal,
        seen: Seq<i32>,
        x1: i32,
        j1: int,
        t1: int,
        x2: i32,
        j2: int,
        t2: int,
    )
        requires
            self.picks(kind, seen, x1, j1, t1),
            self.picks(kind, seen, x2, j2, t2),
        ensures
            j1 == j2,
            t1 == t2,
            x1 == x2,
    {
        let len = seen.len() as int;
        if j1 != j2 {
            if kind.passes_over(len, j1, j2) {
                assert(self.exhausted(seen, seen[j2]));
                assert(seen.contains(self.neighbors(seen[j2])[t2]));
            } else {
                assert(kind.passes_over(len, j2, j1));
                assert(self.exhausted(seen, seen[j1]));
                assert(seen.contains(self.neighbors(seen[j1])[t1]));
            }
        }
        let width = self.neighbors(seen[j1]).len() as int;
        if t1 != t2 {
            if kind.skips(width, t1, t2) {
                assert(seen.contains(self.neighbors(seen[j1])[t2]));
            } else {
                assert(kind.skips(width, t2, t1));
                assert(seen.contains(self.neighbors(seen[j1])[t1]));
            }
        }
    }

    /// The parent of a node is the node from whose list the rule picked it.
    pub proof fn lemma_parent_index(&self, kind: Traversal, order: Seq<i32>, i: int, j: int, t: int)
        requires
            self.picks(kind, order.take(i), order[i], j, t),
        ensures
            self.parent_index(kind, order, i) == j,
    {
        let (a, b) = choose|a: int, b: int| self.picks(kind, order.take(i), order[i], a, b);
        self.lemma_picks_unique(kind, order.take(i), order[i], a, b, order[i], j, t);
    }

    /// In the beginning of a traversal every node but the first has its
    /// parent before it, and an edge leads from the parent to the node.
    pub proof fn lemma_parent_edge(&self, kind: Traversal, order: Seq<i32>, i: int)
        requires
            self.is_partial(kind, order),
            1 <= i < order.len(),
        ensures
            0 <= self.parent_index(kind, order, i) < i,
            self.has_edge(order[self.parent_index(kind, order, i)], order[i]),
    {
        assert(self.follows(kind, order, i));
        let (j, t) = choose|j: int, t: int| self.picks(kind, order.take(i), order[i], j, t);
        assert(order.take(i)[j] == order[j]);
    }

    /// The tree below the first `n` nodes does not depend on what is visited
    /// after them.
    pub proof fn lemma_tree_stable(&self, kind: Traversal, head: Seq<i32>, order: Seq<i32>, i: int)
        requires
            head.is_prefix_of(order),
            0 <= i < head.len(),
        ensures
            self.parent_index(kind, head, i) == self.parent_index(kind, order, i),
            self.tree_depth(kind, head, i) == self.tree_depth(kind, order, i),
            self.tree_path(kind, head, i) == self.tree_path(kind, order, i),
        decreases i,
    {
        assert(head.take(i) =~= order.take(i));
        assert(head[i] == order[i]);
        assert(head[0] == order[0]);
        if i > 0 {
            let j = self.parent_index(kind, head, i);
            if 0 <= j < i {
                self.lemma_tree_stable(kind, head, order, j);
            }
        }
    }

    /// The tree's way down to a node is a walk from the first node, with as
    /// many edges as the node is deep.
    pub proof fn lemma_tree_path_is_walk(&self, kind: Traversal, order: Seq<i32>, i: int)
        requires
            self.is_partial(kind, order),
            0 <= i < order.len(),
        ensures
            self.walk_between(order[0], order[i], self.tree_path(kind, order, i)),
            self.tree_path(kind, order, i).len() == self.tree_depth(kind, order, i) + 1,
        decreases i,
    {
        if i > 0 {
            self.lemma_parent_edge(kind, order, i);
            let j = self.parent_index(kind, order, i);
            self.lemma_tree_path_is_walk(kind, order, j);
            self.lemma_walk_push(self.tree_path(kind, order, j), order[i]);
        }
    }

    /// A node has as many ancestors as it is deep; they were visited before
    /// it, and each of them has a neighbour list.
    proof fn lemma_ancestors(&self, kind: Traversal, order: Seq<i32>, i: int)
        requires
            self.is_partial(kind, order),
            0 <= i < order.len(),
        ensures
            self.ancestors(kind, order, i).finite(),
            self.ancestors(kind, order, i).len() == self.tree_depth(kind, order, i),
            self.ancestors(kind, order, i).subset_of(self.adjacency().dom()),
            forall|x: i32| #[trigger]
                self.ancestors(kind, order, i).contains(x) ==> exists|k: int|
                    0 <= k < i && order[k] == x,
        decreases i,
    {
        if i > 0 {
            self.lemma_parent_edge(kind, order, i);
            let j = self.parent_index(kind, order, i);
            self.lemma_ancestors(kind, order, j);
            self.lemma_partial_no_duplicates(kind, order);
            let above = self.ancestors(kind, order, j);
            assert(!above.contains(order[j])) by {
                if above.contains(order[j]) {
                    let k = choose|k: int| 0 <= k < j && order[k] == order[j];
                    assert(order[k] != order[j]);
                }
            }
            assert(self.adjacency().contains_key(order[j]));
            assert forall|x: i32| #[trigger]
                above.insert(order[j]).contains(x) implies exists|k: int|
                0 <= k < i && order[k] == x by {
                if x != order[j] {
                    let k = choose|k: int| 0 <= k < j && order[k] == x;
                    assert(0 <= k < i && order[k] == x);
                }
            }
        }
    }

    /// No node is deeper in the tree than there are nodes with a neighbour
    /// list.
    pub proof fn lemma_tree_depth_bound(&self, kind: Traversal, order: Seq<i32>, i: int)
        requires
            self.is_partial(kind, order),
            0 <= i < order.len(),
        ensures
            self.tree_depth(kind, order, i) <= self.adjacency().dom().len(),
    {
        self.lemma_ancestors(kind, order, i);
        self.lemma_adjacency_finite();
        vstd::set_lib::lemma_len_subset(self.ancestors(kind, order, i), self.adjacency().dom());
    }
}

} // verus!
