//! Why breadth-first order is order by distance: in the tree of a
//! breadth-first traversal every node is as deep as it is far from the start.

use crate::graph::Graph;
use crate::order::identifier_count;
use crate::order::Traversal;
use vstd::prelude::*;

verus! {

impl Graph {
    /// In breadth-first order, a node visited later has its parent no
    /// earlier.
    pub proof fn lemma_bfs_parent_monotone(&self, order: Seq<i32>, i: int, k: int)
        requires
            self.is_partial(Traversal::BreadthFirst, order),
            1 <= i <= k < order.len(),
        ensures
            self.parent_index(Traversal::BreadthFirst, order, i) <= self.parent_index(
                Traversal::BreadthFirst,
                order,
                k,
            ),
    {
        let kind = Traversal::BreadthFirst;
        assert(self.follows(kind, order, i));
        assert(self.follows(kind, order, k));
        let (ji, ti) = choose|j: int, t: int| self.picks(kind, order.take(i), order[i], j, t);
        let (jk, tk) = choose|j: int, t: int| self.picks(kind, order.take(k), order[k], j, t);
        if jk < ji {
            assert(kind.passes_over(i, ji, jk));
            assert(self.exhausted(order.take(i), order.take(i)[jk]));
            assert(order.take(i)[jk] == order.take(k)[jk]);
            assert(order.take(i).contains(self.neighbors(order.take(k)[jk])[tk]));
            let m = choose|m: int| 0 <= m < i && order.take(i)[m] == order[k];
            assert(order.take(k)[m] == order[k]);
        }
    }

    /// In breadth-first order, a node visited later is at least as deep in
    /// the tree.
    pub proof fn lemma_bfs_depth_monotone(&self, order: Seq<i32>, i: int, k: int)
        requires
            self.is_partial(Traversal::BreadthFirst, order),
            0 <= i <= k < order.len(),
        ensures
            self.tree_depth(Traversal::BreadthFirst, order, i) <= self.tree_depth(
                Traversal::BreadthFirst,
                order,
                k,
            ),
        decreases k,
    {
        let kind = Traversal::BreadthFirst;
        if 0 < i < k {
            self.lemma_parent_edge(kind, order, i);
            self.lemma_parent_edge(kind, order, k);
            self.lemma_bfs_parent_monotone(order, i, k);
            self.lemma_bfs_depth_monotone(
                order,
                self.parent_index(kind, order, i),
                self.parent_index(kind, order, k),
            );
        }
    }

    /// In a whole breadth-first order, every walk from the start ends in a
    /// visited node that is no deeper in the tree than the walk is long.
    proof fn lemma_bfs_walk_is_met(&self, order: Seq<i32>, p: Seq<i32>) -> (i: int)
        requires
            self.is_partial(Traversal::BreadthFirst, order),
            self.is_complete(order),
            self.is_walk(p),
            p[0] == order[0],
        ensures
            0 <= i < order.len(),
            order[i] == p[p.len() - 1],
            self.tree_depth(Traversal::BreadthFirst, order, i) <= p.len() - 1,
        decreases p.len(),
    {
        let kind = Traversal::BreadthFirst;
        if p.len() == 1 {
            0
        } else {
            let n = p.len() - 1;
            self.lemma_walk_take(p, n);
            let k = self.lemma_bfs_walk_is_met(order, p.take(n));
            let x = p[n];
            let y = order[k];
            assert(self.has_edge(p[n - 1], p[n - 1 + 1]));
            let t = choose|t: int| 0 <= t < self.neighbors(y).len() && self.neighbors(y)[t] == x;
            assert(self.exhausted(order, order[k]));
            assert(order.contains(self.neighbors(order[k])[t]));
            let i = choose|i: int| 0 <= i < order.len() && order[i] == x;
            if i > 0 {
                assert(self.follows(kind, order, i));
                let (j, r) = choose|j: int, r: int| self.picks(kind, order.take(i), order[i], j, r);
                self.lemma_parent_index(kind, order, i, j, r);
                if k < j {
                    assert(kind.passes_over(i, j, k));
                    assert(self.exhausted(order.take(i), order.take(i)[k]));
                    assert(order.take(i).contains(self.neighbors(order.take(i)[k])[t]));
                }
                self.lemma_bfs_depth_monotone(order, j, k);
            }
            i
        }
    }

    /// In breadth-first order every node is as deep in the tree as it is far
    /// from the start.
    pub proof fn lemma_bfs_depth_is_distance(&self, found: Seq<i32>, i: int)
        requires
            self.is_partial(Traversal::BreadthFirst, found),
            0 <= i < found.len(),
        ensures
            self.reachable(found[0], found[i]),
            self.tree_depth(Traversal::BreadthFirst, found, i) == self.distance(found[0], found[i]),
    {
        let kind = Traversal::BreadthFirst;
        let start = found[0];
        let order = self.lemma_partial_extends(kind, found);
        self.lemma_tree_stable(kind, found, order, i);
        self.lemma_tree_path_is_walk(kind, order, i);
        self.lemma_distance_at_most(start, order[i], self.tree_path(kind, order, i));
        self.lemma_distance(start, order[i]);
        let d = self.distance(start, order[i]);
        let p = choose|p: Seq<i32>|
            #[trigger] self.walk_between(start, order[i], p) && p.len() == d + 1;
        self.lemma_bfs_walk_is_met(order, p);
        self.lemma_partial_no_duplicates(kind, order);
    }

    /// No reachable node is farther from the start than there are nodes with
    /// a neighbour list.
    pub proof fn lemma_distance_at_most_nodes(&self, start: i32, node: i32)
        requires
            self.reachable(start, node),
        ensures
            self.distance(start, node) <= self.adjacency().dom().len(),
    {
        let kind = Traversal::BreadthFirst;
        let order = self.visit_order(kind, start);
        self.lemma_visit_order(kind, start);
        self.lemma_traversal_visits_reachable(kind, start, order);
        assert(order.contains(node));
        let i = order.index_of(node);
        self.lemma_bfs_depth_is_distance(order, i);
        self.lemma_tree_depth_bound(kind, order, i);
    }

    /// The way from `start` down to `end` in the tree of the breadth-first
    /// traversal from `start`: each node on it is preceded by the node from
    /// whose list the traversal picked it. It is meaningful only where `end`
    /// is reachable from `start`.
    pub open spec fn bfs_tree_path(&self, start: i32, end: i32) -> Seq<i32> {
        let order = self.visit_order(Traversal::BreadthFirst, start);
        self.tree_path(Traversal::BreadthFirst, order, order.index_of(end))
    }

    /// The path that the breadth-first search finds from `start` to `end`,
    /// if there is any.
    pub open spec fn shortest_path(&self, start: i32, end: i32) -> Option<Seq<i32>> {
        if self.reachable(start, end) {
            Some(self.bfs_tree_path(start, end))
        } else {
            None
        }
    }

    /// In a beginning of the breadth-first order, the tree's way down to a
    /// node is its way in the tree of the whole traversal, and a shortest
    /// walk to that node.
    pub proof fn lemma_tree_path_is_bfs_path(&self, found: Seq<i32>, at: int)
        requires
            self.is_partial(Traversal::BreadthFirst, found),
            0 <= at < found.len(),
        ensures
            self.reachable(found[0], found[at]),
            self.tree_path(Traversal::BreadthFirst, found, at) == self.bfs_tree_path(
                found[0],
                found[at],
            ),
            self.walk_between(found[0], found[at], self.bfs_tree_path(found[0], found[at])),
            self.bfs_tree_path(found[0], found[at]).len() == self.distance(found[0], found[at])
                + 1,
    {
        let kind = Traversal::BreadthFirst;
        let start = found[0];
        let order = self.visit_order(kind, start);
        self.lemma_tree_path_is_walk(kind, found, at);
        self.lemma_bfs_depth_is_distance(found, at);
        self.lemma_visit_order(kind, start);
        self.lemma_traversal_is_longest(kind, start, order, found);
        assert(order[at] == found[at]);
        self.lemma_partial_no_duplicates(kind, order);
        self.lemma_tree_stable(kind, found, order, at);
    }

    /// Where `end` is reachable from `start`, the way down to it in the
    /// breadth-first tree is a walk from `start` to `end` with as few edges as
    /// any.
    pub proof fn lemma_bfs_tree_path(&self, start: i32, end: i32)
        requires
            self.reachable(start, end),
        ensures
            self.walk_between(start, end, self.bfs_tree_path(start, end)),
            self.bfs_tree_path(start, end).len() == self.distance(start, end) + 1,
    {
        let kind = Traversal::BreadthFirst;
        let order = self.visit_order(kind, start);
        self.lemma_visit_order(kind, start);
        self.lemma_traversal_visits_reachable(kind, start, order);
        let at = order.index_of(end);
        assert(order.contains(end));
        self.lemma_tree_path_is_bfs_path(order, at);
    }

    /// One step of the breadth-first search: the node at position `at` is
    /// being expanded, the nodes before it are exhausted, and `x` is the
    /// first unvisited neighbour in its list, at position `t`. Then `x` is
    /// visited next, as a child of the node at `at` and one step farther
    /// from the start, and the tree above the nodes visited so far stays as
    /// it is.
    pub(crate) proof fn lemma_bfs_enqueue(&self, found: Seq<i32>, at: int, t: int, x: i32)
        requires
            self.is_partial(Traversal::BreadthFirst, found),
            0 <= at < found.len(),
            self.exhausted_upto(found, at),
            0 <= t < self.neighbors(found[at]).len(),
            forall|r: int| 0 <= r < t ==> found.contains(#[trigger] self.neighbors(found[at])[r]),
            self.neighbors(found[at])[t] == x,
            !found.contains(x),
        ensures
            self.is_partial(Traversal::BreadthFirst, found.push(x)),
            found.push(x).len() <= identifier_count(),
            found.push(x).to_set() == found.to_set().insert(x),
            self.exhausted_upto(found.push(x), at),
            forall|r: int|
                0 <= r <= t ==> found.push(x).contains(#[trigger] self.neighbors(found[at])[r]),
            self.parent_index(Traversal::BreadthFirst, found.push(x), found.len() as int) == at,
            forall|i: int|
                0 <= i < found.len() ==> #[trigger] self.parent_index(
                    Traversal::BreadthFirst,
                    found.push(x),
                    i,
                ) == self.parent_index(Traversal::BreadthFirst, found, i),
            self.reachable(found[0], found[at]),
            self.reachable(found[0], x),
            self.distance(found[0], x) == self.distance(found[0], found[at]) + 1,
    {
        let kind = Traversal::BreadthFirst;
        let longer = found.push(x);
        let n = found.len() as int;
        assert(self.picks(kind, found, x, at, t));
        self.lemma_partial_push(kind, found, x, at, t);
        self.lemma_distinct_nodes_bound(kind, longer);
        crate::order::lemma_to_set_push(found, x);
        assert forall|k: int| 0 <= k < at implies self.exhausted(longer, #[trigger] longer[k]) by {
            self.lemma_exhausted_grows(found, longer, found[k]);
        }
        assert forall|r: int| 0 <= r <= t implies longer.contains(
            #[trigger] self.neighbors(found[at])[r],
        ) by {
            if r < t {
                crate::order::lemma_prefix_contains(found, longer, self.neighbors(found[at])[r]);
            } else {
                assert(longer[n] == x);
            }
        }
        assert(longer.take(n) =~= found);
        self.lemma_parent_index(kind, longer, n, at, t);
        assert forall|i: int| 0 <= i < found.len() implies #[trigger] self.parent_index(
            kind,
            longer,
            i,
        ) == self.parent_index(kind, found, i) by {
            self.lemma_tree_stable(kind, found, longer, i);
        }
        assert(self.tree_depth(kind, longer, n) == self.tree_depth(kind, longer, at) + 1);
        self.lemma_bfs_depth_is_distance(longer, at);
        self.lemma_bfs_depth_is_distance(longer, n);
    }
}

} // verus!
