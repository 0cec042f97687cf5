//! What holds of every traversal, whatever the graph and the start node.

use crate::graph::Graph;
use crate::order::Traversal;
use vstd::prelude::*;

verus! {

impl Graph {
    /// Every traversal visits each node that is reachable from its start
    /// exactly once, and no other node: the order has no repetition, it
    /// holds a node if and only if the node is reachable, and it is as long
    /// as the set of reachable nodes is large.
    pub proof fn lemma_traversal_visits_reachable(
        &self,
        kind: Traversal,
        start: i32,
        order: Seq<i32>,
    )
        requires
            self.is_traversal(kind, start, order),
        ensures
            order.no_duplicates(),
            forall|x: i32| order.contains(x) <==> self.reachable(start, x),
            order.to_set() == self.reachable_set(start),
            self.reachable_set(start).finite(),
            order.len() == self.reachable_set(start).len(),
    {
        self.lemma_partial_no_duplicates(kind, order);
        assert forall|x: i32| order.contains(x) <==> self.reachable(start, x) by {
            if order.contains(x) {
                let i = choose|i: int| 0 <= i < order.len() && order[i] == x;
                self.lemma_partial_reachable(kind, order, i);
            }
            if self.reachable(start, x) {
                let p = choose|p: Seq<i32>| self.walk_between(start, x, p);
                assert(order[0] == p[0]);
                self.lemma_complete_holds_walk(order, p, p.len() - 1);
            }
        }
        assert(order.to_set() =~= self.reachable_set(start));
        order.unique_seq_to_set();
        vstd::seq_lib::seq_to_set_is_finite(order);
    }

    /// The recursive and the stack-based depth-first traversal visit the
    /// same set of nodes, as does the breadth-first traversal, though each
    /// in an order of its own.
    pub proof fn lemma_traversals_visit_same_nodes(
        &self,
        first_kind: Traversal,
        second_kind: Traversal,
        start: i32,
        first: Seq<i32>,
        second: Seq<i32>,
    )
        requires
            self.is_traversal(first_kind, start, first),
            self.is_traversal(second_kind, start, second),
        ensures
            first.to_set() == second.to_set(),
            first.len() == second.len(),
    {
        self.lemma_traversal_visits_reachable(first_kind, start, first);
        self.lemma_traversal_visits_reachable(second_kind, start, second);
    }

    /// From a node without outgoing edges a traversal visits that node alone.
    pub proof fn lemma_traversal_of_sink(&self, kind: Traversal, start: i32, order: Seq<i32>)
        requires
            self.is_traversal(kind, start, order),
            self.neighbors(start).len() == 0,
        ensures
            order == seq![start],
    {
        let alone = seq![start];
        assert(self.is_partial(kind, alone));
        assert(self.is_complete(alone));
        self.lemma_traversal_unique(kind, start, order, alone);
    }

    /// Breadth-first order is order by distance: of two visited nodes, the
    /// one visited earlier is no farther from the start.
    pub proof fn lemma_bfs_order_by_distance(&self, start: i32, order: Seq<i32>, a: int, b: int)
        requires
            self.is_traversal(Traversal::BreadthFirst, start, order),
            0 <= a <= b < order.len(),
        ensures
            self.distance(start, order[a]) <= self.distance(start, order[b]),
    {
        self.lemma_bfs_depth_is_distance(order, a);
        self.lemma_bfs_depth_is_distance(order, b);
        self.lemma_bfs_depth_monotone(order, a, b);
    }

    /// In the tree of a breadth-first traversal every node but the start is
    /// one step farther from the start than its parent.
    pub proof fn lemma_bfs_tree_edge_adds_one(&self, start: i32, order: Seq<i32>, i: int)
        requires
            self.is_traversal(Traversal::BreadthFirst, start, order),
            1 <= i < order.len(),
        ensures
            0 <= self.parent_index(Traversal::BreadthFirst, order, i) < i,
            self.has_edge(order[self.parent_index(Traversal::BreadthFirst, order, i)], order[i]),
            self.distance(start, order[i]) == self.distance(
                start,
                order[self.parent_index(Traversal::BreadthFirst, order, i)],
            ) + 1,
    {
        let j = self.parent_index(Traversal::BreadthFirst, order, i);
        self.lemma_parent_edge(Traversal::BreadthFirst, order, i);
        self.lemma_bfs_depth_is_distance(order, i);
        self.lemma_bfs_depth_is_distance(order, j);
    }

    /// A distance map gives the start the distance 0, and every other node
    /// of the breadth-first order one more than its parent in the tree.
    pub proof fn lemma_distance_map_follows_tree(
        &self,
        start: i32,
        distances: Map<i32, i32>,
        order: Seq<i32>,
        i: int,
    )
        requires
            self.is_distance_map(start, distances),
            self.is_traversal(Traversal::BreadthFirst, start, order),
            1 <= i < order.len(),
        ensures
            distances.contains_key(start),
            distances[start] == 0,
            distances.contains_key(order[i]),
            distances.contains_key(order[self.parent_index(Traversal::BreadthFirst, order, i)]),
            distances[order[i]] == distances[order[self.parent_index(
                Traversal::BreadthFirst,
                order,
                i,
            )]] + 1,
    {
        let j = self.parent_index(Traversal::BreadthFirst, order, i);
        self.lemma_distance_self(start);
        self.lemma_bfs_tree_edge_adds_one(start, order, i);
        self.lemma_partial_reachable(Traversal::BreadthFirst, order, i);
        self.lemma_partial_reachable(Traversal::BreadthFirst, order, j);
    }

    /// Every node of a distance map but the start has a neighbour in the map
    /// that is one step closer to the start.
    pub proof fn lemma_distance_map_has_parent(
        &self,
        start: i32,
        distances: Map<i32, i32>,
        node: i32,
    ) -> (parent: i32)
        requires
            self.is_distance_map(start, distances),
            distances.contains_key(node),
            node != start,
        ensures
            distances.contains_key(parent),
            self.has_edge(parent, node),
            distances[node] == distances[parent] + 1,
    {
        self.lemma_distance_predecessor(start, node)
    }

    /// The path that the breadth-first search finds has one node more than
    /// the distance map gives its end as distance; it starts at the start
    /// and ends at the end.
    pub proof fn lemma_bfs_path_matches_distance_map(
        &self,
        start: i32,
        end: i32,
        distances: Map<i32, i32>,
    )
        requires
            self.reachable(start, end),
            self.is_distance_map(start, distances),
        ensures
            distances.contains_key(end),
            self.bfs_tree_path(start, end).len() == 1 + distances[end],
            self.bfs_tree_path(start, end)[0] == start,
            self.bfs_tree_path(start, end)[self.bfs_tree_path(start, end).len() - 1] == end,
    {
        self.lemma_bfs_tree_path(start, end);
    }

    /// The path from a node to itself is that node alone.
    pub proof fn lemma_bfs_path_to_self(&self, start: i32)
        ensures
            self.reachable(start, start),
            self.bfs_tree_path(start, start) == seq![start],
    {
        self.lemma_distance_self(start);
        self.lemma_bfs_tree_path(start, start);
        assert(self.bfs_tree_path(start, start) =~= seq![start]);
    }

    /// A node that cannot be reached from another is absent from every
    /// traversal from that other node and from its distance map, and no
    /// path leads to it.
    pub proof fn lemma_unreachable_is_absent(
        &self,
        kind: Traversal,
        start: i32,
        node: i32,
        order: Seq<i32>,
        distances: Map<i32, i32>,
    )
        requires
            !self.reachable(start, node),
            self.is_traversal(kind, start, order),
            self.is_distance_map(start, distances),
        ensures
            !order.contains(node),
            !distances.contains_key(node),
            self.shortest_path(start, node) is None,
    {
        self.lemma_traversal_visits_reachable(kind, start, order);
    }

    /// A walk of an undirected graph, read backwards, is a walk.
    pub proof fn lemma_undirected_walk_reverse(&self, p: Seq<i32>)
        requires
            self.wf(),
            !self.directed(),
            self.is_walk(p),
        ensures
            self.is_walk(p.reverse()),
            p.reverse()[0] == p[p.len() - 1],
            p.reverse()[p.len() - 1] == p[0],
            p.reverse().len() == p.len(),
    {
        let q = p.reverse();
        assert forall|i: int| 0 <= i < q.len() - 1 implies self.has_edge(
            #[trigger] q[i],
            q[i + 1],
        ) by {
            let k = p.len() - 2 - i;
            assert(self.has_edge(p[k], p[k + 1]));
        }
    }

    /// In an undirected graph reachability is mutual, and so is distance: the
    /// nodes fall into components, and nothing leads from one component
    /// into another.
    pub proof fn lemma_undirected_reachable_symmetric(&self, u: i32, v: i32)
        requires
            self.wf(),
            !self.directed(),
            self.reachable(u, v),
        ensures
            self.reachable(v, u),
            self.distance(v, u) == self.distance(u, v),
    {
        self.lemma_distance(u, v);
        let d = self.distance(u, v);
        let p = choose|p: Seq<i32>| #[trigger] self.walk_between(u, v, p) && p.len() == d + 1;
        self.lemma_undirected_walk_reverse(p);
        self.lemma_distance_at_most(v, u, p.reverse());
        self.lemma_distance(v, u);
        let e = self.distance(v, u);
        let q = choose|q: Seq<i32>| #[trigger] self.walk_between(v, u, q) && q.len() == e + 1;
        self.lemma_undirected_walk_reverse(q);
        self.lemma_distance_at_most(u, v, q.reverse());
    }
}

} // verus!
