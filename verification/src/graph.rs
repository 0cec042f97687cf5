//! The adjacency-list graph that the traversals read.

use std::collections::HashMap;
use vstd::prelude::*;

verus! {

broadcast use vstd::std_specs::hash::group_hash_axioms;

/// A graph over `i32` node identifiers, stored as adjacency lists.
///
/// Each node that was ever named by an edge or declared with
/// [`Graph::ensure_node`] owns a list of neighbours, in the order in which
/// the edges were added. A neighbour may occur several times (parallel edges,
/// repeated self-loops). Whether the graph is directed is fixed at creation.
#[derive(Debug)]
pub struct Graph {
    adj_list: HashMap<i32, Vec<i32>>,
    is_directed: bool,
}

/// What a [`Graph`] stands for: its adjacency lists and its direction.
pub struct GraphView {
    /// The neighbour list of every node that has one.
    pub adjacency: Map<i32, Seq<i32>>,
    /// Whether edges are kept in one direction only.
    pub directed: bool,
}

impl View for Graph {
    type V = GraphView;

    closed spec fn view(&self) -> GraphView {
        GraphView {
            adjacency: Map::new(
                |u: i32| self.adj_list@.contains_key(u),
                |u: i32| self.adj_list@[u]@,
            ),
            directed: self.is_directed,
        }
    }
}

impl Clone for Graph {
    /// A graph with the same adjacency and the same direction.
    fn clone(&self) -> (copy: Self)
        ensures
            copy@ == self@,
    {
        let copy = Graph { adj_list: self.adj_list.clone(), is_directed: self.is_directed };
        assert(copy@.adjacency =~= self@.adjacency);
        copy
    }
}

impl Graph {
    /// The neighbour list of every node that has one.
    pub open spec fn adjacency(&self) -> Map<i32, Seq<i32>> {
        self@.adjacency
    }

    /// Whether edges are kept in one direction only.
    pub open spec fn directed(&self) -> bool {
        self@.directed
    }

    /// The neighbours of `u` in insertion order; empty for a node without a list.
    pub open spec fn neighbors(&self, u: i32) -> Seq<i32> {
        neighbors_in(self.adjacency(), u)
    }

    /// There is an edge from `u` to `v`.
    pub open spec fn has_edge(&self, u: i32, v: i32) -> bool {
        self.neighbors(u).contains(v)
    }

    /// An undirected graph holds every edge between two distinct nodes in both
    /// directions.
    pub open spec fn wf(&self) -> bool {
        !self.directed() ==> forall|u: i32, v: i32| #[trigger]
            self.has_edge(u, v) ==> self.has_edge(v, u)
    }

    /// An empty graph.
    pub fn new(is_directed: bool) -> (g: Self)
        ensures
            g.adjacency() == Map::<i32, Seq<i32>>::empty(),
            g.adjacency().dom().len() == 0,
            g.directed() == is_directed,
            g.wf(),
    {
        let g = Graph { adj_list: HashMap::new(), is_directed };
        assert(g.adjacency() =~= Map::<i32, Seq<i32>>::empty());
        assert(g.adjacency().dom() =~= Set::<i32>::empty());
        g
    }

    /// The adjacency that [`Graph::add_edge`] leaves behind: `v` is appended to
    /// the list of `u`, and in an undirected graph `u` to the list of `v`. A
    /// self-loop is recorded once, whatever the graph's direction.
    pub open spec fn with_edge(&self, u: i32, v: i32) -> Map<i32, Seq<i32>> {
        let forward = self.adjacency().insert(u, self.neighbors(u).push(v));
        if self.directed() || u == v {
            forward
        } else {
            forward.insert(v, self.neighbors(v).push(u))
        }
    }

    /// The adjacency that [`Graph::ensure_node`] leaves behind: `u` has a
    /// list, empty if it had none.
    pub open spec fn with_node(&self, u: i32) -> Map<i32, Seq<i32>> {
        if self.adjacency().contains_key(u) {
            self.adjacency()
        } else {
            self.adjacency().insert(u, Seq::empty())
        }
    }

    /// Appends `v` to the neighbour list of `u`, creating the list if needed.
    fn link(&mut self, u: i32, v: i32)
        ensures
            final(self).adjacency() == old(self).adjacency().insert(
                u,
                old(self).neighbors(u).push(v),
            ),
            final(self).directed() == old(self).directed(),
    {
        self.adj_list.entry(u).or_insert(Vec::new()).push(v);
        assert(self.adjacency() =~= old(self).adjacency().insert(
            u,
            old(self).neighbors(u).push(v),
        ));
    }

    /// Adds the edge from `u` to `v`; in an undirected graph also the edge
    /// from `v` to `u`, unless `u == v`.
    pub fn add_edge(&mut self, u: i32, v: i32)
        ensures
            final(self).adjacency() == old(self).with_edge(u, v),
            final(self).adjacency().dom().len() <= old(self).adjacency().dom().len() + 2,
            final(self).directed() == old(self).directed(),
            old(self).wf() ==> final(self).wf(),
    {
        self.link(u, v);
        if !self.is_directed && u != v {
            self.link(v, u);
        }
        proof {
            assert(self.adjacency() =~= old(self).with_edge(u, v));
            old(self).lemma_adjacency_finite();
            let named = old(self).adjacency().dom().insert(u).insert(v);
            assert(self.adjacency().dom().subset_of(named));
            vstd::set_lib::lemma_len_subset(self.adjacency().dom(), named);
            if old(self).wf() && !self.directed() {
                assert forall|a: i32, b: i32| #[trigger] self.has_edge(a, b) implies self.has_edge(
                    b,
                    a,
                ) by {
                    old(self).lemma_with_edge_symmetric(u, v, a, b);
                }
            }
        }
    }

    /// Declares `u` as a node: it gets an empty neighbour list unless it
    /// already has a list.
    pub fn ensure_node(&mut self, u: i32)
        ensures
            final(self).adjacency() == old(self).with_node(u),
            final(self).adjacency().dom().len() <= old(self).adjacency().dom().len() + 1,
            final(self).directed() == old(self).directed(),
            old(self).wf() ==> final(self).wf(),
    {
        self.adj_list.entry(u).or_insert(Vec::new());
        proof {
            assert(self.adjacency() =~= old(self).with_node(u));
            old(self).lemma_adjacency_finite();
            let named = old(self).adjacency().dom().insert(u);
            assert(self.adjacency().dom().subset_of(named));
            vstd::set_lib::lemma_len_subset(self.adjacency().dom(), named);
            assert forall|a: i32| self.neighbors(a) == old(self).neighbors(a) by {}
            if old(self).wf() && !self.directed() {
                assert forall|a: i32, b: i32| #[trigger] self.has_edge(a, b) implies self.has_edge(
                    b,
                    a,
                ) by {
                    assert(old(self).has_edge(a, b));
                    assert(old(self).has_edge(b, a));
                }
            }
        }
    }

    /// The neighbour list of `u`, if it has one.
    pub fn adjacent(&self, u: i32) -> (list: Option<&Vec<i32>>)
        ensures
            match list {
                Some(l) => self.adjacency().contains_key(u) && l@ == self.adjacency()[u],
                None => !self.adjacency().contains_key(u),
            },
            list is Some ==> list->0@ == self.neighbors(u),
            list is None ==> self.neighbors(u).len() == 0,
    {
        self.adj_list.get(&u)
    }

    /// Whether the graph is directed.
    pub fn is_directed(&self) -> (d: bool)
        ensures
            d == self.directed(),
    {
        self.is_directed
    }

    /// The number of nodes that have a neighbour list.
    pub fn node_count(&self) -> (n: usize)
        ensures
            n == self.adjacency().dom().len(),
    {
        assert(self.adjacency().dom() =~= self.adj_list@.dom());
        self.adj_list.len()
    }

    /// Only finitely many nodes have a neighbour list.
    pub proof fn lemma_adjacency_finite(&self)
        ensures
            self.adjacency().dom().finite(),
    {
        assert(self.adjacency().dom() =~= self.adj_list@.dom());
    }

    /// In an undirected graph whose edges all run both ways, they still do
    /// once the edge between `u` and `v` is added.
    proof fn lemma_with_edge_symmetric(&self, u: i32, v: i32, a: i32, b: i32)
        requires
            self.wf(),
            !self.directed(),
            neighbors_in(self.with_edge(u, v), a).contains(b),
        ensures
            neighbors_in(self.with_edge(u, v), b).contains(a),
    {
        let after = self.with_edge(u, v);
        if self.has_edge(a, b) {
            assert(self.has_edge(b, a));
            let k = choose|k: int| 0 <= k < self.neighbors(b).len() && self.neighbors(b)[k] == a;
            assert(neighbors_in(after, b)[k] == a);
        } else {
            assert((a == u && b == v) || (a == v && b == u));
            if b == u {
                assert(neighbors_in(after, b)[self.neighbors(u).len() as int] == a);
            } else {
                assert(neighbors_in(after, b)[self.neighbors(v).len() as int] == a);
            }
        }
    }
}

/// The list of `u` in the adjacency `adj`; empty where `u` has none.
pub open spec fn neighbors_in(adj: Map<i32, Seq<i32>>, u: i32) -> Seq<i32> {
    if adj.contains_key(u) {
        adj[u]
    } else {
        Seq::empty()
    }
}

} // verus!
