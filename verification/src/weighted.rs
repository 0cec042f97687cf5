//! A graph whose edges carry an integer weight. It is a container only: no
//! traversal is defined over it.

use std::collections::HashMap;
use vstd::prelude::*;

verus! {

broadcast use vstd::std_specs::hash::group_hash_axioms;

/// A graph over `i32` node identifiers whose adjacency lists hold, for each
/// edge, the neighbour and the edge's weight.
#[derive(Debug)]
pub struct WeightedGraph {
    adj_list: HashMap<i32, Vec<(i32, i32)>>,
    is_directed: bool,
}

/// What a [`WeightedGraph`] stands for: its adjacency lists and its
/// direction.
pub struct WeightedGraphView {
    /// The list of (neighbour, weight) pairs of every node that has one.
    pub adjacency: Map<i32, Seq<(i32, i32)>>,
    /// Whether edges are kept in one direction only.
    pub directed: bool,
}

impl View for WeightedGraph {
    type V = WeightedGraphView;

    closed spec fn view(&self) -> WeightedGraphView {
        WeightedGraphView {
            adjacency: Map::new(
                |u: i32| self.adj_list@.contains_key(u),
                |u: i32| self.adj_list@[u]@,
            ),
            directed: self.is_directed,
        }
    }
}

impl Clone for WeightedGraph {
    /// A graph with the same adjacency and the same direction.
    fn clone(&self) -> (copy: Self)
        ensures
            copy@ == self@,
    {
        let copy = WeightedGraph {
            adj_list: self.adj_list.clone(),
            is_directed: self.is_directed,
        };
        assert(copy@.adjacency =~= self@.adjacency);
        copy
    }
}

/// The list of `u` in the weighted adjacency `adj`; empty where `u` has none.
pub open spec fn weighted_neighbors_in(adj: Map<i32, Seq<(i32, i32)>>, u: i32) -> Seq<(i32, i32)> {
    if adj.contains_key(u) {
        adj[u]
    } else {
        Seq::empty()
    }
}

impl WeightedGraph {
    /// The list of (neighbour, weight) pairs of every node that has one.
    pub open spec fn adjacency(&self) -> Map<i32, Seq<(i32, i32)>> {
        self@.adjacency
    }

    /// Whether edges are kept in one direction only.
    pub open spec fn directed(&self) -> bool {
        self@.directed
    }

    /// The (neighbour, weight) pairs of `u` in insertion order; empty for a
    /// node without a list.
    pub open spec fn neighbors(&self, u: i32) -> Seq<(i32, i32)> {
        weighted_neighbors_in(self.adjacency(), u)
    }

    /// The adjacency that [`WeightedGraph::add_edge`] leaves behind: `(v,
    /// weight)` is appended to the list of `u`, and in an undirected graph
    /// `(u, weight)` to the list of `v`. A self-loop is recorded once,
    /// whatever the graph's direction.
    pub open spec fn with_edge(&self, u: i32, v: i32, weight: i32) -> Map<i32, Seq<(i32, i32)>> {
        let forward = self.adjacency().insert(u, self.neighbors(u).push((v, weight)));
        if self.directed() || u == v {
            forward
        } else {
            forward.insert(v, self.neighbors(v).push((u, weight)))
        }
    }

    /// An empty graph.
    pub fn new(is_directed: bool) -> (g: Self)
        ensures
            g.adjacency() == Map::<i32, Seq<(i32, i32)>>::empty(),
            g.directed() == is_directed,
    {
        let g = WeightedGraph { adj_list: HashMap::new(), is_directed };
        assert(g.adjacency() =~= Map::<i32, Seq<(i32, i32)>>::empty());
        g
    }

    /// Appends `(v, weight)` to the list of `u`, creating the list if needed.
    fn link(&mut self, u: i32, v: i32, weight: i32)
        ensures
            final(self).adjacency() == old(self).adjacency().insert(
                u,
                old(self).neighbors(u).push((v, weight)),
            ),
            final(self).directed() == old(self).directed(),
    {
        self.adj_list.entry(u).or_insert(Vec::new()).push((v, weight));
        assert(self.adjacency() =~= old(self).adjacency().insert(
            u,
            old(self).neighbors(u).push((v, weight)),
        ));
    }

    /// Adds the edge from `u` to `v` with the given weight; in an undirected
    /// graph also the edge from `v` to `u`, unless `u == v`.
    pub fn add_edge(&mut self, u: i32, v: i32, weight: i32)
        ensures
            final(self).adjacency() == old(self).with_edge(u, v, weight),
            final(self).directed() == old(self).directed(),
    {
        self.link(u, v, weight);
        if !self.is_directed && u != v {
            self.link(v, u, weight);
        }
        assert(self.adjacency() =~= old(self).with_edge(u, v, weight));
    }

    /// The list of (neighbour, weight) pairs of `u`, if it has one.
    pub fn adjacent(&self, u: i32) -> (list: Option<&Vec<(i32, i32)>>)
        ensures
            match list {
                Some(l) => self.adjacency().contains_key(u) && l@ == self.adjacency()[u],
                None => !self.adjacency().contains_key(u),
            },
    {
        self.adj_list.get(&u)
    }

    /// Whether the graph is directed.
    pub fn is_directed(&self) -> (d: bool)
        ensures
            d == self.directed(),
    {
        self.is_directed
    }
}

} // verus!
