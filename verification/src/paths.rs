//! Walks, reachability and distance: the vocabulary in which the traversals
//! are specified.

use crate::graph::Graph;
use vstd::prelude::*;

verus! {

impl Graph {
    /// `p` is a non-empty sequence of nodes, each joined to the next by an edge.
    pub open spec fn is_walk(&self, p: Seq<i32>) -> bool {
        &&& p.len() > 0
        &&& forall|i: int| 0 <= i < p.len() - 1 ==> self.has_edge(#[trigger] p[i], p[i + 1])
    }

    /// `p` is a walk that starts at `s` and ends at `t`.
    pub open spec fn walk_between(&self, s: i32, t: i32, p: Seq<i32>) -> bool {
        &&& self.is_walk(p)
        &&& p[0] == s
        &&& p[p.len() - 1] == t
    }

    /// Some walk leads from `s` to `t`. Every node reaches itself.
    pub open spec fn reachable(&self, s: i32, t: i32) -> bool {
        exists|p: Seq<i32>| self.walk_between(s, t, p)
    }

    /// Some walk of exactly `n` edges leads from `s` to `t`.
    pub open spec fn reachable_in(&self, s: i32, t: i32, n: nat) -> bool {
        exists|p: Seq<i32>| #[trigger] self.walk_between(s, t, p) && p.len() == n + 1
    }

    /// `n` is the least number of edges on a walk from `s` to `t`.
    pub open spec fn is_distance(&self, s: i32, t: i32, n: nat) -> bool {
        &&& self.reachable_in(s, t, n)
        &&& forall|m: nat| m < n ==> !self.reachable_in(s, t, m)
    }

    /// The least number of edges on a walk from `s` to `t`. It is meaningful
    /// only where `t` is reachable from `s`.
    pub open spec fn distance(&self, s: i32, t: i32) -> nat {
        choose|n: nat| self.is_distance(s, t, n)
    }

    /// The nodes that can be reached from `s`.
    pub open spec fn reachable_set(&self, s: i32) -> Set<i32> {
        Set::new(|t: i32| self.reachable(s, t))
    }

    /// A walk stays a walk when an edge out of its last node is appended.
    pub proof fn lemma_walk_push(&self, p: Seq<i32>, v: i32)
        requires
            self.is_walk(p),
            self.has_edge(p[p.len() - 1], v),
        ensures
            self.is_walk(p.push(v)),
            self.walk_between(p[0], v, p.push(v)),
    {
        let q = p.push(v);
        assert forall|i: int| 0 <= i < q.len() - 1 implies self.has_edge(
            #[trigger] q[i],
            q[i + 1],
        ) by {
            if i < p.len() - 1 {
                assert(self.has_edge(p[i], p[i + 1]));
            }
        }
    }

    /// Every non-empty prefix of a walk is a walk.
    pub proof fn lemma_walk_take(&self, p: Seq<i32>, k: int)
        requires
            self.is_walk(p),
            1 <= k <= p.len(),
        ensures
            self.is_walk(p.take(k)),
            self.walk_between(p[0], p[k - 1], p.take(k)),
    {
        let q = p.take(k);
        assert forall|i: int| 0 <= i < q.len() - 1 implies self.has_edge(
            #[trigger] q[i],
            q[i + 1],
        ) by {
            assert(self.has_edge(p[i], p[i + 1]));
        }
    }

    /// Among the lengths of walks from `s` to `t` that are at most `n`, one
    /// is least.
    proof fn lemma_least_length(&self, s: i32, t: i32, n: nat)
        requires
            self.reachable_in(s, t, n),
        ensures
            exists|k: nat| self.is_distance(s, t, k),
        decreases n,
    {
        if exists|m: nat| m < n && self.reachable_in(s, t, m) {
            let m = choose|m: nat| m < n && self.reachable_in(s, t, m);
            self.lemma_least_length(s, t, m);
        } else {
            assert(self.is_distance(s, t, n));
        }
    }

    /// Where `t` is reachable from `s`, the distance is the length of a
    /// shortest walk.
    pub proof fn lemma_distance(&self, s: i32, t: i32)
        requires
            self.reachable(s, t),
        ensures
            self.is_distance(s, t, self.distance(s, t)),
    {
        let p = choose|p: Seq<i32>| self.walk_between(s, t, p);
        let n = (p.len() - 1) as nat;
        assert(self.walk_between(s, t, p) && p.len() == n + 1);
        self.lemma_least_length(s, t, n);
    }

    /// No walk from `s` to `t` has fewer edges than the distance.
    pub proof fn lemma_distance_at_most(&self, s: i32, t: i32, p: Seq<i32>)
        requires
            self.walk_between(s, t, p),
        ensures
            self.reachable(s, t),
            self.distance(s, t) <= p.len() - 1,
    {
        self.lemma_distance(s, t);
        let n = (p.len() - 1) as nat;
        assert(self.walk_between(s, t, p) && p.len() == n + 1);
        assert(self.reachable_in(s, t, n));
    }

    /// A node is at distance 0 from itself.
    pub proof fn lemma_distance_self(&self, s: i32)
        ensures
            self.reachable(s, s),
            self.distance(s, s) == 0,
    {
        let p = seq![s];
        assert(self.walk_between(s, s, p));
        self.lemma_distance_at_most(s, s, p);
    }

    /// An edge lengthens the distance by at most one.
    pub proof fn lemma_distance_edge(&self, s: i32, u: i32, v: i32)
        requires
            self.reachable(s, u),
            self.has_edge(u, v),
        ensures
            self.reachable(s, v),
            self.distance(s, v) <= self.distance(s, u) + 1,
    {
        self.lemma_distance(s, u);
        let d = self.distance(s, u);
        let p = choose|p: Seq<i32>| #[trigger] self.walk_between(s, u, p) && p.len() == d + 1;
        self.lemma_walk_push(p, v);
        self.lemma_distance_at_most(s, v, p.push(v));
    }

    /// Every reachable node but the start has a neighbour one step closer to
    /// the start.
    pub proof fn lemma_distance_predecessor(&self, s: i32, v: i32) -> (u: i32)
        requires
            self.reachable(s, v),
            v != s,
        ensures
            self.reachable(s, u),
            self.has_edge(u, v),
            self.distance(s, v) == self.distance(s, u) + 1,
    {
        self.lemma_distance(s, v);
        let d = self.distance(s, v);
        let p = choose|p: Seq<i32>| #[trigger] self.walk_between(s, v, p) && p.len() == d + 1;
        assert(d >= 1);
        let u = p[d - 1];
        self.lemma_walk_take(p, d as int);
        self.lemma_distance_at_most(s, u, p.take(d as int));
        assert(self.has_edge(p[d - 1], p[d - 1 + 1]));
        self.lemma_distance_edge(s, u, v);
        u
    }
}

} // verus!
