//! Each rule determines the visiting order. There is one: as long as a
//! visited node has an unvisited neighbour the rule picks a next node, and
//! there are only finitely many nodes to visit. And there is only one: the
//! rule never has two nodes to choose from.

use crate::graph::Graph;
use crate::order::identifier_count;
use crate::order::Traversal;
use vstd::prelude::*;

verus! {

/// Below a number with the property `p` there is a least one.
proof fn lemma_least(p: spec_fn(int) -> bool, w: int) -> (m: int)
    requires
        0 <= w,
        p(w),
    ensures
        0 <= m <= w,
        p(m),
        forall|i: int| 0 <= i < m ==> !#[trigger] p(i),
    decreases w,
{
    if exists|i: int| 0 <= i < w && #[trigger] p(i) {
        let i = choose|i: int| 0 <= i < w && #[trigger] p(i);
        lemma_least(p, i)
    } else {
        w
    }
}

/// Between a number with the property `p` and a bound there is a greatest
/// one.
proof fn lemma_greatest(p: spec_fn(int) -> bool, w: int, n: int) -> (m: int)
    requires
        w < n,
        p(w),
    ensures
        w <= m < n,
        p(m),
        forall|i: int| m < i < n ==> !#[trigger] p(i),
    decreases n - w,
{
    if exists|i: int| w < i < n && #[trigger] p(i) {
        let i = choose|i: int| w < i < n && #[trigger] p(i);
        lemma_greatest(p, i, n)
    } else {
        w
    }
}

impl Graph {
    /// Two beginnings of one traversal from one node hold the same nodes in
    /// their first `n` places.
    proof fn lemma_partial_agree_upto(&self, kind: Traversal, a: Seq<i32>, b: Seq<i32>, n: int)
        requires
            self.is_partial(kind, a),
            self.is_partial(kind, b),
            a[0] == b[0],
            1 <= n <= a.len(),
            n <= b.len(),
        ensures
            a.take(n) == b.take(n),
        decreases n,
    {
        if n > 1 {
            let m = n - 1;
            self.lemma_partial_agree_upto(kind, a, b, m);
            assert(self.follows(kind, a, m));
            assert(self.follows(kind, b, m));
            let (ja, ta) = choose|j: int, t: int| self.picks(kind, a.take(m), a[m], j, t);
            let (jb, tb) = choose|j: int, t: int| self.picks(kind, b.take(m), b[m], j, t);
            self.lemma_picks_unique(kind, a.take(m), a[m], ja, ta, b[m], jb, tb);
            assert forall|i: int| 0 <= i < n implies a.take(n)[i] == b.take(n)[i] by {
                if i < m {
                    assert(a.take(m)[i] == b.take(m)[i]);
                }
            }
        }
        assert(a.take(n) =~= b.take(n));
    }

    /// The rule determines the order: of two beginnings of one traversal
    /// from one node, the shorter is a prefix of the longer.
    pub proof fn lemma_partial_agree(&self, kind: Traversal, a: Seq<i32>, b: Seq<i32>)
        requires
            self.is_partial(kind, a),
            self.is_partial(kind, b),
            a[0] == b[0],
            a.len() <= b.len(),
        ensures
            a.is_prefix_of(b),
    {
        self.lemma_partial_agree_upto(kind, a, b, a.len() as int);
        assert(a.take(a.len() as int) =~= a);
    }

    /// Nothing can be visited after a whole traversal: no beginning of the
    /// traversal is longer than the traversal.
    pub proof fn lemma_traversal_is_longest(
        &self,
        kind: Traversal,
        start: i32,
        order: Seq<i32>,
        other: Seq<i32>,
    )
        requires
            self.is_traversal(kind, start, order),
            self.is_partial(kind, other),
            other[0] == start,
        ensures
            other.is_prefix_of(order),
    {
        if other.len() > order.len() {
            self.lemma_partial_agree(kind, order, other);
            let n = order.len() as int;
            assert(other.take(n) =~= order);
            assert(self.follows(kind, other, n));
            let (j, t) = choose|j: int, t: int| self.picks(kind, other.take(n), other[n], j, t);
            assert(self.exhausted(order, order[j]));
            assert(order.contains(self.neighbors(order[j])[t]));
        } else {
            self.lemma_partial_agree(kind, other, order);
        }
    }

    /// A traversal from a node has exactly one visiting order.
    pub proof fn lemma_traversal_unique(
        &self,
        kind: Traversal,
        start: i32,
        first: Seq<i32>,
        second: Seq<i32>,
    )
        requires
            self.is_traversal(kind, start, first),
            self.is_traversal(kind, start, second),
        ensures
            first == second,
    {
        self.lemma_traversal_is_longest(kind, start, first, second);
        self.lemma_traversal_is_longest(kind, start, second, first);
        assert(first =~= second);
    }

    /// While some visited node has an unvisited neighbour, the rule picks a
    /// next node.
    pub proof fn lemma_pick_exists(&self, kind: Traversal, seen: Seq<i32>) -> (next: (
        i32,
        int,
        int,
    ))
        requires
            !self.is_complete(seen),
        ensures
            self.picks(kind, seen, next.0, next.1, next.2),
    {
        let len = seen.len() as int;
        let open = |k: int| 0 <= k < len && !self.exhausted(seen, seen[k]);
        let some = choose|k: int| 0 <= k < len && !self.exhausted(seen, #[trigger] seen[k]);
        assert(open(some));
        let j = match kind {
            Traversal::BreadthFirst => lemma_least(open, some),
            _ => lemma_greatest(open, some, len),
        };
        assert(open(j));
        let list = self.neighbors(seen[j]);
        let width = list.len() as int;
        let fresh = |t: int| 0 <= t < width && !seen.contains(list[t]);
        let any = choose|t: int| 0 <= t < width && !seen.contains(#[trigger] list[t]);
        assert(fresh(any));
        let t = match kind {
            Traversal::DepthFirstStack => lemma_greatest(fresh, any, width),
            _ => lemma_least(fresh, any),
        };
        assert(fresh(t));
        assert forall|k: int| kind.passes_over(len, j, k) implies self.exhausted(
            seen,
            #[trigger] seen[k],
        ) by {
            assert(!open(k));
        }
        assert forall|r: int| kind.skips(width, t, r) implies seen.contains(#[trigger] list[r]) by {
            assert(!fresh(r));
        }
        (list[t], j, t)
    }

    /// Every beginning of a traversal can be continued to a whole traversal.
    pub proof fn lemma_partial_extends(&self, kind: Traversal, found: Seq<i32>) -> (order: Seq<i32>)
        requires
            self.is_partial(kind, found),
        ensures
            self.is_traversal(kind, found[0], order),
            found.is_prefix_of(order),
        decreases identifier_count() - found.len(),
    {
        self.lemma_distinct_nodes_bound(kind, found);
        if self.is_complete(found) {
            found
        } else {
            let (x, j, t) = self.lemma_pick_exists(kind, found);
            let longer = found.push(x);
            self.lemma_partial_push(kind, found, x, j, t);
            self.lemma_distinct_nodes_bound(kind, longer);
            let order = self.lemma_partial_extends(kind, longer);
            assert forall|i: int| 0 <= i < found.len() implies found[i] == order[i] by {
                assert(longer[i] == found[i]);
            }
            order
        }
    }

    /// The order in which the traversal `kind` visits the nodes reachable
    /// from `start`.
    pub open spec fn visit_order(&self, kind: Traversal, start: i32) -> Seq<i32> {
        choose|order: Seq<i32>| self.is_traversal(kind, start, order)
    }

    /// Every traversal from every node has a visiting order, and only one.
    pub proof fn lemma_visit_order(&self, kind: Traversal, start: i32)
        ensures
            self.is_traversal(kind, start, self.visit_order(kind, start)),
            forall|order: Seq<i32>| #[trigger]
                self.is_traversal(kind, start, order) ==> order == self.visit_order(kind, start),
    {
        let first = seq![start];
        assert(self.is_partial(kind, first));
        let whole = self.lemma_partial_extends(kind, first);
        assert(whole[0] == first[0]);
        assert(self.is_traversal(kind, start, whole));
        assert forall|order: Seq<i32>| #[trigger]
            self.is_traversal(kind, start, order) implies order == self.visit_order(
            kind,
            start,
        ) by {
            self.lemma_traversal_unique(kind, start, order, self.visit_order(kind, start));
        }
    }
}

} // verus!
