//! The invariant of the stack-based depth-first traversal: what its stack
//! holds, and why the node it pops is the one that the rule picks.

use crate::graph::Graph;
use crate::order::Traversal;
use vstd::prelude::*;

verus! {

/// The first stack origin precedes the second: it belongs to a node visited
/// earlier, or to an earlier position in the same node's list.
pub open spec fn origin_before(a: (int, int), b: (int, int)) -> bool {
    a.0 < b.0 || (a.0 == b.0 && a.1 < b.1)
}

impl Graph {
    /// The entry `k` of the stack is the neighbour that its origin names.
    pub open spec fn stack_entry_ok(
        &self,
        order: Seq<i32>,
        stack: Seq<i32>,
        origin: Seq<(int, int)>,
        k: int,
    ) -> bool {
        &&& 0 <= origin[k].0 < order.len()
        &&& 0 <= origin[k].1 < self.neighbors(order[origin[k].0]).len()
        &&& self.neighbors(order[origin[k].0])[origin[k].1] == stack[k]
    }

    /// The stack of the iterative traversal holds what is left to follow.
    ///
    /// Each entry of `stack` is the neighbour that its origin names, the
    /// origins ascend and lie before `(at, upto)`, and every unvisited
    /// neighbour whose origin lies before `(at, upto)` is on the stack.
    pub open spec fn stack_covers(
        &self,
        order: Seq<i32>,
        stack: Seq<i32>,
        origin: Seq<(int, int)>,
        at: int,
        upto: int,
    ) -> bool {
        &&& origin.len() == stack.len()
        &&& forall|k: int|
            0 <= k < stack.len() ==> #[trigger] self.stack_entry_ok(order, stack, origin, k)
        &&& forall|k: int| 0 <= k < stack.len() ==> origin_before(#[trigger] origin[k], (at, upto))
        &&& forall|a: int, b: int|
            0 <= a < b < stack.len() ==> origin_before(#[trigger] origin[a], #[trigger] origin[b])
        &&& forall|j: int, t: int|
            0 <= j < order.len() && 0 <= t < self.neighbors(order[j]).len() && origin_before(
                (j, t),
                (at, upto),
            ) && !order.contains(self.neighbors(order[j])[t]) ==> #[trigger] origin.contains((j, t))
    }

    /// An unvisited node on top of the stack is the one that the stack rule
    /// picks next.
    pub(crate) proof fn lemma_stack_top_is_picked(
        &self,
        order: Seq<i32>,
        stack: Seq<i32>,
        origin: Seq<(int, int)>,
    )
        requires
            order.len() > 0,
            stack.len() > 0,
            self.stack_covers(order, stack, origin, order.len() as int, 0),
            !order.contains(stack[stack.len() - 1]),
        ensures
            self.picks(
                Traversal::DepthFirstStack,
                order,
                stack[stack.len() - 1],
                origin[origin.len() - 1].0,
                origin[origin.len() - 1].1,
            ),
    {
        let top = origin.len() - 1;
        let (j, t) = origin[top];
        assert(self.stack_entry_ok(order, stack, origin, top));
        assert forall|k: int|
            Traversal::DepthFirstStack.passes_over(
                order.len() as int,
                j,
                k,
            ) implies self.exhausted(order, #[trigger] order[k]) by {
            assert forall|r: int| 0 <= r < self.neighbors(order[k]).len() implies order.contains(
                #[trigger] self.neighbors(order[k])[r],
            ) by {
                if !order.contains(self.neighbors(order[k])[r]) {
                    assert(origin_before((k, r), (order.len() as int, 0)));
                    assert(origin.contains((k, r)));
                    let m = choose|m: int| 0 <= m < origin.len() && origin[m] == (k, r);
                    if m < top {
                        assert(origin_before(origin[m], origin[top]));
                    }
                }
            }
        }
        assert forall|r: int|
            Traversal::DepthFirstStack.skips(
                self.neighbors(order[j]).len() as int,
                t,
                r,
            ) implies order.contains(#[trigger] self.neighbors(order[j])[r]) by {
            if !order.contains(self.neighbors(order[j])[r]) {
                assert(origin_before((j, r), (order.len() as int, 0)));
                assert(origin.contains((j, r)));
                let m = choose|m: int| 0 <= m < origin.len() && origin[m] == (j, r);
                if m < top {
                    assert(origin_before(origin[m], origin[top]));
                }
            }
        }
    }

    /// When the top of the stack is visited, the rest of the stack covers
    /// the nodes visited before it.
    pub(crate) proof fn lemma_stack_covers_visit(
        &self,
        order: Seq<i32>,
        stack: Seq<i32>,
        origin: Seq<(int, int)>,
    )
        requires
            stack.len() > 0,
            self.stack_covers(order, stack, origin, order.len() as int, 0),
        ensures
            self.stack_covers(
                order.push(stack[stack.len() - 1]),
                stack.drop_last(),
                origin.drop_last(),
                order.len() as int,
                0,
            ),
    {
        let node = stack[stack.len() - 1];
        let longer = order.push(node);
        let rest = origin.drop_last();
        let lower = stack.drop_last();
        let top = origin.len() - 1;
        assert forall|k: int| 0 <= k < lower.len() implies #[trigger] self.stack_entry_ok(
            longer,
            lower,
            rest,
            k,
        ) by {
            assert(self.stack_entry_ok(order, stack, origin, k));
            assert(longer[origin[k].0] == order[origin[k].0]);
        }
        assert forall|k: int| 0 <= k < lower.len() implies origin_before(
            #[trigger] rest[k],
            (order.len() as int, 0),
        ) by {
            assert(origin_before(origin[k], (order.len() as int, 0)));
        }
        assert forall|a: int, b: int| 0 <= a < b < lower.len() implies origin_before(
            #[trigger] rest[a],
            #[trigger] rest[b],
        ) by {
            assert(origin_before(origin[a], origin[b]));
        }
        assert forall|j: int, t: int|
            0 <= j < longer.len() && 0 <= t < self.neighbors(longer[j]).len() && origin_before(
                (j, t),
                (order.len() as int, 0),
            ) && !longer.contains(self.neighbors(longer[j])[t]) implies #[trigger] rest.contains(
                (j, t),
            ) by {
            assert(longer[j] == order[j]);
            let x = self.neighbors(order[j])[t];
            if order.contains(x) {
                crate::order::lemma_prefix_contains(order, longer, x);
            }
            assert(origin.contains((j, t)));
            let m = choose|m: int| 0 <= m < origin.len() && origin[m] == (j, t);
            if m == top {
                assert(self.stack_entry_ok(order, stack, origin, top));
                assert(longer[order.len() as int] == node);
            }
            assert(rest[m] == (j, t));
        }
    }

    /// When a visited node is popped, the rest of the stack still covers the
    /// visited nodes.
    pub(crate) proof fn lemma_stack_covers_pop(
        &self,
        order: Seq<i32>,
        stack: Seq<i32>,
        origin: Seq<(int, int)>,
    )
        requires
            stack.len() > 0,
            self.stack_covers(order, stack, origin, order.len() as int, 0),
            order.contains(stack[stack.len() - 1]),
        ensures
            self.stack_covers(
                order,
                stack.drop_last(),
                origin.drop_last(),
                order.len() as int,
                0,
            ),
    {
        let rest = origin.drop_last();
        let lower = stack.drop_last();
        let top = origin.len() - 1;
        assert forall|k: int| 0 <= k < lower.len() implies #[trigger] self.stack_entry_ok(
            order,
            lower,
            rest,
            k,
        ) by {
            assert(self.stack_entry_ok(order, stack, origin, k));
        }
        assert forall|k: int| 0 <= k < lower.len() implies origin_before(
            #[trigger] rest[k],
            (order.len() as int, 0),
        ) by {
            assert(origin_before(origin[k], (order.len() as int, 0)));
        }
        assert forall|a: int, b: int| 0 <= a < b < lower.len() implies origin_before(
            #[trigger] rest[a],
            #[trigger] rest[b],
        ) by {
            assert(origin_before(origin[a], origin[b]));
        }
        assert forall|j: int, t: int|
            0 <= j < order.len() && 0 <= t < self.neighbors(order[j]).len() && origin_before(
                (j, t),
                (order.len() as int, 0),
            ) && !order.contains(self.neighbors(order[j])[t]) implies #[trigger] rest.contains(
                (j, t),
            ) by {
            assert(origin.contains((j, t)));
            let m = choose|m: int| 0 <= m < origin.len() && origin[m] == (j, t);
            if m == top {
                assert(self.stack_entry_ok(order, stack, origin, top));
            }
            assert(rest[m] == (j, t));
        }
    }

    /// Pushing the unvisited neighbour at list position `t` of the last
    /// visited node extends what the stack covers by that position.
    pub(crate) proof fn lemma_stack_covers_push(
        &self,
        order: Seq<i32>,
        stack: Seq<i32>,
        origin: Seq<(int, int)>,
        t: int,
    )
        requires
            order.len() > 0,
            0 <= t < self.neighbors(order[order.len() - 1]).len(),
            self.stack_covers(order, stack, origin, order.len() - 1, t),
        ensures
            self.stack_covers(
                order,
                stack.push(self.neighbors(order[order.len() - 1])[t]),
                origin.push((order.len() - 1, t)),
                order.len() - 1,
                t + 1,
            ),
    {
        let at = order.len() - 1;
        let more = origin.push((at, t));
        let taller = stack.push(self.neighbors(order[at])[t]);
        assert forall|k: int| 0 <= k < taller.len() implies #[trigger] self.stack_entry_ok(
            order,
            taller,
            more,
            k,
        ) by {
            if k < stack.len() {
                assert(self.stack_entry_ok(order, stack, origin, k));
            }
        }
        assert forall|k: int| 0 <= k < taller.len() implies origin_before(
            #[trigger] more[k],
            (at, t + 1),
        ) by {
            if k < stack.len() {
                assert(origin_before(origin[k], (at, t)));
            }
        }
        assert forall|a: int, b: int| 0 <= a < b < taller.len() implies origin_before(
            #[trigger] more[a],
            #[trigger] more[b],
        ) by {
            if b < stack.len() {
                assert(origin_before(origin[a], origin[b]));
            } else {
                assert(origin_before(origin[a], (at, t)));
            }
        }
        assert forall|j: int, r: int|
            0 <= j < order.len() && 0 <= r < self.neighbors(order[j]).len() && origin_before(
                (j, r),
                (at, t + 1),
            ) && !order.contains(self.neighbors(order[j])[r]) implies #[trigger] more.contains(
                (j, r),
            ) by {
            if j == at && r == t {
                assert(more[origin.len() as int] == (j, r));
            } else {
                assert(origin_before((j, r), (at, t)));
                assert(origin.contains((j, r)));
                let m = choose|m: int| 0 <= m < origin.len() && origin[m] == (j, r);
                assert(more[m] == (j, r));
            }
        }
    }

    /// A neighbour of the last visited node that is visited already needs no
    /// place on the stack.
    pub(crate) proof fn lemma_stack_covers_skip(
        &self,
        order: Seq<i32>,
        stack: Seq<i32>,
        origin: Seq<(int, int)>,
        t: int,
    )
        requires
            order.len() > 0,
            0 <= t < self.neighbors(order[order.len() - 1]).len(),
            order.contains(self.neighbors(order[order.len() - 1])[t]),
            self.stack_covers(order, stack, origin, order.len() - 1, t),
        ensures
            self.stack_covers(order, stack, origin, order.len() - 1, t + 1),
    {
        let at = order.len() - 1;
        assert forall|k: int| 0 <= k < stack.len() implies origin_before(
            #[trigger] origin[k],
            (at, t + 1),
        ) by {
            assert(origin_before(origin[k], (at, t)));
        }
        assert forall|j: int, r: int|
            0 <= j < order.len() && 0 <= r < self.neighbors(order[j]).len() && origin_before(
                (j, r),
                (at, t + 1),
            ) && !order.contains(self.neighbors(order[j])[r]) implies #[trigger] origin.contains(
                (j, r),
            ) by {
            assert(origin_before((j, r), (at, t)));
        }
    }

    /// Once the whole list of the last visited node was gone through, the
    /// stack covers every visited node.
    pub(crate) proof fn lemma_stack_covers_done(
        &self,
        order: Seq<i32>,
        stack: Seq<i32>,
        origin: Seq<(int, int)>,
        upto: int,
    )
        requires
            order.len() > 0,
            upto >= self.neighbors(order[order.len() - 1]).len(),
            self.stack_covers(order, stack, origin, order.len() - 1, upto),
        ensures
            self.stack_covers(order, stack, origin, order.len() as int, 0),
    {
        let at = order.len() - 1;
        assert forall|k: int| 0 <= k < stack.len() implies origin_before(
            #[trigger] origin[k],
            (order.len() as int, 0),
        ) by {
            assert(self.stack_entry_ok(order, stack, origin, k));
        }
        assert forall|j: int, r: int|
            0 <= j < order.len() && 0 <= r < self.neighbors(order[j]).len() && origin_before(
                (j, r),
                (order.len() as int, 0),
            ) && !order.contains(self.neighbors(order[j])[r]) implies #[trigger] origin.contains(
                (j, r),
            ) by {
            assert(origin_before((j, r), (at, upto)));
        }
    }

    /// With nothing left on the stack, no visited node has an unvisited
    /// neighbour.
    pub(crate) proof fn lemma_stack_empty_complete(&self, order: Seq<i32>, origin: Seq<(int, int)>)
        requires
            self.stack_covers(order, Seq::empty(), origin, order.len() as int, 0),
        ensures
            self.is_complete(order),
    {
        assert forall|k: int| 0 <= k < order.len() implies self.exhausted(
            order,
            #[trigger] order[k],
        ) by {
            assert forall|r: int| 0 <= r < self.neighbors(order[k]).len() implies order.contains(
                #[trigger] self.neighbors(order[k])[r],
            ) by {
                if !order.contains(self.neighbors(order[k])[r]) {
                    assert(origin_before((k, r), (order.len() as int, 0)));
                    assert(origin.contains((k, r)));
                }
            }
        }
    }
}

} // verus!
