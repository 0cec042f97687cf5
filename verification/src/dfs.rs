//! Depth-first traversal, by recursion and with an explicit stack.

use crate::graph::Graph;
use crate::order::identifier_count;
use crate::order::Traversal;
use std::collections::HashSet;
use vstd::prelude::*;

verus! {

broadcast use vstd::std_specs::hash::group_hash_axioms;

impl Graph {
    /// The nodes reachable from `start`, in depth-first preorder: a node is
    /// visited, then each neighbour in list order that is still unvisited at
    /// that moment, with all that it leads to.
    ///
    /// The recursion is as deep as the longest path it follows;
    /// [`Graph::dfs_iterative`] is the variant for deep graphs.
    pub fn dfs(&self, start: i32) -> (order: Vec<i32>)
        ensures
            order@ == self.visit_order(Traversal::DepthFirst, start),
            self.is_traversal(Traversal::DepthFirst, start, order@),
            order@.no_duplicates(),
            forall|x: i32| order@.contains(x) <==> self.reachable(start, x),
            order@.len() == self.reachable_set(start).len(),
    {
        let mut visited: HashSet<i32> = HashSet::new();
        let mut result: Vec<i32> = Vec::new();
        proof {
            assert(visited@ =~= result@.to_set());
            assert(self.is_partial(Traversal::DepthFirst, result@.push(start)));
        }
        self.dfs_helper(start, &mut visited, &mut result);
        proof {
            assert(result@[0] == seq![start][0]);
            self.lemma_visit_order(Traversal::DepthFirst, start);
            self.lemma_traversal_visits_reachable(Traversal::DepthFirst, start, result@);
        }
        result
    }

    /// Visits `node` and, through its unvisited neighbours, all that was not
    /// visited before and can be reached without passing a visited node.
    fn dfs_helper(&self, node: i32, visited: &mut HashSet<i32>, result: &mut Vec<i32>)
        requires
            old(visited)@ == old(result)@.to_set(),
            !old(visited)@.contains(node),
            self.is_partial(Traversal::DepthFirst, old(result)@.push(node)),
        ensures
            final(visited)@ == final(result)@.to_set(),
            old(result)@.push(node).is_prefix_of(final(result)@),
            self.is_partial(Traversal::DepthFirst, final(result)@),
            forall|k: int|
                old(result)@.len() <= k < final(result)@.len() ==> self.exhausted(
                    final(result)@,
                    #[trigger] final(result)@[k],
                ),
        decreases identifier_count() - old(result)@.len(),
    {
        let ghost before = result@;
        let ghost at = result@.len() as int;
        visited.insert(node);
        result.push(node);
        proof {
            crate::order::lemma_to_set_push(before, node);
            self.lemma_distinct_nodes_bound(Traversal::DepthFirst, result@);
        }

        let adjacent = self.adjacent(node);
        if let Some(neighbors) = adjacent {
            let mut t: usize = 0;
            while t < neighbors.len()
                invariant
                    0 <= t <= neighbors.len(),
                    neighbors@ == self.neighbors(node),
                    at == before.len(),
                    before == old(result)@,
                    visited@ == result@.to_set(),
                    before.push(node).is_prefix_of(result@),
                    self.is_partial(Traversal::DepthFirst, result@),
                    result@.len() <= identifier_count(),
                    forall|k: int|
                        at < k < result@.len() ==> self.exhausted(result@, #[trigger] result@[k]),
                    forall|r: int| 0 <= r < t ==> result@.contains(#[trigger] neighbors@[r]),
                decreases neighbors.len() - t,
            {
                let neighbor = neighbors[t];
                if !visited.contains(&neighbor) {
                    let ghost so_far = result@;
                    proof {
                        assert(so_far[at] == before.push(node)[at]);
                        assert(self.picks(
                            Traversal::DepthFirst,
                            so_far,
                            neighbor,
                            at,
                            t as int,
                        ));
                        self.lemma_partial_push(
                            Traversal::DepthFirst,
                            so_far,
                            neighbor,
                            at,
                            t as int,
                        );
                        self.lemma_distinct_nodes_bound(
                            Traversal::DepthFirst,
                            so_far.push(neighbor),
                        );
                    }
                    self.dfs_helper(neighbor, visited, result);
                    proof {
                        self.lemma_distinct_nodes_bound(Traversal::DepthFirst, result@);
                        assert(so_far.is_prefix_of(result@)) by {
                            assert(so_far.push(neighbor).is_prefix_of(result@));
                            assert forall|i: int| 0 <= i < so_far.len() implies so_far[i]
                                == result@[i] by {
                                assert(so_far.push(neighbor)[i] == so_far[i]);
                            }
                        }
                        assert forall|k: int| at < k < result@.len() implies self.exhausted(
                            result@,
                            #[trigger] result@[k],
                        ) by {
                            if k < so_far.len() {
                                self.lemma_exhausted_grows(so_far, result@, so_far[k]);
                            }
                        }
                        assert forall|r: int| 0 <= r <= t implies result@.contains(
                            #[trigger] neighbors@[r],
                        ) by {
                            if r < t {
                                crate::order::lemma_prefix_contains(so_far, result@, neighbors@[r]);
                            } else {
                                assert(result@[so_far.len() as int] == so_far.push(
                                    neighbor,
                                )[so_far.len() as int]);
                            }
                        }
                    }
                }
                t += 1;
            }
        }
        proof {
            assert(result@[at] == before.push(node)[at]);
            assert(self.exhausted(result@, result@[at]));
        }
    }

    /// The nodes reachable from `start`, in the depth-first order that an
    /// explicit stack gives.
    ///
    /// The unvisited neighbours of a visited node are pushed in list order and
    /// a node is marked as visited when it is popped, so the last neighbour in
    /// a list is followed first. The order may differ from that of
    /// [`Graph::dfs`]; the set of visited nodes is the same.
    pub fn dfs_iterative(&self, start: i32) -> (order: Vec<i32>)
        ensures
            order@ == self.visit_order(Traversal::DepthFirstStack, start),
            self.is_traversal(Traversal::DepthFirstStack, start, order@),
            order@.no_duplicates(),
            forall|x: i32| order@.contains(x) <==> self.reachable(start, x),
            order@.len() == self.reachable_set(start).len(),
    {
        let mut visited: HashSet<i32> = HashSet::new();
        let mut stack: Vec<i32> = vec![start];
        let mut result: Vec<i32> = Vec::new();
        // For each stack entry, the position in `result` of the node that
        // pushed it and the entry's position in that node's list.
        let ghost mut origin: Seq<(int, int)> = seq![(0int, 0int)];
        assert(visited@ =~= result@.to_set());

        while stack.len() > 0
            invariant
                visited@ == result@.to_set(),
                result@.len() <= identifier_count(),
                origin.len() == stack@.len(),
                result@.len() == 0 ==> stack@ == seq![start],
                result@.len() > 0 ==> {
                    &&& result@[0] == start
                    &&& self.is_partial(Traversal::DepthFirstStack, result@)
                    &&& self.stack_covers(result@, stack@, origin, result@.len() as int, 0)
                },
            decreases identifier_count() - result@.len(), stack@.len(),
        {
            let ghost popped = origin[origin.len() - 1];
            let ghost full = stack@;
            let node = stack.pop().unwrap();
            assert(stack@ =~= full.drop_last());
            if !visited.contains(&node) {
                let ghost before = result@;
                let ghost at = result@.len() as int;
                proof {
                    if before.len() > 0 {
                        self.lemma_stack_top_is_picked(before, full, origin);
                        self.lemma_partial_push(
                            Traversal::DepthFirstStack,
                            before,
                            node,
                            popped.0,
                            popped.1,
                        );
                        self.lemma_stack_covers_visit(before, full, origin);
                    } else {
                        assert(self.is_partial(Traversal::DepthFirstStack, before.push(node)));
                    }
                    origin = origin.drop_last();
                    crate::order::lemma_to_set_push(before, node);
                    self.lemma_distinct_nodes_bound(Traversal::DepthFirstStack, before.push(node));
                }
                visited.insert(node);
                result.push(node);

                let adjacent = self.adjacent(node);
                if let Some(neighbors) = adjacent {
                    let mut t: usize = 0;
                    while t < neighbors.len()
                        invariant
                            0 <= t <= neighbors.len(),
                            neighbors@ == self.neighbors(node),
                            visited@ == result@.to_set(),
                            result@ == before.push(node),
                            at == before.len(),
                            self.stack_covers(result@, stack@, origin, at, t as int),
                        decreases neighbors.len() - t,
                    {
                        let neighbor = neighbors[t];
                        if !visited.contains(&neighbor) {
                            proof {
                                self.lemma_stack_covers_push(result@, stack@, origin, t as int);
                                origin = origin.push((at, t as int));
                            }
                            stack.push(neighbor);
                        } else {
                            proof {
                                self.lemma_stack_covers_skip(result@, stack@, origin, t as int);
                            }
                        }
                        t += 1;
                    }
                }
                proof {
                    self.lemma_stack_covers_done(
                        result@,
                        stack@,
                        origin,
                        self.neighbors(node).len() as int,
                    );
                }
            } else {
                proof {
                    assert(result@.len() > 0);
                    self.lemma_stack_covers_pop(result@, full, origin);
                    origin = origin.drop_last();
                }
            }
        }
        proof {
            assert(stack@ =~= Seq::empty());
            self.lemma_stack_empty_complete(result@, origin);
            self.lemma_visit_order(Traversal::DepthFirstStack, start);
            self.lemma_traversal_visits_reachable(Traversal::DepthFirstStack, start, result@);
        }
        result
    }
}

} // verus!
