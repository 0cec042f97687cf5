//! Breadth-first traversal, and the shortest paths and distances that it
//! yields.

use crate::graph::Graph;
use crate::order::identifier_count;
use crate::order::Traversal;
use std::collections::HashMap;
use std::collections::HashSet;
use std::collections::VecDeque;
use vstd::prelude::*;

verus! {

broadcast use vstd::std_specs::hash::group_hash_axioms;

impl Graph {
    /// `m` maps exactly the nodes that are reachable from `start`, each to
    /// its distance from `start`.
    pub open spec fn is_distance_map(&self, start: i32, m: Map<i32, i32>) -> bool {
        &&& forall|k: i32| m.contains_key(k) <==> self.reachable(start, k)
        &&& forall|k: i32| m.contains_key(k) ==> m[k] == self.distance(start, k)
    }

    /// Every distance from `start` can be counted in an `i32`.
    pub open spec fn distances_fit(&self, start: i32) -> bool {
        forall|k: i32| self.reachable(start, k) ==> self.distance(start, k) <= i32::MAX
    }

    /// `parent` holds, for every node of `found` but the first, the node from
    /// whose list the breadth-first search picked it.
    pub open spec fn links_to_parents(&self, found: Seq<i32>, parent: Map<i32, i32>) -> bool {
        forall|i: int|
            1 <= i < found.len() ==> parent.contains_key(#[trigger] found[i]) && parent[found[i]]
                == found[self.parent_index(Traversal::BreadthFirst, found, i)]
    }

    /// The nodes reachable from `start`, in breadth-first order.
    ///
    /// A node is marked as visited when it enters the queue, so each node is
    /// queued once and the queue's order is the visiting order.
    pub fn bfs(&self, start: i32) -> (order: Vec<i32>)
        ensures
            order@ == self.visit_order(Traversal::BreadthFirst, start),
            self.is_traversal(Traversal::BreadthFirst, start, order@),
            order@.no_duplicates(),
            forall|x: i32| order@.contains(x) <==> self.reachable(start, x),
            order@.len() == self.reachable_set(start).len(),
            forall|a: int, b: int|
                0 <= a <= b < order@.len() ==> self.distance(start, #[trigger] order@[a])
                    <= self.distance(start, #[trigger] order@[b]),
    {
        let mut visited: HashSet<i32> = HashSet::new();
        let mut queue: VecDeque<i32> = VecDeque::new();
        let mut result: Vec<i32> = Vec::new();

        queue.push_back(start);
        visited.insert(start);
        let ghost mut found: Seq<i32> = seq![start];
        proof {
            assert(found =~= result@ + queue@);
            assert(found[0] == start);
            assert(visited@ =~= found.to_set());
            self.lemma_distinct_nodes_bound(Traversal::BreadthFirst, found);
        }

        while queue.len() > 0
            invariant
                found =~= result@ + queue@,
                visited@ == found.to_set(),
                self.is_partial(Traversal::BreadthFirst, found),
                found[0] == start,
                found.len() <= identifier_count(),
                self.exhausted_upto(found, result@.len() as int),
            decreases identifier_count() - found.len(), queue@.len(),
        {
            let ghost waiting = queue@.len();
            let ghost at = result@.len() as int;
            let node = queue.pop_front().unwrap();
            result.push(node);
            assert(found =~= result@ + queue@);

            let adjacent = self.adjacent(node);
            if let Some(neighbors) = adjacent {
                let mut t: usize = 0;
                while t < neighbors.len()
                    invariant
                        0 <= t <= neighbors.len(),
                        neighbors@ == self.neighbors(node),
                        found =~= result@ + queue@,
                        at == result@.len() - 1,
                        at >= 0,
                        found[at] == node,
                        queue@.len() >= waiting - 1,
                        visited@ == found.to_set(),
                        self.is_partial(Traversal::BreadthFirst, found),
                        found[0] == start,
                        found.len() <= identifier_count(),
                        self.exhausted_upto(found, at),
                        forall|r: int| 0 <= r < t ==> found.contains(#[trigger] neighbors@[r]),
                    decreases neighbors.len() - t,
                {
                    let neighbor = neighbors[t];
                    if !visited.contains(&neighbor) {
                        visited.insert(neighbor);
                        queue.push_back(neighbor);
                        proof {
                            self.lemma_bfs_enqueue(found, at, t as int, neighbor);
                            found = found.push(neighbor);
                        }
                    }
                    t += 1;
                }
            }
            assert(self.exhausted(found, found[at]));
        }
        proof {
            assert(found =~= result@);
            self.lemma_visit_order(Traversal::BreadthFirst, start);
            self.lemma_traversal_visits_reachable(Traversal::BreadthFirst, start, found);
            assert forall|a: int, b: int| 0 <= a <= b < found.len() implies self.distance(
                start,
                #[trigger] found[a],
            ) <= self.distance(start, #[trigger] found[b]) by {
                self.lemma_bfs_order_by_distance(start, found, a, b);
            }
        }
        result
    }

    /// A shortest path from `start` to `end`, as the nodes on it in order, or
    /// `None` if `end` cannot be reached from `start`.
    ///
    /// The search stops as soon as `end` leaves the queue. Of several
    /// shortest paths it returns the one through the breadth-first tree:
    /// each node on it is preceded by the node from whose list it was first
    /// seen.
    pub fn shortest_path_bfs(&self, start: i32, end: i32) -> (path: Option<Vec<i32>>)
        ensures
            match path {
                Some(p) => self.shortest_path(start, end) == Some(p@),
                None => self.shortest_path(start, end) is None,
            },
            path is Some <==> self.reachable(start, end),
            path is Some ==> self.walk_between(start, end, path->0@),
            path is Some ==> path->0@.len() == self.distance(start, end) + 1,
            start == end ==> path is Some && path->0@ == seq![start],
    {
        let mut visited: HashSet<i32> = HashSet::new();
        let mut queue: VecDeque<i32> = VecDeque::new();
        let mut parent: HashMap<i32, i32> = HashMap::new();

        queue.push_back(start);
        visited.insert(start);
        let ghost mut found: Seq<i32> = seq![start];
        let ghost mut done: int = 0;
        proof {
            assert(found[0] == start);
            assert(visited@ =~= found.to_set());
            self.lemma_distinct_nodes_bound(Traversal::BreadthFirst, found);
        }

        while queue.len() > 0
            invariant
                0 <= done <= found.len(),
                queue@ =~= found.skip(done),
                visited@ == found.to_set(),
                self.is_partial(Traversal::BreadthFirst, found),
                found[0] == start,
                found.len() <= identifier_count(),
                self.exhausted_upto(found, done),
                self.links_to_parents(found, parent@),
                forall|k: int| 0 <= k < done ==> #[trigger] found[k] != end,
            decreases identifier_count() - found.len(), queue@.len(),
        {
            let ghost waiting = queue@.len();
            let ghost at = done;
            let node = queue.pop_front().unwrap();
            assert(node == found[at]);
            if node == end {
                let path = self.reconstruct_path(&parent, start, end, Ghost(found), Ghost(at));
                proof {
                    self.lemma_tree_path_is_bfs_path(found, at);
                    if start == end {
                        self.lemma_distance_self(start);
                        assert(path@ =~= seq![start]);
                    }
                }
                return Some(path);
            }
            let adjacent = self.adjacent(node);
            if let Some(neighbors) = adjacent {
                let mut t: usize = 0;
                while t < neighbors.len()
                    invariant
                        0 <= t <= neighbors.len(),
                        neighbors@ == self.neighbors(node),
                        0 <= at < found.len(),
                        found[at] == node,
                        queue@ =~= found.skip(at + 1),
                        queue@.len() >= waiting - 1,
                        visited@ == found.to_set(),
                        self.is_partial(Traversal::BreadthFirst, found),
                        found[0] == start,
                        found.len() <= identifier_count(),
                        self.exhausted_upto(found, at),
                        self.links_to_parents(found, parent@),
                        forall|k: int| 0 <= k <= at ==> #[trigger] found[k] != end,
                        forall|r: int| 0 <= r < t ==> found.contains(#[trigger] neighbors@[r]),
                    decreases neighbors.len() - t,
                {
                    let neighbor = neighbors[t];
                    if !visited.contains(&neighbor) {
                        visited.insert(neighbor);
                        parent.insert(neighbor, node);
                        queue.push_back(neighbor);
                        proof {
                            let longer = found.push(neighbor);
                            self.lemma_bfs_enqueue(found, at, t as int, neighbor);
                            assert(queue@ =~= longer.skip(at + 1));
                            assert forall|i: int| 1 <= i < longer.len() implies {
                                &&& parent@.contains_key(#[trigger] longer[i])
                                &&& parent@[longer[i]] == longer[self.parent_index(
                                    Traversal::BreadthFirst,
                                    longer,
                                    i,
                                )]
                            } by {
                                if i < found.len() {
                                    assert(found.contains(found[i]));
                                    assert(longer[i] == found[i]);
                                    self.lemma_parent_edge(Traversal::BreadthFirst, found, i);
                                }
                            }
                            found = longer;
                        }
                    }
                    t += 1;
                }
            }
            proof {
                assert(self.exhausted(found, found[at]));
                done = done + 1;
            }
        }
        proof {
            assert(done == found.len());
            self.lemma_traversal_visits_reachable(Traversal::BreadthFirst, start, found);
            if found.contains(end) {
                let i = choose|i: int| 0 <= i < found.len() && found[i] == end;
                assert(found[i] != end);
            }
            assert(found[0] == start);
        }
        None
    }

    /// The distance from `start` of every node that is reachable from it;
    /// other nodes have no entry.
    ///
    /// A distance is counted in an `i32`, so no reachable node may be
    /// farther from `start` than `i32::MAX`. That holds of every graph with
    /// at most `i32::MAX` nodes (see [`Graph::node_count`] and
    /// [`Graph::lemma_distance_at_most_nodes`]).
    pub fn bfs_distances(&self, start: i32) -> (distances: HashMap<i32, i32>)
        requires
            self.distances_fit(start),
        ensures
            self.is_distance_map(start, distances@),
            distances@.contains_key(start),
            distances@[start] == 0,
    {
        let mut distances: HashMap<i32, i32> = HashMap::new();
        let mut visited: HashSet<i32> = HashSet::new();
        let mut queue: VecDeque<i32> = VecDeque::new();

        queue.push_back(start);
        visited.insert(start);
        distances.insert(start, 0);
        let ghost mut found: Seq<i32> = seq![start];
        let ghost mut done: int = 0;
        proof {
            assert(found[0] == start);
            assert(visited@ =~= found.to_set());
            assert(distances@.dom() =~= found.to_set());
            self.lemma_distinct_nodes_bound(Traversal::BreadthFirst, found);
            self.lemma_distance_self(start);
        }

        while queue.len() > 0
            invariant
                0 <= done <= found.len(),
                queue@ =~= found.skip(done),
                visited@ == found.to_set(),
                distances@.dom() == found.to_set(),
                self.is_partial(Traversal::BreadthFirst, found),
                found[0] == start,
                found.len() <= identifier_count(),
                self.exhausted_upto(found, done),
                self.distances_fit(start),
                forall|i: int|
                    0 <= i < found.len() ==> distances@[#[trigger] found[i]] == self.distance(
                        start,
                        found[i],
                    ),
            decreases identifier_count() - found.len(), queue@.len(),
        {
            let ghost waiting = queue@.len();
            let ghost at = done;
            let node = queue.pop_front().unwrap();
            assert(node == found[at]);

            let adjacent = self.adjacent(node);
            if let Some(neighbors) = adjacent {
                let mut t: usize = 0;
                while t < neighbors.len()
                    invariant
                        0 <= t <= neighbors.len(),
                        neighbors@ == self.neighbors(node),
                        0 <= at < found.len(),
                        found[at] == node,
                        queue@ =~= found.skip(at + 1),
                        queue@.len() >= waiting - 1,
                        visited@ == found.to_set(),
                        distances@.dom() == found.to_set(),
                        self.is_partial(Traversal::BreadthFirst, found),
                        found[0] == start,
                        found.len() <= identifier_count(),
                        self.exhausted_upto(found, at),
                        self.distances_fit(start),
                        forall|r: int| 0 <= r < t ==> found.contains(#[trigger] neighbors@[r]),
                        forall|i: int|
                            0 <= i < found.len() ==> distances@[#[trigger] found[i]]
                                == self.distance(start, found[i]),
                    decreases neighbors.len() - t,
                {
                    let neighbor = neighbors[t];
                    if !visited.contains(&neighbor) {
                        visited.insert(neighbor);
                        let ghost longer = found.push(neighbor);
                        proof {
                            self.lemma_bfs_enqueue(found, at, t as int, neighbor);
                            assert(found.contains(node));
                        }
                        let level = *distances.get(&node).unwrap();
                        distances.insert(neighbor, level + 1);
                        queue.push_back(neighbor);
                        proof {
                            assert(queue@ =~= longer.skip(at + 1));
                            assert forall|i: int|
                                0 <= i < longer.len() implies distances@[#[trigger] longer[i]]
                                == self.distance(start, longer[i]) by {
                                if i < found.len() {
                                    assert(found.contains(found[i]));
                                    assert(longer[i] == found[i]);
                                }
                            }
                            found = longer;
                        }
                    }
                    t += 1;
                }
            }
            proof {
                assert(self.exhausted(found, found[at]));
                done = done + 1;
            }
        }
        proof {
            assert(done == found.len());
            self.lemma_traversal_visits_reachable(Traversal::BreadthFirst, start, found);
            assert forall|k: i32| distances@.contains_key(k) implies distances@[k] == self.distance(
                start,
                k,
            ) by {
                let i = choose|i: int| 0 <= i < found.len() && found[i] == k;
                assert(distances@[found[i]] == self.distance(start, found[i]));
            }
            self.lemma_distance_self(start);
        }
        distances
    }

    /// Follows the parent links from `end` back to `start` and returns the
    /// nodes passed, from `start` to `end`.
    ///
    /// `parent` must hold, for every node of the breadth-first order `found`
    /// but the first, the node from whose list it was picked, and `end` must
    /// be the node at position `at` of `found`.
    fn reconstruct_path(
        &self,
        parent: &HashMap<i32, i32>,
        start: i32,
        end: i32,
        Ghost(found): Ghost<Seq<i32>>,
        Ghost(at): Ghost<int>,
    ) -> (path: Vec<i32>)
        requires
            self.is_partial(Traversal::BreadthFirst, found),
            found[0] == start,
            0 <= at < found.len(),
            found[at] == end,
            self.links_to_parents(found, parent@),
        ensures
            path@ == self.tree_path(Traversal::BreadthFirst, found, at),
    {
        let ghost whole = self.tree_path(Traversal::BreadthFirst, found, at);
        let ghost mut idx: int = at;
        let mut path: Vec<i32> = Vec::new();
        let mut current = end;
        proof {
            self.lemma_partial_no_duplicates(Traversal::BreadthFirst, found);
            assert(whole.take(whole.len() as int) =~= whole);
        }

        while current != start
            invariant
                self.is_partial(Traversal::BreadthFirst, found),
                found.no_duplicates(),
                found[0] == start,
                self.links_to_parents(found, parent@),
                0 <= idx <= at < found.len(),
                current == found[idx],
                path@.len() < whole.len(),
                self.tree_path(Traversal::BreadthFirst, found, idx) == whole.take(
                    whole.len() - path@.len(),
                ),
                forall|k: int| 0 <= k < path@.len() ==> path@[k] == whole[whole.len() - 1 - k],
            decreases idx,
        {
            proof {
                self.lemma_parent_edge(Traversal::BreadthFirst, found, idx);
                self.lemma_tree_path_is_walk(
                    Traversal::BreadthFirst,
                    found,
                    self.parent_index(Traversal::BreadthFirst, found, idx),
                );
                let upper = self.tree_path(
                    Traversal::BreadthFirst,
                    found,
                    self.parent_index(Traversal::BreadthFirst, found, idx),
                );
                let sofar = self.tree_path(Traversal::BreadthFirst, found, idx);
                assert(sofar == upper.push(current));
                assert(sofar[sofar.len() - 1] == current);
                assert(upper =~= whole.take(whole.len() - path@.len() - 1));
            }
            path.push(current);
            current = *parent.get(&current).unwrap();
            proof {
                idx = self.parent_index(Traversal::BreadthFirst, found, idx);
            }
        }
        proof {
            assert(self.tree_path(Traversal::BreadthFirst, found, 0) =~= seq![start]);
            assert(whole.len() - path@.len() == 1);
            assert(whole[0] == whole.take(1)[0]);
        }
        path.push(start);
        reverse_in_place(&mut path);
        assert(path@ =~= whole);
        path
    }
}

/// Turns `list` around in place.
fn reverse_in_place(list: &mut Vec<i32>)
    ensures
        final(list)@ == old(list)@.reverse(),
{
    let n = list.len();
    let mut lo: usize = 0;
    while lo < n / 2
        invariant
            n == list@.len(),
            n == old(list)@.len(),
            0 <= lo <= n / 2,
            forall|i: int| 0 <= i < lo ==> list@[i] == old(list)@[n - 1 - i],
            forall|i: int| 0 <= i < lo ==> list@[n - 1 - i] == old(list)@[i],
            forall|i: int| lo <= i < n - lo ==> list@[i] == old(list)@[i],
        decreases n / 2 - lo,
    {
        let hi = n - 1 - lo;
        let front = list[lo];
        let back = list[hi];
        list[lo] = back;
        list[hi] = front;
        lo += 1;
    }
    assert(list@ =~= old(list)@.reverse());
}

} // verus!
