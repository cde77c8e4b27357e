//! The closest common dominator of a set of nodes.

use crate::augmented;
use crate::dominance::RootedGraph;
use crate::errors::DominatorFinderError;
use crate::finder_laws;
use crate::forest;
use crate::forest::Forest;
use crate::iteration;
use crate::keys;
use crate::numbering::Numbering;
use crate::relabel;
use crate::search;
use crate::sequences;
use crate::ways;
use std::collections::HashMap;
use std::collections::HashSet;
use std::hash::Hash;
use vstd::prelude::*;

verus! {

/// Finds closest common dominators in one graph.
///
/// The nodes get consecutive numbers. One more number stands for a virtual entry node, which leads
/// to every entry node, so that the graph has a single entry. The immediate dominators of the
/// numbered nodes are found by passes over the graph, after Cooper, Harvey and Kennedy, and the
/// closest common dominator is the lowest common ancestor in the tree that they make up.
#[verifier::reject_recursive_types(T)]
pub struct DominatorFinder<T> {
    /// The number of each node.
    node_to_id: HashMap<T, usize>,
    /// The node with each number.
    id_to_node: Vec<T>,
    /// The successors of each numbered node. The last list belongs to the virtual entry.
    adj: Vec<Vec<usize>>,
    /// The predecessors of each numbered node.
    rev_adj: Vec<Vec<usize>>,
}

impl<T> DominatorFinder<T> {
    /// Searches depth first from `u`, which has not been visited, and appends the nodes that
    /// it visits to `order` as it leaves them.
    fn dfs(
        u: usize,
        graph: &Vec<Vec<usize>>,
        visited: &mut HashSet<usize>,
        order: &mut Vec<usize>,
    )
        requires
            search::lists_in_range(graph@),
            u < graph@.len(),
            !old(visited)@.contains(u),
            old(visited)@.finite(),
            forall|x: usize| #[trigger] old(visited)@.contains(x) ==> x < graph@.len(),
        ensures
            final(order)@.len() >= old(order)@.len(),
            final(order)@.take(old(order)@.len() as int) == old(order)@,
            search::post_order(
                graph@,
                old(visited)@,
                u,
                final(order)@.skip(old(order)@.len() as int),
            ),
            search::visits(
                graph@,
                old(visited)@,
                u,
                final(order)@.skip(old(order)@.len() as int),
            ),
            final(visited)@ == old(visited)@.union(
                final(order)@.skip(old(order)@.len() as int).to_set(),
            ),
        decreases graph@.len() - old(visited)@.len(),
    {
        broadcast use vstd::std_specs::hash::group_hash_axioms;

        let ghost seen = visited@;
        let ghost base = order@.len() as int;
        proof {
            Self::lemma_room(seen, u, graph@.len());
        }
        visited.insert(u);
        assert(order@.skip(base) =~= Seq::<usize>::empty());
        assert(visited@ =~= seen.insert(u).union(order@.skip(base).to_set()));
        let mut j: usize = 0;
        while j < graph[u].len()
            invariant
                search::lists_in_range(graph@),
                u < graph@.len(),
                !seen.contains(u),
                seen.finite(),
                seen == old(visited)@,
                base == old(order)@.len(),
                forall|x: usize| #[trigger] seen.contains(x) ==> x < graph@.len(),
                seen.len() < graph@.len(),
                0 <= j <= graph@[u as int]@.len(),
                order@.len() >= base,
                order@.take(base) == old(order)@,
                search::partial_post_order(graph@, seen, u, j as int, order@.skip(base)),
                search::visits_successors(
                    graph@,
                    seen.insert(u),
                    u,
                    j as nat,
                    order@.skip(base),
                ),
                visited@ == seen.insert(u).union(order@.skip(base).to_set()),
            decreases graph@[u as int]@.len() - j,
        {
            let v = graph[u][j];
            let ghost a = order@.skip(base);
            let ghost before = order@;
            if !visited.contains(&v) {
                proof {
                    assert forall|x: usize| #[trigger] visited@.contains(x) implies x
                        < graph@.len() by {
                        if a.contains(x) {
                            assert(a[a.index_of(x)] == x);
                        }
                    }
                    vstd::seq_lib::seq_to_set_is_finite(a);
                    assert(seen.insert(u).subset_of(visited@));
                    vstd::set_lib::lemma_len_subset(seen.insert(u), visited@);
                    Self::lemma_room(visited@, v, graph@.len());
                }
                Self::dfs(v, graph, visited, order);
                proof {
                    let b = order@.skip(before.len() as int);
                    search::lemma_extend(graph@, seen, u, j as int, a, b);
                    search::lemma_visits_next(graph@, seen.insert(u), u, j as nat, a, b);
                    assert(order@.skip(base) =~= a + b) by {
                        assert(order@.take(before.len() as int) == before);
                        assert forall|i: int| 0 <= i < a.len() implies order@.skip(base)[i]
                            == a[i] by {
                            assert(order@.take(before.len() as int)[base + i] == before[base + i]);
                        }
                    }
                    assert(order@.take(base) =~= old(order)@) by {
                        assert forall|i: int| 0 <= i < base implies order@[i] == before[i] by {
                            assert(order@.take(before.len() as int)[i] == before[i]);
                        }
                        assert forall|i: int| 0 <= i < base implies before[i] == old(
                            order,
                        )@[i] by {
                            assert(before.take(base)[i] == before[i]);
                        }
                    }
                    vstd::seq_lib::seq_to_set_distributes_over_add(a, b);
                    assert(visited@ =~= seen.insert(u).union((a + b).to_set()));
                }
            } else {
                proof {
                    search::lemma_skip_seen(graph@, seen, u, j as int, a);
                }
            }
            j += 1;
        }
        let ghost a = order@.skip(base);
        proof {
            search::lemma_leave(graph@, seen, u, a);
        }
        order.push(u);
        assert(order@.skip(base) =~= a.push(u));
        assert(a.push(u).drop_last() =~= a);
        assert(order@.take(base) =~= old(order)@) by {
            assert(order@.drop_last().take(base) =~= order@.take(base));
        }
    }

    /// A set of numbers below `n` that misses one of them has fewer than `n` members.
    proof fn lemma_room(s: Set<usize>, u: usize, n: nat)
        requires
            s.finite(),
            !s.contains(u),
            u < n,
            forall|x: usize| #[trigger] s.contains(x) ==> x < n,
        ensures
            s.len() < n,
    {
        let all = Set::new(|i: int| 0 <= i < n);
        vstd::set_lib::lemma_int_range(0, n as int);
        assert(all =~= vstd::set_lib::set_int_range(0, n as int));
        let ints = s.insert(u).map(|x: usize| x as int);
        assert(ints.subset_of(all));
        vstd::set_lib::lemma_map_size(s.insert(u), ints, |x: usize| x as int);
        vstd::set_lib::lemma_len_subset(ints, all);
    }

    /// The nodes of `graph` that `root` reaches, in the reverse of the order in which a
    /// depth-first search leaves them. An edge that leads backwards in it closes a cycle.
    fn get_reverse_post_order(graph: &Vec<Vec<usize>>, root: usize) -> (order: Vec<usize>)
        requires
            search::lists_in_range(graph@),
            root < graph@.len(),
        ensures
            iteration::is_flow_order(search::list_graph(graph@, root), order@),
            search::visits(graph@, Set::empty(), root, order@.reverse()),
            iteration::backward_edges_close_cycles(search::list_graph(graph@, root), order@),
            forall|i: int| 0 <= i < order@.len() ==> (#[trigger] order@[i]) < graph@.len(),
    {
        broadcast use vstd::std_specs::hash::group_hash_axioms;

        let mut visited: HashSet<usize> = HashSet::new();
        let mut post: Vec<usize> = Vec::new();
        Self::dfs(root, graph, &mut visited, &mut post);
        let ghost a = post@;
        proof {
            assert(post@.skip(0) =~= post@);
            search::lemma_reverse_is_flow_order(graph@, root, a);
            search::lemma_reverse_closes_cycles(graph@, root, a);
        }
        let mut order: Vec<usize> = Vec::new();
        while post.len() > 0
            invariant
                post@.len() <= a.len(),
                post@ == a.take(post@.len() as int),
                order@ == a.reverse().take(a.len() - post@.len()),
            decreases post@.len(),
        {
            let ghost k = post@.len() as int;
            match post.pop() {
                Some(x) => {
                    assert(x == a[k - 1]);
                    order.push(x);
                    assert(order@ =~= a.reverse().take(a.len() - (k - 1)));
                    assert(post@ =~= a.take(k - 1));
                },
                None => {},
            }
        }
        assert(order@ =~= a.reverse());
        assert(order@.reverse() =~= a);
        assert forall|i: int| 0 <= i < order@.len() implies (#[trigger] order@[i])
            < graph@.len() by {
            assert(order@[i] == a[a.len() - 1 - i]);
        }
        order
    }

    /// The position of `node` in `order`.
    fn get_order_idx(order: &Vec<usize>, node: usize) -> (index: usize)
        requires
            order@.contains(node),
            order@.no_duplicates(),
        ensures
            index == order@.index_of(node),
            index < order@.len(),
    {
        let mut i: usize = 0;
        while order[i] != node
            invariant
                i < order@.len(),
                order@.contains(node),
                forall|k: int| 0 <= k < i ==> order@[k] != node,
            decreases order@.len() - i,
        {
            proof {
                let k = order@.index_of(node);
                assert(order@[k] == node);
                assert(i < k < order@.len());
                assert(order@.len() == order.len());
            }
            i += 1;
        }
        i
    }

    /// The lowest common ancestor of two nodes, found by climbing from whichever comes later
    /// in `order`.
    fn intersect(
        b1: usize,
        b2: usize,
        idom: &Vec<Option<usize>>,
        order: &Vec<usize>,
        Ghost(root): Ghost<usize>,
    ) -> (meet: usize)
        requires
            (Forest { order: order@, parent: idom@ }).wf(root),
            (Forest { order: order@, parent: idom@ }).known(b1),
            (Forest { order: order@, parent: idom@ }).known(b2),
        ensures
            (Forest { order: order@, parent: idom@ }).known(meet),
            (Forest { order: order@, parent: idom@ }).ancestor(meet, b1),
            (Forest { order: order@, parent: idom@ }).ancestor(meet, b2),
            forall|z: usize|
                (Forest { order: order@, parent: idom@ }).ancestor(z, b1) && (Forest {
                    order: order@,
                    parent: idom@,
                }).ancestor(z, b2) ==> #[trigger] (Forest {
                    order: order@,
                    parent: idom@,
                }).ancestor(z, meet),
    {
        let ghost f = Forest { order: order@, parent: idom@ };
        let mut c1 = b1;
        let mut c2 = b2;
        while c1 != c2
            invariant
                f == (Forest { order: order@, parent: idom@ }),
                f.wf(root),
                f.known(b1),
                f.known(b2),
                f.known(c1),
                f.known(c2),
                f.ancestor(c1, b1),
                f.ancestor(c2, b2),
                forall|z: usize|
                    #![trigger f.ancestor(z, c1)]
                    #![trigger f.ancestor(z, c2)]
                    f.ancestor(z, b1) && f.ancestor(z, b2) ==> f.ancestor(z, c1)
                        && f.ancestor(z, c2),
            decreases f.pos(c1) + f.pos(c2),
        {
            let ghost start1 = c1;
            let ghost start2 = c2;
            while Self::get_order_idx(order, c1) > Self::get_order_idx(order, c2)
                invariant
                    f == (Forest { order: order@, parent: idom@ }),
                    f.wf(root),
                    f.known(b1),
                    f.known(b2),
                    f.known(c1),
                    f.known(c2),
                    f.ancestor(c1, b1),
                    f.ancestor(c2, b2),
                    forall|z: usize|
                        #![trigger f.ancestor(z, c1)]
                        #![trigger f.ancestor(z, c2)]
                        f.ancestor(z, b1) && f.ancestor(z, b2) ==> f.ancestor(z, c1)
                            && f.ancestor(z, c2),
                    c1 != start1 ==> f.pos(c1) < f.pos(start1),
                ensures
                    f.pos(c1) <= f.pos(c2),
                decreases f.pos(c1),
            {
                proof {
                    Self::lemma_climb(f, root, b1, b2, c1, c2);
                }
                c1 = idom[c1].unwrap();
            }
            while Self::get_order_idx(order, c2) > Self::get_order_idx(order, c1)
                invariant
                    f == (Forest { order: order@, parent: idom@ }),
                    f.wf(root),
                    f.known(b1),
                    f.known(b2),
                    f.known(c1),
                    f.known(c2),
                    f.ancestor(c1, b1),
                    f.ancestor(c2, b2),
                    forall|z: usize|
                        #![trigger f.ancestor(z, c1)]
                        #![trigger f.ancestor(z, c2)]
                        f.ancestor(z, b1) && f.ancestor(z, b2) ==> f.ancestor(z, c1)
                            && f.ancestor(z, c2),
                    c2 != start2 ==> f.pos(c2) < f.pos(start2),
                ensures
                    c2 == start2 ==> f.pos(c2) <= f.pos(c1),
                decreases f.pos(c2),
            {
                proof {
                    Self::lemma_climb(f, root, b2, b1, c2, c1);
                }
                c2 = idom[c2].unwrap();
            }
            proof {
                f.lemma_pos(c1);
                f.lemma_pos(c2);
                if c1 == start1 && c2 == start2 {
                    f.lemma_pos_injective(c1, c2);
                }
            }
        }
        c1
    }

    /// Climbing from the later of two nodes passes no common ancestor.
    proof fn lemma_climb(f: Forest, root: usize, b1: usize, b2: usize, c1: usize, c2: usize)
        requires
            f.wf(root),
            f.known(b1),
            f.known(b2),
            f.known(c1),
            f.known(c2),
            f.ancestor(c1, b1),
            f.ancestor(c2, b2),
            f.pos(c1) > f.pos(c2),
            forall|z: usize|
                #![trigger f.ancestor(z, c1)]
                #![trigger f.ancestor(z, c2)]
                f.ancestor(z, b1) && f.ancestor(z, b2) ==> f.ancestor(z, c1)
                    && f.ancestor(z, c2),
        ensures
            c1 != root,
            f.known(f.parent[c1 as int]->0),
            f.ancestor(f.parent[c1 as int]->0, b1),
            0 <= f.pos(f.parent[c1 as int]->0) < f.pos(c1),
            forall|z: usize|
                f.ancestor(z, b1) && f.ancestor(z, b2) ==> #[trigger] f.ancestor(
                    z,
                    f.parent[c1 as int]->0,
                ) && f.ancestor(z, c2),
    {
        f.lemma_ancestor_of_root(root, root);
        f.lemma_pos(c2);
        f.lemma_parent(root, c1);
        let p = f.parent[c1 as int]->0;
        assert(f.ancestor(p, c1));
        f.lemma_ancestor_transitive(root, p, c1, b1);
        assert forall|z: usize|
            f.ancestor(z, b1) && f.ancestor(z, b2) implies #[trigger] f.ancestor(z, p)
            && f.ancestor(z, c2) by {
            assert(f.ancestor(z, c1));
            f.lemma_ancestor_pos(root, z, c2);
        }
    }

    /// The lowest common ancestor of `u` and `v`: the first node on the chain of pointers from `v`
    /// that is also on the chain from `u`, or the root if there is none.
    fn find_lca(u: usize, v: usize, idom: &Vec<Option<usize>>, root: usize) -> (lca: usize)
        requires
            u < idom@.len(),
            v < idom@.len(),
            forest::chains_end(idom@, root),
        ensures
            lca == forest::first_common(
                forest::chain(idom@, root, u),
                forest::chain(idom@, root, v),
                root,
            ),
    {
        broadcast use vstd::std_specs::hash::group_hash_axioms;

        let ghost parent = idom@;
        let ghost chain_u = forest::chain(parent, root, u);
        let mut path_u: HashSet<usize> = HashSet::new();
        let mut curr = u;
        loop
            invariant
                parent == idom@,
                forest::chains_end(parent, root),
                curr < parent.len(),
                chain_u == forest::chain(parent, root, u),
                forall|z: usize| #[trigger]
                    chain_u.contains(z) <==> path_u@.contains(z) || forest::chain(
                        parent,
                        root,
                        curr,
                    ).contains(z),
            ensures
                forall|z: usize| #[trigger] chain_u.contains(z) <==> path_u@.contains(z),
            decreases forest::chain(parent, root, curr).len(),
        {
            proof {
                forest::lemma_chain(parent, root, curr);
                assert forall|z: usize| #[trigger] forest::chain(parent, root, curr).contains(
                    z,
                ) <==> z == curr || (forest::up(parent, root, curr) is Some && forest::chain(
                    parent,
                    root,
                    forest::up(parent, root, curr)->0,
                ).contains(z)) by {
                    forest::lemma_chain_contains(parent, root, curr, z);
                }
            }
            path_u.insert(curr);
            if curr == root {
                break ;
            }
            match idom[curr] {
                Some(p) => {
                    if p == curr {
                        break ;
                    }
                    curr = p;
                },
                None => {
                    break ;
                },
            }
        }
        let mut curr = v;
        loop
            invariant
                parent == idom@,
                forest::chains_end(parent, root),
                curr < parent.len(),
                chain_u == forest::chain(parent, root, u),
                forall|z: usize| #[trigger] chain_u.contains(z) <==> path_u@.contains(z),
                forest::first_common(chain_u, forest::chain(parent, root, v), root)
                    == forest::first_common(chain_u, forest::chain(parent, root, curr), root),
            ensures
                forest::first_common(chain_u, forest::chain(parent, root, v), root) == root,
            decreases forest::chain(parent, root, curr).len(),
        {
            let ghost rest = forest::chain(parent, root, curr);
            proof {
                forest::lemma_chain(parent, root, curr);
                assert(rest[0] == curr);
                match forest::up(parent, root, curr) {
                    Some(p) => {
                        assert(rest.drop_first() =~= forest::chain(parent, root, p));
                    },
                    None => {
                        assert(rest.drop_first().len() == 0);
                        assert(forest::first_common(chain_u, rest.drop_first(), root) == root);
                    },
                }
            }
            if path_u.contains(&curr) {
                assert(chain_u.contains(curr));
                return curr;
            }
            assert(!chain_u.contains(curr));
            if curr == root {
                break ;
            }
            match idom[curr] {
                Some(p) => {
                    if p == curr {
                        break ;
                    }
                    curr = p;
                },
                None => {
                    break ;
                },
            }
        }
        root
    }

    /// The lists of `rev_adj` hold the nodes from which an edge of `g` leads to each node.
    spec fn lists_predecessors(rev_adj: Seq<Vec<usize>>, g: RootedGraph<usize>) -> bool {
        &&& g.root < rev_adj.len()
        &&& search::lists_in_range(rev_adj)
        &&& forall|p: usize, u: usize| #[trigger]
            g.edges.contains((p, u)) <==> u < rev_adj.len() && rev_adj[u as int]@.contains(p)
    }

    /// The immediate dominator of every node that `root` reaches, by passes over the nodes in
    /// `order` until one of them changes nothing, and the number of these passes.
    fn immediate_dominators(
        rev_adj: &Vec<Vec<usize>>,
        order: &Vec<usize>,
        root: usize,
        Ghost(g): Ghost<RootedGraph<usize>>,
    ) -> (result: (Vec<Option<usize>>, Ghost<int>))
        requires
            g.root == root,
            Self::lists_predecessors(rev_adj@, g),
            iteration::is_flow_order(g, order@),
            forall|i: int| 0 <= i < order@.len() ==> (#[trigger] order@[i]) < rev_adj@.len(),
        ensures
            result.0@.len() == rev_adj@.len(),
            (Forest { order: order@, parent: result.0@ }).wf(root),
            forall|z: usize, x: usize| #[trigger]
                (Forest { order: order@, parent: result.0@ }).above(root, z, x) <==> g.dominates(
                    z,
                    x,
                ),
            0 < result.1@ <= order@.len() + 2,
            iteration::leads_forward(g, order@) ==> result.1@ <= 2,
    {
        let mut idom: Vec<Option<usize>> = vec![None; rev_adj.len()];
        idom.set(root, Some(root));
        let ghost mut done: int = 0;
        proof {
            iteration::lemma_first_pass(g, Forest { order: order@, parent: idom@ });
        }
        loop
            invariant
                g.root == root,
                Self::lists_predecessors(rev_adj@, g),
                idom@.len() == rev_adj@.len(),
                iteration::in_pass(g, Forest { order: order@, parent: idom@ }, 0, done),
                0 <= done <= order@.len() + 1,
                iteration::leads_forward(g, order@) ==> done <= 1,
            ensures
                (Forest { order: order@, parent: idom@ }).wf(root),
                forall|z: usize, x: usize| #[trigger]
                    (Forest { order: order@, parent: idom@ }).above(root, z, x)
                        <==> g.dominates(z, x),
            decreases order@.len() + 2 - done,
        {
            let changed = Self::pass(rev_adj, order, root, &mut idom, Ghost(g), Ghost(done));
            let ghost f = Forest { order: order@, parent: idom@ };
            if !changed {
                proof {
                    iteration::lemma_nothing_changed(g, f, done);
                }
                break ;
            }
            proof {
                iteration::lemma_next_pass(g, f, done);
                done = done + 1;
            }
        }
        (idom, Ghost(done + 1))
    }

    /// One pass over the nodes in `order`, which gives each of them but the root the meet of its
    /// predecessors as its parent. Returns whether that changed anything.
    fn pass(
        rev_adj: &Vec<Vec<usize>>,
        order: &Vec<usize>,
        root: usize,
        idom: &mut Vec<Option<usize>>,
        Ghost(g): Ghost<RootedGraph<usize>>,
        Ghost(done): Ghost<int>,
    ) -> (changed: bool)
        requires
            g.root == root,
            Self::lists_predecessors(rev_adj@, g),
            old(idom)@.len() == rev_adj@.len(),
            iteration::in_pass(g, Forest { order: order@, parent: old(idom)@ }, 0, done),
        ensures
            final(idom)@.len() == old(idom)@.len(),
            iteration::in_pass(
                g,
                Forest { order: order@, parent: final(idom)@ },
                order@.len() as int,
                done,
            ),
            iteration::enough_passes(g, order@, done) ==> !changed,
            !changed ==> final(idom)@ == old(idom)@ && iteration::settled(
                g,
                Forest { order: order@, parent: final(idom)@ },
                order@.len() as int,
            ),
    {
        let mut changed = false;
        let mut i: usize = 0;
        while i < order.len()
            invariant
                g.root == root,
                Self::lists_predecessors(rev_adj@, g),
                idom@.len() == rev_adj@.len(),
                old(idom)@.len() == rev_adj@.len(),
                iteration::in_pass(g, Forest { order: order@, parent: idom@ }, i as int, done),
                0 <= i <= order@.len(),
                iteration::enough_passes(g, order@, done) ==> !changed,
                !changed ==> idom@ == old(idom)@ && iteration::settled(
                    g,
                    Forest { order: order@, parent: idom@ },
                    i as int,
                ),
            decreases order@.len() - i,
        {
            if order[i] == root {
                proof {
                    let f = Forest { order: order@, parent: idom@ };
                    iteration::lemma_skip_root(g, f, i as int, done);
                }
            } else if Self::give_parent(rev_adj, order, i, idom, Ghost(g), Ghost(done)) {
                changed = true;
            }
            i += 1;
        }
        changed
    }

    /// Gives the `i`-th node of `order`, which is not the root, the meet of its predecessors as
    /// its parent. Returns whether it had another one, or none.
    fn give_parent(
        rev_adj: &Vec<Vec<usize>>,
        order: &Vec<usize>,
        i: usize,
        idom: &mut Vec<Option<usize>>,
        Ghost(g): Ghost<RootedGraph<usize>>,
        Ghost(done): Ghost<int>,
    ) -> (changed: bool)
        requires
            Self::lists_predecessors(rev_adj@, g),
            old(idom)@.len() == rev_adj@.len(),
            i < order@.len(),
            order@[i as int] != g.root,
            iteration::in_pass(g, Forest { order: order@, parent: old(idom)@ }, i as int, done),
        ensures
            final(idom)@[order@[i as int] as int] is Some,
            final(idom)@ == old(idom)@.update(
                order@[i as int] as int,
                final(idom)@[order@[i as int] as int],
            ),
            iteration::is_meet(
                g,
                Forest { order: order@, parent: old(idom)@ },
                order@[i as int],
                final(idom)@[order@[i as int] as int]->0,
            ),
            changed <==> final(idom)@ != old(idom)@,
            iteration::in_pass(g, Forest { order: order@, parent: final(idom)@ }, i + 1, done),
            iteration::enough_passes(g, order@, done) ==> !changed,
    {
        let u = order[i];
        let ghost before = idom@;
        let ghost f = Forest { order: order@, parent: before };
        let candidate = Self::meet_of_predecessors(
            &rev_adj[u],
            idom,
            order,
            Ghost(g),
            Ghost(u),
            Ghost(i as int),
            Ghost(done),
        );
        proof {
            let f2 = iteration::lemma_set_parent(g, f, i as int, done, u, candidate);
            if iteration::enough_passes(g, order@, done) {
                iteration::lemma_settled(g, f, i as int, done, u, candidate);
            }
        }
        if idom[u] != Some(candidate) {
            idom.set(u, Some(candidate));
            assert(idom@ != before) by {
                assert(idom@[u as int] != before[u as int]);
            }
            true
        } else {
            assert(before.update(u as int, Some(candidate)) =~= before);
            false
        }
    }

    /// The lowest common ancestor of those predecessors of `u` whose parent is known.
    fn meet_of_predecessors(
        preds: &Vec<usize>,
        idom: &Vec<Option<usize>>,
        order: &Vec<usize>,
        Ghost(g): Ghost<RootedGraph<usize>>,
        Ghost(u): Ghost<usize>,
        Ghost(i): Ghost<int>,
        Ghost(done): Ghost<int>,
    ) -> (meet: usize)
        requires
            iteration::in_pass(g, Forest { order: order@, parent: idom@ }, i, done),
            i < order@.len(),
            u == order@[i],
            u != g.root,
            forall|p: usize| #[trigger] g.edges.contains((p, u)) <==> preds@.contains(p),
            forall|j: int| 0 <= j < preds@.len() ==> (#[trigger] preds@[j]) < idom@.len(),
        ensures
            iteration::is_meet(g, Forest { order: order@, parent: idom@ }, u, meet),
    {
        let ghost f = Forest { order: order@, parent: idom@ };
        let mut first: usize = 0;
        proof {
            f.lemma_pos_of(i);
            assert(iteration::follows_predecessor(g, order@, u));
            let p = choose|p: usize| #[trigger]
                f.order.contains(p) && g.edges.contains((p, u)) && f.order.index_of(p)
                    < f.order.index_of(u);
            f.lemma_pos(p);
            assert(f.known(f.order[f.pos(p)]));
            let j = preds@.index_of(p);
            assert(f.known(preds@[j]));
        }
        while idom[preds[first]].is_none()
            invariant
                f == (Forest { order: order@, parent: idom@ }),
                first < preds@.len(),
                forall|j: int| 0 <= j < preds@.len() ==> (#[trigger] preds@[j]) < idom@.len(),
                exists|j: int| first <= j < preds@.len() && f.known(#[trigger] preds@[j]),
            decreases preds@.len() - first,
        {
            proof {
                let j = choose|j: int| first <= j < preds@.len() && f.known(#[trigger] preds@[j]);
                assert(first < j < preds.len());
            }
            first += 1;
        }
        let start = preds[first];
        let mut candidate = start;
        let mut j: usize = 0;
        while j < preds.len()
            invariant
                f == (Forest { order: order@, parent: idom@ }),
                f.wf(g.root),
                f.known(start),
                f.known(candidate),
                0 <= j <= preds@.len(),
                forall|k: int| 0 <= k < preds@.len() ==> (#[trigger] preds@[k]) < idom@.len(),
                f.ancestor(candidate, start),
                forall|k: int|
                    0 <= k < j && f.known(#[trigger] preds@[k]) ==> f.ancestor(
                        candidate,
                        preds@[k],
                    ),
                forall|z: usize|
                    f.ancestor(z, start) && (forall|k: int|
                        0 <= k < j && f.known(#[trigger] preds@[k]) ==> f.ancestor(z, preds@[k]))
                        ==> #[trigger] f.ancestor(z, candidate),
            decreases preds@.len() - j,
        {
            let p = preds[j];
            if idom[p].is_some() {
                let ghost before = candidate;
                candidate = Self::intersect(candidate, p, idom, order, Ghost(g.root));
                proof {
                    f.lemma_ancestor_transitive(g.root, candidate, before, start);
                    assert forall|k: int| 0 <= k < j + 1 && f.known(#[trigger] preds@[k]) implies
                        f.ancestor(candidate, preds@[k]) by {
                        if k < j {
                            f.lemma_ancestor_transitive(g.root, candidate, before, preds@[k]);
                        }
                    }
                    assert forall|z: usize|
                        f.ancestor(z, start) && (forall|k: int|
                            0 <= k < j + 1 && f.known(#[trigger] preds@[k]) ==> f.ancestor(
                                z,
                                preds@[k],
                            )) implies #[trigger] f.ancestor(z, candidate) by {
                        assert(f.ancestor(z, before));
                        assert(f.ancestor(z, preds@[j as int]));
                    }
                }
            }
            j += 1;
        }
        proof {
            assert forall|p: usize| #[trigger]
                g.edges.contains((p, u)) && f.known(p) implies f.ancestor(candidate, p) by {
                let k = preds@.index_of(p);
                assert(f.known(preds@[k]));
            }
            assert forall|z: usize|
                (forall|p: usize| #[trigger]
                    g.edges.contains((p, u)) && f.known(p) ==> f.ancestor(
                        z,
                        p,
                    )) implies #[trigger] f.ancestor(z, candidate) by {
                assert(preds@.contains(start));
                assert(g.edges.contains((start, u)));
                assert forall|k: int| 0 <= k < preds@.len() && f.known(#[trigger] preds@[k]) implies
                    f.ancestor(z, preds@[k]) by {
                    assert(preds@.contains(preds@[k]));
                    assert(g.edges.contains((preds@[k], u)));
                }
            }
        }
        candidate
    }
}

impl<T> DominatorFinder<T> {
    /// The name of a numbered node in the augmented graph: the node, or `None` for the virtual
    /// entry.
    spec fn label(names: Seq<T>, id: usize) -> Option<T> {
        if id < names.len() {
            Some(names[id as int])
        } else {
            None
        }
    }

    /// The augmented graph of the numbered nodes.
    spec fn id_graph(&self) -> RootedGraph<usize> {
        search::list_graph(self.adj@, self.id_to_node@.len() as usize)
    }

    /// The numbers of the nodes, the virtual entry among them.
    spec fn ids(&self) -> Set<usize> {
        Set::new(|i: usize| i <= self.id_to_node@.len())
    }

    /// `n` is one of the nodes of the graph.
    pub closed spec fn has_node(&self, n: T) -> bool {
        self.id_to_node@.contains(n)
    }

    /// The augmented graph.
    pub closed spec fn graph(&self) -> RootedGraph<Option<T>> {
        RootedGraph {
            root: None,
            edges: Set::new(
                |e: (Option<T>, Option<T>)|
                    exists|u: usize, v: usize|
                        self.id_graph().edges.contains((u, v)) && #[trigger] Self::label(
                            self.id_to_node@,
                            u,
                        ) == e.0 && #[trigger] Self::label(self.id_to_node@, v) == e.1,
            ),
        }
    }

    /// The numbered nodes, and the lists of the edges between them.
    pub closed spec fn numbering(&self) -> Numbering<T> {
        Numbering {
            names: self.id_to_node@,
            ids: self.node_to_id@,
            successors: self.adj@.map_values(|list: Vec<usize>| list@),
            predecessors: self.rev_adj@.map_values(|list: Vec<usize>| list@),
        }
    }

    /// Numbers and nodes correspond.
    spec fn numbered(ids: Map<T, usize>, names: Seq<T>) -> bool {
        &&& forall|t: T| #[trigger]
            ids.contains_key(t) ==> ids[t] < names.len() && names[ids[t] as int] == t
        &&& forall|i: int|
            0 <= i < names.len() ==> ids.contains_key(#[trigger] names[i]) && ids[names[i]] == i
    }

    /// The successor and predecessor lists describe the same edges, between the first `n`
    /// nodes or from the `n`-th node to one of them, each of them once.
    spec fn mirrored(adj: Seq<Vec<usize>>, rev_adj: Seq<Vec<usize>>, n: nat) -> bool {
        &&& adj.len() == n + 1
        &&& rev_adj.len() == n + 1
        &&& forall|u: int| 0 <= u <= n ==> (#[trigger] adj[u])@.no_duplicates()
        &&& forall|v: int| 0 <= v <= n ==> (#[trigger] rev_adj[v])@.no_duplicates()
        &&& forall|u: int, v: usize| #![trigger adj[u]@.contains(v)]
            0 <= u <= n && adj[u]@.contains(v) ==> v < n
        &&& forall|v: int, u: usize| #![trigger rev_adj[v]@.contains(u)]
            0 <= v <= n && rev_adj[v]@.contains(u) ==> u <= n
        &&& forall|u: usize, v: usize|
            #![trigger adj[u as int]@.contains(v)]
            #![trigger rev_adj[v as int]@.contains(u)]
            u <= n && v <= n ==> (adj[u as int]@.contains(v) <==> rev_adj[v as int]@.contains(u))
    }

    /// The fields fit together.
    pub closed spec fn wf(&self) -> bool {
        &&& Self::numbered(self.node_to_id@, self.id_to_node@)
        &&& Self::mirrored(self.adj@, self.rev_adj@, self.id_to_node@.len())
    }
}

impl<T: Hash + Eq + Clone> DominatorFinder<T> {
    /// Constructs a new finder from a list of nodes and edges; `(u, v)` is the edge from `u`
    /// to `v`.
    ///
    /// Returns an error if an edge contains an unknown node, or if the graph does not have any
    /// entry nodes, that is, if an edge from another node leads to every node.
    pub fn new(nodes: Vec<T>, edges: Vec<(T, T)>) -> (result: Result<Self, DominatorFinderError>)
        requires
            keys::key_model::<T>(),
        ensures
            result is Ok <==> augmented::knows_edges(nodes@, edges@) && augmented::has_entry(
                nodes@,
                edges@,
            ),
            match result {
                Ok(finder) => {
                    &&& finder.wf()
                    &&& finder.numbering().is_of(nodes@, edges@)
                    &&& finder.graph() == augmented::augmented(nodes@, edges@)
                    &&& forall|n: T| #[trigger] finder.has_node(n) <==> nodes@.contains(n)
                },
                Err(DominatorFinderError::EdgeContainsUnknownNode) => {
                    !augmented::knows_edges(nodes@, edges@)
                },
                Err(DominatorFinderError::GraphHasNoEntryNode) => {
                    augmented::knows_edges(nodes@, edges@) && !augmented::has_entry(
                        nodes@,
                        edges@,
                    )
                },
                Err(DominatorFinderError::TargetSetContainsUnknownNode) => false,
            },
    {
        broadcast use vstd::std_specs::hash::group_hash_axioms;

        let mut node_to_id: HashMap<T, usize> = HashMap::new();
        let mut id_to_node: Vec<T> = Vec::new();
        let mut adj: Vec<Vec<usize>> = Vec::new();
        let mut rev_adj: Vec<Vec<usize>> = Vec::new();
        let mut seen_edges: Vec<HashSet<usize>> = Vec::new();

        // Number the nodes.
        let mut i: usize = 0;
        while i < nodes.len()
            invariant
                keys::key_model::<T>(),
                0 <= i <= nodes@.len(),
                Self::numbered(node_to_id@, id_to_node@),
                id_to_node@ == sequences::distinct(nodes@.take(i as int)),
                adj@.len() == id_to_node@.len(),
                rev_adj@.len() == id_to_node@.len(),
                seen_edges@.len() == id_to_node@.len(),
                forall|k: int| 0 <= k < adj@.len() ==> (#[trigger] adj@[k])@.len() == 0,
                forall|k: int| 0 <= k < rev_adj@.len() ==> (#[trigger] rev_adj@[k])@.len() == 0,
                forall|k: int|
                    0 <= k < seen_edges@.len() ==> (#[trigger] seen_edges@[k])@ == Set::<usize>::empty(),
            decreases nodes@.len() - i,
        {
            let ghost before = id_to_node@;
            let ghost ids = node_to_id@;
            if !node_to_id.contains_key(&nodes[i]) {
                node_to_id.insert(keys::copy_key(&nodes[i]), id_to_node.len());
                id_to_node.push(keys::copy_key(&nodes[i]));
                adj.push(Vec::new());
                rev_adj.push(Vec::new());
                seen_edges.push(HashSet::new());
                proof {
                    assert(id_to_node.len() == before.len() + 1);
                    Self::lemma_number_next(ids, before, nodes@[i as int]);
                }
            }
            proof {
                assert(nodes@.take(i + 1) =~= nodes@.take(i as int).push(nodes@[i as int]));
                sequences::lemma_distinct_push(nodes@.take(i as int), nodes@[i as int]);
                sequences::lemma_distinct_contains(nodes@.take(i as int), nodes@[i as int]);
                if ids.contains_key(nodes@[i as int]) {
                    assert(before[ids[nodes@[i as int]] as int] == nodes@[i as int]);
                } else if before.contains(nodes@[i as int]) {
                    assert(ids.contains_key(before[before.index_of(nodes@[i as int])]));
                }
            }
            i += 1;
        }
        proof {
            assert(nodes@.take(nodes@.len() as int) =~= nodes@);
            assert forall|t: T| #[trigger] id_to_node@.contains(t) <==> nodes@.contains(t) by {
                sequences::lemma_distinct_contains(nodes@, t);
            }
        }
        let n = id_to_node.len();
        adj.push(Vec::new());
        rev_adj.push(Vec::new());
        proof {
            assert(adj.len() == n + 1);
        }

        // Link the nodes.
        let mut i: usize = 0;
        while i < edges.len()
            invariant
                keys::key_model::<T>(),
                0 <= i <= edges@.len(),
                n == id_to_node@.len(),
                id_to_node@ == sequences::distinct(nodes@),
                Self::numbered(node_to_id@, id_to_node@),
                forall|t: T| #[trigger] id_to_node@.contains(t) <==> nodes@.contains(t),
                augmented::knows_edges(nodes@, edges@.take(i as int)),
                Self::mirrored(adj@, rev_adj@, n as nat),
                seen_edges@.len() == n,
                forall|u: int, v: usize| #![trigger adj@[u]@.contains(v)]
                    0 <= u < n ==> (adj@[u]@.contains(v) <==> seen_edges@[u]@.contains(v)),
                forall|u: usize, v: usize| #![trigger adj@[u as int]@.contains(v)]
                    u < n && v < n ==> (adj@[u as int]@.contains(v) <==> u != v && edges@.take(
                        i as int,
                    ).contains((id_to_node@[u as int], id_to_node@[v as int]))),
                adj@[n as int]@.len() == 0,
            decreases edges@.len() - i,
        {
            let ghost e = edges@[i as int];
            proof {
                assert(edges@.take(i + 1) =~= edges@.take(i as int).push(e));
            }
            let found = (node_to_id.get(&edges[i].0), node_to_id.get(&edges[i].1));
            match found {
                (Some(u), Some(v)) => {
                    let u = *u;
                    let v = *v;
                    let ghost adj0 = adj@;
                    let ghost rev0 = rev_adj@;
                    let ghost seen0 = seen_edges@;
                    proof {
                        assert(id_to_node@.contains(id_to_node@[u as int]));
                        assert(id_to_node@.contains(id_to_node@[v as int]));
                    }
                    if u != v {
                        if seen_edges[u].insert(v) {
                            adj[u].push(v);
                            rev_adj[v].push(u);
                            proof {
                                Self::lemma_link(adj0, rev0, adj@, rev_adj@, n as nat, u, v);
                            }
                        } else {
                            assert(seen_edges@[u as int]@ =~= seen0[u as int]@);
                        }
                    }
                    proof {
                        assert forall|a: usize, b: usize| #![trigger adj@[a as int]@.contains(b)]
                            a < n && b < n implies (adj@[a as int]@.contains(b) <==> a != b
                            && edges@.take(i + 1).contains(
                            (id_to_node@[a as int], id_to_node@[b as int]),
                        )) by {
                            let pair = (id_to_node@[a as int], id_to_node@[b as int]);
                            sequences::lemma_contains_push(edges@.take(i as int), e, pair);
                            assert(adj0[a as int]@.contains(b) <==> a != b && edges@.take(
                                i as int,
                            ).contains(pair));
                            assert(pair == e ==> a == u && b == v);
                        }
                    }
                    i += 1;
                },
                _ => {
                    proof {
                        assert(!id_to_node@.contains(e.0) || !id_to_node@.contains(e.1)) by {
                            if id_to_node@.contains(e.0) && id_to_node@.contains(e.1) {
                                assert(node_to_id@.contains_key(
                                    id_to_node@[id_to_node@.index_of(e.0)],
                                ));
                                assert(node_to_id@.contains_key(
                                    id_to_node@[id_to_node@.index_of(e.1)],
                                ));
                            }
                        }
                        assert(nodes@.contains(edges@[i as int].0) ==> !nodes@.contains(
                            edges@[i as int].1,
                        ));
                    }
                    return Err(DominatorFinderError::EdgeContainsUnknownNode);
                },
            }
        }
        assert(edges@.take(edges@.len() as int) =~= edges@);

        // Lead from the virtual entry to every entry node.
        let mut has_entry_node = false;
        let mut i: usize = 0;
        while i < n
            invariant
                0 <= i <= n,
                n == id_to_node@.len(),
                id_to_node@ == sequences::distinct(nodes@),
                Self::numbered(node_to_id@, id_to_node@),
                forall|t: T| #[trigger] id_to_node@.contains(t) <==> nodes@.contains(t),
                augmented::knows_edges(nodes@, edges@),
                Self::mirrored(adj@, rev_adj@, n as nat),
                Self::linked(adj@, id_to_node@, edges@),
                forall|v: usize| #![trigger adj@[n as int]@.contains(v)]
                    adj@[n as int]@.contains(v) <==> v < i && augmented::is_entry(
                        nodes@,
                        edges@,
                        id_to_node@[v as int],
                    ),
                has_entry_node <==> exists|v: int|
                    0 <= v < i && augmented::is_entry(nodes@, edges@, #[trigger] id_to_node@[v]),
            decreases n - i,
        {
            let ghost adj0 = adj@;
            let ghost rev0 = rev_adj@;
            proof {
                assert(adj.len() == n + 1);
                Self::lemma_no_predecessor(adj@, rev_adj@, id_to_node@, nodes@, edges@, i);
            }
            if rev_adj[i].len() == 0 {
                rev_adj[i].push(n);
                adj[n].push(i);
                has_entry_node = true;
                proof {
                    Self::lemma_link(adj0, rev0, adj@, rev_adj@, n as nat, n, i);
                    assert(augmented::is_entry(nodes@, edges@, id_to_node@[i as int]));
                }
            }
            i += 1;
        }
        proof {
            assert(has_entry_node <==> augmented::has_entry(nodes@, edges@)) by {
                if augmented::has_entry(nodes@, edges@) {
                    let e = choose|e: T| augmented::is_entry(nodes@, edges@, e);
                    assert(id_to_node@.contains(e));
                    assert(augmented::is_entry(
                        nodes@,
                        edges@,
                        id_to_node@[id_to_node@.index_of(e)],
                    ));
                }
            }
        }
        if !has_entry_node {
            return Err(DominatorFinderError::GraphHasNoEntryNode);
        }
        let finder = DominatorFinder { node_to_id, id_to_node, adj, rev_adj };
        proof {
            finder.lemma_graph(nodes@, edges@);
            finder.lemma_numbering(nodes@, edges@);
        }
        Ok(finder)
    }

    /// Finds the closest common dominator of the given nodes in the augmented graph: `None` is
    /// the virtual entry. No nodes at all have none either.
    ///
    /// Returns an error if a node is unknown.
    pub fn closest_common_dominator(&self, target_set: Vec<T>) -> (result: Result<
        Option<T>,
        DominatorFinderError,
    >)
        requires
            keys::key_model::<T>(),
            self.wf(),
        ensures
            match result {
                Ok(dominator) => {
                    &&& forall|i: int|
                        0 <= i < target_set@.len() ==> self.has_node(#[trigger] target_set@[i])
                    &&& target_set@.len() == 0 ==> dominator is None
                    &&& target_set@.len() > 0 ==> self.graph().is_closest_common_dominator(
                        augmented::targets_of(target_set@),
                        dominator,
                    )
                },
                Err(error) => {
                    &&& error == DominatorFinderError::TargetSetContainsUnknownNode
                    &&& exists|i: int|
                        0 <= i < target_set@.len() && !self.has_node(#[trigger] target_set@[i])
                },
            },
    {
        broadcast use vstd::std_specs::hash::group_hash_axioms;

        let mut targets: Vec<usize> = Vec::new();
        let mut i: usize = 0;
        while i < target_set.len()
            invariant
                keys::key_model::<T>(),
                self.wf(),
                0 <= i <= target_set@.len(),
                targets@.len() == i,
                forall|k: int|
                    0 <= k < i ==> (#[trigger] targets@[k]) < self.id_to_node@.len()
                        && self.id_to_node@[targets@[k] as int] == target_set@[k],
            decreases target_set@.len() - i,
        {
            match self.node_to_id.get(&target_set[i]) {
                Some(id) => {
                    targets.push(*id);
                },
                None => {
                    proof {
                        let t = target_set@[i as int];
                        if self.id_to_node@.contains(t) {
                            assert(self.node_to_id@.contains_key(
                                self.id_to_node@[self.id_to_node@.index_of(t)],
                            ));
                        }
                        assert(!self.has_node(target_set@[i as int]));
                    }
                    return Err(DominatorFinderError::TargetSetContainsUnknownNode);
                },
            }
            i += 1;
        }
        proof {
            assert forall|i: int| 0 <= i < target_set@.len() implies self.has_node(
                #[trigger] target_set@[i],
            ) by {
                assert(self.id_to_node@[targets@[i] as int] == target_set@[i]);
            }
        }
        if targets.len() == 0 {
            return Ok(None);
        }
        let virtual_entry = self.adj.len() - 1;
        let ghost g = self.id_graph();
        let (idom, Ghost(order), _) = self.dominator_tree();
        let ghost f = Forest { order, parent: idom@ };

        let mut lca = targets[0];
        let mut i: usize = 1;
        proof {
            g.law_dominates_reflexive(lca);
            assert forall|z: usize|
                (forall|k: int| 0 <= k < i ==> g.dominates(z, #[trigger] targets@[k]))
                    implies #[trigger] g.dominates(z, lca) by {
                assert(g.dominates(z, targets@[0]));
            }
        }
        while i < targets.len()
            invariant
                1 <= i <= targets@.len(),
                idom@.len() == self.id_to_node@.len() + 1,
                virtual_entry == self.id_to_node@.len(),
                f == (Forest { order, parent: idom@ }),
                f.wf(virtual_entry),
                lca < idom@.len(),
                forall|k: int| 0 <= k < targets@.len() ==> (#[trigger] targets@[k]) < idom@.len(),
                forall|z: usize, x: usize| #[trigger]
                    f.above(virtual_entry, z, x) <==> g.dominates(z, x),
                forall|k: int| 0 <= k < i ==> g.dominates(lca, #[trigger] targets@[k]),
                forall|z: usize|
                    (forall|k: int| 0 <= k < i ==> g.dominates(z, #[trigger] targets@[k]))
                        ==> #[trigger] g.dominates(z, lca),
            decreases targets@.len() - i,
        {
            let ghost before = lca;
            proof {
                f.lemma_chains_end(virtual_entry);
            }
            lca = Self::find_lca(lca, targets[i], &idom, virtual_entry);
            proof {
                f.lemma_lowest_above(virtual_entry, before, targets@[i as int], lca);
                assert(f.above(virtual_entry, lca, before));
                assert(f.above(virtual_entry, lca, targets@[i as int]));
                assert forall|k: int| 0 <= k < i + 1 implies g.dominates(
                    lca,
                    #[trigger] targets@[k],
                ) by {
                    if k < i {
                        g.law_dominates_transitive(lca, before, targets@[k]);
                    }
                }
                assert forall|z: usize|
                    (forall|k: int| 0 <= k < i + 1 ==> g.dominates(z, #[trigger] targets@[k]))
                        implies #[trigger] g.dominates(z, lca) by {
                    assert(g.dominates(z, before));
                    assert(g.dominates(z, targets@[i as int]));
                    assert(f.above(virtual_entry, z, before));
                    assert(f.above(virtual_entry, z, targets@[i as int]));
                    assert(f.above(virtual_entry, z, lca));
                }
            }
            i += 1;
        }
        proof {
            self.lemma_closest(target_set@, targets@, lca);
        }
        if lca == virtual_entry {
            return Ok(None);
        }
        Ok(Some(keys::copy_key(&self.id_to_node[lca])))
    }

    /// The dominator tree of the numbered nodes, as the parent of each node, together with the
    /// order in which the passes go over the nodes and the number of passes. In an acyclic graph
    /// the first pass finds the tree, and the second changes nothing.
    fn dominator_tree(&self) -> (result: (Vec<Option<usize>>, Ghost<Seq<usize>>, Ghost<int>))
        requires
            self.wf(),
        ensures
            result.0@.len() == self.id_to_node@.len() + 1,
            (Forest { order: result.1@, parent: result.0@ }).wf(self.id_to_node@.len() as usize),
            forall|z: usize, x: usize| #[trigger]
                (Forest { order: result.1@, parent: result.0@ }).above(
                    self.id_to_node@.len() as usize,
                    z,
                    x,
                ) <==> self.id_graph().dominates(z, x),
            0 < result.2@ <= result.1@.len() + 2,
            self.graph().is_acyclic() ==> result.2@ <= 2,
    {
        let virtual_entry = self.adj.len() - 1;
        let ghost g = self.id_graph();
        proof {
            self.lemma_lists_in_range();
            if self.graph().is_acyclic() {
                self.lemma_numbered_acyclic();
            }
        }
        let order = Self::get_reverse_post_order(&self.adj, virtual_entry);
        let (idom, passes) = Self::immediate_dominators(
            &self.rev_adj,
            &order,
            virtual_entry,
            Ghost(g),
        );
        (idom, Ghost(order@), passes)
    }

    /// If there are no cycles, there are none among the numbered nodes.
    proof fn lemma_numbered_acyclic(&self)
        requires
            self.wf(),
            self.graph().is_acyclic(),
        ensures
            self.id_graph().is_acyclic(),
    {
        let names = self.id_to_node@;
        let g = self.id_graph();
        let h = self.graph();
        assert forall|u: usize, v: usize| #[trigger] g.edges.contains((u, v)) implies
            !g.rooted_at(v).reachable(u) by {
            let a = Self::label(names, u);
            let b = Self::label(names, v);
            assert(h.edges.contains((a, b)));
            if g.rooted_at(v).reachable(u) {
                let p = choose|p: Seq<usize>| g.rooted_at(v).walk_to(p, u);
                let q = p.map_values(|id: usize| Self::label(names, id));
                assert forall|i: int| 0 <= i < q.len() - 1 implies #[trigger] h.rooted_at(b).step(
                    q,
                    i,
                ) by {
                    assert(g.rooted_at(v).step(p, i));
                    assert(Self::label(names, p[i]) == q[i]);
                    assert(Self::label(names, p[i + 1]) == q[i + 1]);
                }
                assert(h.rooted_at(b).walk_to(q, a));
            }
        }
    }

    /// The lists of a finder are lists of its numbered nodes.
    proof fn lemma_lists_in_range(&self)
        requires
            self.wf(),
        ensures
            self.adj@.len() == self.id_to_node@.len() + 1,
            self.id_to_node@.len() < usize::MAX,
            search::lists_in_range(self.adj@),
            search::lists_in_range(self.rev_adj@),
            forall|p: usize, u: usize| #[trigger]
                self.id_graph().edges.contains((p, u)) <==> u < self.rev_adj@.len()
                    && self.rev_adj@[u as int]@.contains(p),
    {
        assert(self.adj.len() == self.id_to_node@.len() + 1);
        assert forall|u: int, j: int|
            0 <= u < self.adj@.len() && 0 <= j < self.adj@[u]@.len() implies (
        #[trigger] self.adj@[u]@[j]) < self.adj@.len() by {
            assert(self.adj@[u]@.contains(self.adj@[u]@[j]));
        }
        assert forall|u: int, j: int|
            0 <= u < self.rev_adj@.len() && 0 <= j < self.rev_adj@[u]@.len() implies (
        #[trigger] self.rev_adj@[u]@[j]) < self.rev_adj@.len() by {
            assert(self.rev_adj@[u]@.contains(self.rev_adj@[u]@[j]));
        }
    }

    /// A common dominator of the numbered targets that every common dominator dominates is
    /// the number of the closest common dominator.
    proof fn lemma_closest(&self, target_set: Seq<T>, targets: Seq<usize>, lca: usize)
        requires
            self.wf(),
            targets.len() == target_set.len(),
            targets.len() > 0,
            lca <= self.id_to_node@.len(),
            forall|k: int|
                0 <= k < targets.len() ==> (#[trigger] targets[k]) < self.id_to_node@.len()
                    && self.id_to_node@[targets[k] as int] == target_set[k],
            forall|k: int|
                0 <= k < targets.len() ==> self.id_graph().dominates(lca, #[trigger] targets[k]),
            forall|z: usize|
                (forall|k: int|
                    0 <= k < targets.len() ==> self.id_graph().dominates(z, #[trigger] targets[k]))
                    ==> #[trigger] self.id_graph().dominates(z, lca),
        ensures
            self.graph().is_closest_common_dominator(
                augmented::targets_of(target_set),
                Self::label(self.id_to_node@, lca),
            ),
    {
        self.lemma_lists_in_range();
        let names = self.id_to_node@;
        let g = self.id_graph();
        let h = self.graph();
        let f = |id: usize| Self::label(names, id);
        let nodes = self.ids();
        let ids = targets.to_set();
        assert(relabel::relabels(g, h, f, nodes)) by {
            assert forall|a: usize, b: usize| #[trigger] g.edges.contains((a, b)) implies
                nodes.contains(a) && nodes.contains(b) && h.edges.contains((f(a), f(b))) by {
                assert(self.adj@[a as int]@.contains(b));
                assert(Self::label(names, a) == f(a) && Self::label(names, b) == f(b));
            }
            assert forall|c: Option<T>, d: Option<T>| #[trigger]
                h.edges.contains((c, d)) implies exists|a: usize, b: usize|
                g.edges.contains((a, b)) && #[trigger] f(a) == c && #[trigger] f(b) == d by {
                let (a, b) = choose|u: usize, v: usize|
                    g.edges.contains((u, v)) && #[trigger] Self::label(names, u) == c
                        && #[trigger] Self::label(names, v) == d;
                assert(f(a) == c && f(b) == d);
            }
        }
        assert forall|t: usize| #[trigger] ids.contains(t) implies augmented::targets_of(
            target_set,
        ).contains(f(t)) by {
            let k = targets.index_of(t);
            assert(target_set[k] == names[t as int]);
        }
        assert forall|y: Option<T>| #[trigger]
            augmented::targets_of(target_set).contains(y) implies exists|t: usize| #[trigger]
            ids.contains(t) && f(t) == y by {
            let k = target_set.index_of(y->0);
            assert(ids.contains(targets[k]));
        }
        assert(ids.contains(targets[0]));
        assert forall|z: usize| g.is_common_dominator(ids, z) implies #[trigger] g.dominates(
            z,
            lca,
        ) by {
            assert forall|k: int| 0 <= k < targets.len() implies g.dominates(
                z,
                #[trigger] targets[k],
            ) by {
                assert(ids.contains(targets[k]));
            }
        }
        relabel::lemma_relabel_closest(
            g,
            h,
            f,
            nodes,
            ids,
            augmented::targets_of(target_set),
            targets[0],
            lca,
        );
    }

    /// Between nodes, the lists hold the given edges without those from a node to itself.
    spec fn linked(adj: Seq<Vec<usize>>, names: Seq<T>, edges: Seq<(T, T)>) -> bool {
        forall|u: usize, v: usize| #![trigger adj[u as int]@.contains(v)]
            u < names.len() && v < names.len() ==> (adj[u as int]@.contains(v) <==> u != v
                && edges.contains((names[u as int], names[v as int])))
    }

    /// A node has no predecessor just if it is an entry node.
    proof fn lemma_no_predecessor(
        adj: Seq<Vec<usize>>,
        rev_adj: Seq<Vec<usize>>,
        names: Seq<T>,
        nodes: Seq<T>,
        edges: Seq<(T, T)>,
        v: usize,
    )
        requires
            v < names.len(),
            names.no_duplicates(),
            names.len() < usize::MAX,
            forall|t: T| #[trigger] names.contains(t) <==> nodes.contains(t),
            augmented::knows_edges(nodes, edges),
            Self::mirrored(adj, rev_adj, names.len()),
            Self::linked(adj, names, edges),
            !adj[names.len() as int]@.contains(v),
        ensures
            rev_adj[v as int]@.len() == 0 <==> augmented::is_entry(
                nodes,
                edges,
                names[v as int],
            ),
    {
        assert(names.contains(names[v as int]));
        if rev_adj[v as int]@.len() == 0 {
            assert forall|m: T| #[trigger] edges.contains((m, names[v as int])) implies m
                == names[v as int] by {
                let i = edges.index_of((m, names[v as int]));
                assert(nodes.contains(edges[i].0));
                assert(names.contains(m));
                let u = names.index_of(m) as usize;
                assert(adj[u as int]@.contains(v) ==> rev_adj[v as int]@.contains(u));
            }
        } else {
            let u = rev_adj[v as int]@[0];
            assert(rev_adj[v as int]@.contains(u));
            assert(u <= names.len());
            assert(adj[u as int]@.contains(v));
            assert(u != names.len());
            assert(edges.contains((names[u as int], names[v as int])));
            assert(names[u as int] != names[v as int]);
        }
    }

    /// The finder describes the augmented graph.
    proof fn lemma_graph(&self, nodes: Seq<T>, edges: Seq<(T, T)>)
        requires
            self.wf(),
            self.id_to_node@.len() < usize::MAX,
            forall|t: T| #[trigger] self.id_to_node@.contains(t) <==> nodes.contains(t),
            augmented::knows_edges(nodes, edges),
            Self::linked(self.adj@, self.id_to_node@, edges),
            forall|v: usize| #![trigger self.adj@[self.id_to_node@.len() as int]@.contains(v)]
                self.adj@[self.id_to_node@.len() as int]@.contains(v) <==> v
                    < self.id_to_node@.len() && augmented::is_entry(
                    nodes,
                    edges,
                    self.id_to_node@[v as int],
                ),
        ensures
            self.graph() == augmented::augmented(nodes, edges),
    {
        let names = self.id_to_node@;
        let n = names.len() as usize;
        let g = self.graph();
        let h = augmented::augmented(nodes, edges);
        assert forall|e: (Option<T>, Option<T>)| g.edges.contains(e) <==> h.edges.contains(e) by {
            if g.edges.contains(e) {
                let (u, v) = choose|u: usize, v: usize|
                    self.id_graph().edges.contains((u, v)) && #[trigger] Self::label(names, u)
                        == e.0 && #[trigger] Self::label(names, v) == e.1;
                assert(self.adj@[u as int]@.contains(v));
                if u == n {
                } else {
                    assert(names[u as int] != names[v as int]);
                }
            }
            if h.edges.contains(e) {
                let b = e.1->0;
                if e.0 is None {
                    assert(names.contains(b));
                    let v = names.index_of(b) as usize;
                    assert(self.adj@[n as int]@.contains(v));
                    assert(self.id_graph().edges.contains((n, v)));
                    assert(Self::label(names, n) == e.0 && Self::label(names, v) == e.1);
                } else {
                    let a = e.0->0;
                    let i = edges.index_of((a, b));
                    assert(nodes.contains(edges[i].0));
                    assert(names.contains(a));
                    assert(names.contains(b));
                    let u = names.index_of(a) as usize;
                    let v = names.index_of(b) as usize;
                    assert(self.adj@[u as int]@.contains(v));
                    assert(self.id_graph().edges.contains((u, v)));
                    assert(Self::label(names, u) == e.0 && Self::label(names, v) == e.1);
                }
            }
        }
        assert(g.edges =~= h.edges);
    }

    /// The finder holds the numbering of the graph.
    proof fn lemma_numbering(&self, nodes: Seq<T>, edges: Seq<(T, T)>)
        requires
            self.wf(),
            self.id_to_node@ == sequences::distinct(nodes),
            Self::linked(self.adj@, self.id_to_node@, edges),
            forall|v: usize| #![trigger self.adj@[self.id_to_node@.len() as int]@.contains(v)]
                self.adj@[self.id_to_node@.len() as int]@.contains(v) <==> v
                    < self.id_to_node@.len() && augmented::is_entry(
                    nodes,
                    edges,
                    self.id_to_node@[v as int],
                ),
        ensures
            self.numbering().is_of(nodes, edges),
    {
        let numbering = self.numbering();
        let n = self.id_to_node@.len();
        assert forall|t: T| #[trigger] numbering.ids.contains_key(t)
            <==> numbering.names.contains(t) by {
            if numbering.names.contains(t) {
                assert(self.node_to_id@.contains_key(numbering.names[numbering.names.index_of(t)]));
            }
        }
        assert forall|u: int| 0 <= u <= n implies #[trigger] numbering.successors[u]
            == self.adj@[u]@ by {}
        assert forall|v: int| 0 <= v <= n implies #[trigger] numbering.predecessors[v]
            == self.rev_adj@[v]@ by {}
    }

    /// Adding an edge to both kinds of list.
    proof fn lemma_link(
        adj0: Seq<Vec<usize>>,
        rev0: Seq<Vec<usize>>,
        adj1: Seq<Vec<usize>>,
        rev1: Seq<Vec<usize>>,
        n: nat,
        u: usize,
        v: usize,
    )
        requires
            Self::mirrored(adj0, rev0, n),
            u <= n,
            v < n,
            !adj0[u as int]@.contains(v),
            adj1.len() == adj0.len(),
            rev1.len() == rev0.len(),
            adj1[u as int]@ == adj0[u as int]@.push(v),
            rev1[v as int]@ == rev0[v as int]@.push(u),
            forall|k: int| 0 <= k <= n && k != u ==> adj1[k] == adj0[k],
            forall|k: int| 0 <= k <= n && k != v ==> rev1[k] == rev0[k],
        ensures
            Self::mirrored(adj1, rev1, n),
            forall|a: int, b: usize| #![trigger adj1[a]@.contains(b)]
                0 <= a <= n ==> (adj1[a]@.contains(b) <==> adj0[a]@.contains(b) || (a == u && b
                    == v)),
            forall|b: int, a: usize| #![trigger rev1[b]@.contains(a)]
                0 <= b <= n ==> (rev1[b]@.contains(a) <==> rev0[b]@.contains(a) || (a == u && b
                    == v)),
    {
        assert forall|a: int, b: usize| #![trigger adj1[a]@.contains(b)] 0 <= a <= n implies (
        adj1[a]@.contains(b) <==> adj0[a]@.contains(b) || (a == u && b == v)) by {
            sequences::lemma_contains_push(adj0[u as int]@, v, b);
        }
        assert forall|b: int, a: usize| #![trigger rev1[b]@.contains(a)] 0 <= b <= n implies (
        rev1[b]@.contains(a) <==> rev0[b]@.contains(a) || (a == u && b == v)) by {
            sequences::lemma_contains_push(rev0[v as int]@, u, a);
        }
        assert(!rev0[v as int]@.contains(u));
        assert(adj1[u as int]@.no_duplicates());
        assert(rev1[v as int]@.no_duplicates());
    }

    /// Numbering one more node.
    proof fn lemma_number_next(ids: Map<T, usize>, names: Seq<T>, t: T)
        requires
            Self::numbered(ids, names),
            !ids.contains_key(t),
            names.len() < usize::MAX,
        ensures
            Self::numbered(ids.insert(t, names.len() as usize), names.push(t)),
    {
    }
}

/// Finds the closest common dominator of `target_set` in the graph with the given nodes and
/// edges, augmented with a virtual entry node that leads to every entry node. The result is
/// `None` if that dominator is the virtual entry, or if `target_set` is empty.
pub fn find_closest_common_dominator<T: Hash + Eq + Clone>(
    nodes: Vec<T>,
    edges: Vec<(T, T)>,
    target_set: Vec<T>,
) -> (result: Result<Option<T>, DominatorFinderError>)
    requires
        keys::key_model::<T>(),
    ensures
        result is Ok <==> augmented::knows_edges(nodes@, edges@) && augmented::has_entry(
            nodes@,
            edges@,
        ) && augmented::knows_nodes(nodes@, target_set@),
        match result {
            Ok(dominator) => if target_set@.len() == 0 {
                dominator is None
            } else {
                let entries = finder_laws::entries(nodes@, edges@);
                &&& augmented::augmented(nodes@, edges@).is_closest_common_dominator(
                    augmented::targets_of(target_set@),
                    dominator,
                )
                &&& match dominator {
                    Some(z) => {
                        &&& nodes@.contains(z)
                        &&& ways::guards_all(entries, edges@, z, target_set@)
                        &&& forall|y: T| #[trigger]
                            ways::guards_all(entries, edges@, y, target_set@) ==> ways::guards(
                                entries,
                                edges@,
                                y,
                                z,
                            )
                    },
                    None => forall|y: T|
                        !#[trigger] ways::guards_all(entries, edges@, y, target_set@),
                }
            },
            Err(DominatorFinderError::EdgeContainsUnknownNode) => {
                !augmented::knows_edges(nodes@, edges@)
            },
            Err(DominatorFinderError::GraphHasNoEntryNode) => {
                augmented::knows_edges(nodes@, edges@) && !augmented::has_entry(nodes@, edges@)
            },
            Err(DominatorFinderError::TargetSetContainsUnknownNode) => {
                &&& augmented::knows_edges(nodes@, edges@)
                &&& augmented::has_entry(nodes@, edges@)
                &&& !augmented::knows_nodes(nodes@, target_set@)
            },
        },
{
    proof {
        finder_laws::law_input_errors(nodes@, edges@, target_set@);
    }
    match DominatorFinder::new(nodes, edges) {
        Ok(finder) => {
            let result = finder.closest_common_dominator(target_set);
            proof {
                if result is Ok && target_set@.len() > 0 {
                    finder_laws::law_closest_is_on_every_way(
                        nodes@,
                        edges@,
                        target_set@,
                        result->Ok_0,
                    );
                }
            }
            result
        },
        Err(error) => Err(error),
    }
}

} // verus!
