//! Closest common dominators, immediate dominators and the dominator tree.

use crate::dominance::RootedGraph;
use crate::sequences;
use vstd::prelude::*;

verus! {

impl<X> RootedGraph<X> {
    /// Each element of `c` but the first is the immediate dominator of the one before.
    pub open spec fn climbs(self, c: Seq<X>, i: int) -> bool {
        self.is_immediate_dominator(c[i + 1], c[i])
    }

    /// `c` goes up the dominator tree from `n` to `z`: from each node to its immediate dominator.
    pub open spec fn is_tree_path(self, c: Seq<X>, n: X, z: X) -> bool {
        &&& c.len() > 0
        &&& c[0] == n
        &&& c.last() == z
        &&& forall|i: int| 0 <= i < c.len() - 1 ==> #[trigger] self.climbs(c, i)
    }

    /// `z` is an ancestor of `n` in the dominator tree, or `n` itself.
    pub open spec fn is_tree_ancestor(self, z: X, n: X) -> bool {
        exists|c: Seq<X>| self.is_tree_path(c, n, z)
    }

    /// `z` is the lowest common ancestor of `targets` in the dominator tree: an ancestor of all
    /// of them, and below every other such ancestor.
    pub open spec fn is_lowest_common_ancestor(self, targets: Set<X>, z: X) -> bool {
        &&& forall|t: X| #[trigger] targets.contains(t) ==> self.is_tree_ancestor(z, t)
        &&& forall|w: X|
            (forall|t: X| #[trigger] targets.contains(t) ==> self.is_tree_ancestor(w, t))
                ==> #[trigger] self.is_tree_ancestor(w, z)
    }

    /// A sequence of nodes among which are all dominators of `n`.
    proof fn lemma_dominators_listed(self, n: X) -> (s: Seq<X>)
        ensures
            forall|z: X| #[trigger] self.dominates(z, n) ==> s.contains(z),
    {
        if self.reachable(n) {
            choose|p: Seq<X>| self.walk_to(p, n)
        } else {
            let s = seq![n, self.root];
            assert(s[0] == n && s[1] == self.root);
            s
        }
    }

    /// Among some dominators of `n`, one is dominated by all of them.
    proof fn lemma_lowest(self, s: Seq<X>, n: X) -> (c: X)
        requires
            s.len() > 0,
            forall|i: int| 0 <= i < s.len() ==> self.dominates(#[trigger] s[i], n),
        ensures
            s.contains(c),
            forall|i: int| 0 <= i < s.len() ==> self.dominates(#[trigger] s[i], c),
        decreases s.len(),
    {
        let l = s.last();
        self.law_dominates_reflexive(l);
        if s.len() == 1 {
            assert(s[0] == l);
            l
        } else {
            let r = s.drop_last();
            assert forall|i: int| 0 <= i < r.len() implies self.dominates(#[trigger] r[i], n) by {
                assert(r[i] == s[i]);
            }
            let c = self.lemma_lowest(r, n);
            assert(s[r.index_of(c)] == c);
            assert(s[s.len() - 1] == l);
            self.law_dominators_form_a_chain(l, c, n);
            if self.dominates(l, c) {
                assert forall|i: int| 0 <= i < s.len() implies self.dominates(
                    #[trigger] s[i],
                    c,
                ) by {
                    if i < r.len() {
                        assert(r[i] == s[i]);
                    }
                }
                c
            } else {
                assert forall|i: int| 0 <= i < s.len() implies self.dominates(
                    #[trigger] s[i],
                    l,
                ) by {
                    if i < r.len() {
                        assert(r[i] == s[i]);
                        self.law_dominates_transitive(s[i], c, l);
                    }
                }
                l
            }
        }
    }

    /// Among the dominators of `n` that are in `keep`, one is dominated by all of them.
    proof fn lemma_lowest_kept(self, keep: spec_fn(X) -> bool, n: X, w: X) -> (c: X)
        requires
            self.dominates(w, n),
            keep(w),
        ensures
            self.dominates(c, n),
            keep(c),
            forall|z: X| #[trigger] self.dominates(z, n) && keep(z) ==> self.dominates(z, c),
    {
        let all = self.lemma_dominators_listed(n);
        let pred = |z: X| self.dominates(z, n) && keep(z);
        let s = all.filter(pred);
        assert forall|z: X| #[trigger] s.contains(z) <==> self.dominates(z, n) && keep(z) by {
            sequences::lemma_filter_contains(all, pred, z);
        }
        assert forall|i: int| 0 <= i < s.len() implies self.dominates(#[trigger] s[i], n) by {
            assert(s.contains(s[i]));
        }
        assert(s.contains(w));
        let c = self.lemma_lowest(s, n);
        assert forall|z: X| #[trigger] self.dominates(z, n) && keep(z) implies self.dominates(
            z,
            c,
        ) by {
            assert(s.contains(z));
            assert(s[s.index_of(z)] == z);
        }
        c
    }

    /// Some nodes, at least one, have a closest common dominator.
    pub proof fn law_closest_common_dominator_exists(self, targets: Set<X>, t: X)
        requires
            targets.contains(t),
        ensures
            exists|z: X| self.is_closest_common_dominator(targets, z),
    {
        let keep = |z: X| self.is_common_dominator(targets, z);
        assert(keep(self.root)) by {
            assert forall|u: X| #[trigger] targets.contains(u) implies self.dominates(
                self.root,
                u,
            ) by {
                self.law_root_dominates(u);
            }
        }
        self.law_root_dominates(t);
        let c = self.lemma_lowest_kept(keep, t, self.root);
        assert(self.is_closest_common_dominator(targets, c)) by {
            assert(keep(c));
            assert forall|w: X| #[trigger] self.is_common_dominator(targets, w) implies
                !self.strictly_dominates(c, w) by {
                assert(self.dominates(w, t) && keep(w));
                if self.strictly_dominates(c, w) {
                    self.law_dominates_antisymmetric(c, w);
                }
            }
        }
    }

    /// Every common dominator of some nodes dominates their closest common dominator.
    pub proof fn law_common_dominators_dominate_closest(
        self,
        targets: Set<X>,
        t: X,
        z: X,
        w: X,
    )
        requires
            targets.contains(t),
            self.is_closest_common_dominator(targets, z),
            self.is_common_dominator(targets, w),
        ensures
            self.dominates(w, z),
    {
        self.law_dominators_form_a_chain(w, z, t);
        self.law_dominates_reflexive(z);
    }

    /// The common dominators of some nodes, at least one, are the dominators of their closest
    /// common dominator.
    pub proof fn law_common_dominators_are_dominators_of_closest(
        self,
        targets: Set<X>,
        t: X,
        z: X,
        w: X,
    )
        requires
            targets.contains(t),
            self.is_closest_common_dominator(targets, z),
        ensures
            self.is_common_dominator(targets, w) <==> self.dominates(w, z),
    {
        if self.is_common_dominator(targets, w) {
            self.law_common_dominators_dominate_closest(targets, t, z, w);
        }
        if self.dominates(w, z) {
            assert forall|u: X| #[trigger] targets.contains(u) implies self.dominates(w, u) by {
                self.law_dominates_transitive(w, z, u);
            }
        }
    }

    /// Some nodes, at least one, can be replaced by their closest common dominator: with any
    /// others they have the same closest common dominator as it has.
    pub proof fn law_closest_common_dominator_step_by_step(
        self,
        targets: Set<X>,
        others: Set<X>,
        t: X,
        y: X,
        z: X,
    )
        requires
            targets.contains(t),
            self.is_closest_common_dominator(targets, y),
        ensures
            self.is_closest_common_dominator(targets.union(others), z)
                <==> self.is_closest_common_dominator(others.insert(y), z),
    {
        assert forall|w: X|
            #![trigger self.is_common_dominator(targets.union(others), w)]
            #![trigger self.is_common_dominator(others.insert(y), w)]
            self.is_common_dominator(targets.union(others), w) <==> self.is_common_dominator(
                others.insert(y),
                w,
            ) by {
            self.law_common_dominators_are_dominators_of_closest(targets, t, y, w);
            if self.is_common_dominator(targets.union(others), w) {
                assert forall|u: X| #[trigger] targets.contains(u) implies self.dominates(
                    w,
                    u,
                ) by {
                    assert(targets.union(others).contains(u));
                }
                assert forall|u: X| #[trigger]
                    others.insert(y).contains(u) implies self.dominates(w, u) by {
                    if u != y {
                        assert(targets.union(others).contains(u));
                    }
                }
            }
            if self.is_common_dominator(others.insert(y), w) {
                assert(others.insert(y).contains(y));
                assert forall|u: X| #[trigger]
                    targets.union(others).contains(u) implies self.dominates(w, u) by {
                    if others.contains(u) {
                        assert(others.insert(y).contains(u));
                    }
                }
            }
        }
    }

    /// Some nodes, at least one, have only one closest common dominator.
    pub proof fn law_closest_common_dominator_unique(self, targets: Set<X>, t: X, y: X, z: X)
        requires
            targets.contains(t),
            self.is_closest_common_dominator(targets, y),
            self.is_closest_common_dominator(targets, z),
        ensures
            y == z,
    {
        self.law_common_dominators_dominate_closest(targets, t, z, y);
        self.law_common_dominators_dominate_closest(targets, t, y, z);
        self.law_dominates_antisymmetric(y, z);
    }

    /// The closest common dominator of a single node is that node.
    pub proof fn law_closest_common_dominator_of_one(self, t: X)
        ensures
            self.is_closest_common_dominator(set![t], t),
    {
        self.law_dominates_reflexive(t);
        assert forall|w: X| #[trigger] self.is_common_dominator(set![t], w) implies
            !self.strictly_dominates(t, w) by {
            assert(set![t].contains(t));
            if self.strictly_dominates(t, w) {
                self.law_dominates_antisymmetric(t, w);
            }
        }
    }

    /// Every node but the root has an immediate dominator.
    pub proof fn law_immediate_dominator_exists(self, n: X)
        requires
            n != self.root,
        ensures
            exists|z: X| self.is_immediate_dominator(z, n),
    {
        let keep = |z: X| z != n;
        self.law_root_dominates(n);
        let c = self.lemma_lowest_kept(keep, n, self.root);
        assert(self.is_immediate_dominator(c, n)) by {
            assert forall|w: X| #[trigger] self.strictly_dominates(w, n) implies
                !self.strictly_dominates(c, w) by {
                assert(self.dominates(w, n) && keep(w));
                if self.strictly_dominates(c, w) {
                    self.law_dominates_antisymmetric(c, w);
                }
            }
        }
    }

    /// Every strict dominator of a node dominates its immediate dominator.
    pub proof fn law_strict_dominators_dominate_immediate(self, n: X, z: X, w: X)
        requires
            self.is_immediate_dominator(z, n),
            self.strictly_dominates(w, n),
        ensures
            self.dominates(w, z),
    {
        self.law_dominators_form_a_chain(w, z, n);
        self.law_dominates_reflexive(z);
    }

    /// A node has only one immediate dominator.
    pub proof fn law_immediate_dominator_unique(self, n: X, y: X, z: X)
        requires
            self.is_immediate_dominator(y, n),
            self.is_immediate_dominator(z, n),
        ensures
            y == z,
    {
        self.law_strict_dominators_dominate_immediate(n, z, y);
        self.law_strict_dominators_dominate_immediate(n, y, z);
        self.law_dominates_antisymmetric(y, z);
    }

    /// The root has no immediate dominator: it is the root of the dominator tree.
    pub proof fn law_root_has_no_immediate_dominator(self, z: X)
        ensures
            !self.is_immediate_dominator(z, self.root),
    {
        if self.is_immediate_dominator(z, self.root) {
            self.lemma_dominators_of_root(z);
        }
    }

    /// A node further up the dominator tree dominates.
    proof fn lemma_tree_path_dominates(self, c: Seq<X>, n: X, z: X)
        requires
            self.is_tree_path(c, n, z),
        ensures
            self.dominates(z, n),
        decreases c.len(),
    {
        if c.len() == 1 {
            self.law_dominates_reflexive(n);
        } else {
            let d = c.drop_last();
            let y = d.last();
            assert forall|i: int| 0 <= i < d.len() - 1 implies #[trigger] self.climbs(d, i) by {
                assert(self.climbs(c, i));
            }
            self.lemma_tree_path_dominates(d, n, y);
            assert(self.climbs(c, c.len() - 2));
            self.law_dominates_transitive(z, y, n);
        }
    }

    /// The dominators of `n` are all listed in `all`. Then every dominator of a dominator `m` of
    /// `n` is an ancestor of `m` in the dominator tree.
    proof fn lemma_dominator_is_ancestor(self, all: Seq<X>, n: X, m: X, z: X)
        requires
            forall|y: X| #[trigger] self.dominates(y, n) ==> all.contains(y),
            self.dominates(m, n),
            self.dominates(z, m),
        ensures
            self.is_tree_ancestor(z, m),
        decreases all.filter(|y: X| self.dominates(y, m)).len(),
    {
        if z == m {
            assert(self.is_tree_path(seq![m], m, z));
        } else {
            if m == self.root {
                self.lemma_dominators_of_root(z);
            }
            self.law_immediate_dominator_exists(m);
            let d = choose|d: X| self.is_immediate_dominator(d, m);
            self.law_strict_dominators_dominate_immediate(m, d, z);
            self.law_dominates_transitive(d, m, n);
            let above_m = |y: X| self.dominates(y, m);
            let above_d = |y: X| self.dominates(y, d);
            assert forall|y: X| above_d(y) implies #[trigger] above_m(y) by {
                self.law_dominates_transitive(y, d, m);
            }
            self.law_dominates_reflexive(m);
            if self.dominates(m, d) {
                self.law_dominates_antisymmetric(m, d);
            }
            lemma_filter_shorter(all, above_d, above_m, m);
            self.lemma_dominator_is_ancestor(all, n, d, z);
            let c = choose|c: Seq<X>| self.is_tree_path(c, d, z);
            let e = seq![m] + c;
            assert forall|i: int| 0 <= i < e.len() - 1 implies #[trigger] self.climbs(e, i) by {
                if i > 0 {
                    assert(self.climbs(c, i - 1));
                }
            }
            assert(e.last() == c.last());
            assert(self.is_tree_path(e, m, z));
        }
    }

    /// The dominators of a node are its ancestors in the dominator tree, and the node itself.
    pub proof fn law_dominators_are_tree_ancestors(self, z: X, n: X)
        ensures
            self.dominates(z, n) <==> self.is_tree_ancestor(z, n),
    {
        if self.dominates(z, n) {
            let all = self.lemma_dominators_listed(n);
            self.law_dominates_reflexive(n);
            self.lemma_dominator_is_ancestor(all, n, n, z);
        }
        if self.is_tree_ancestor(z, n) {
            let c = choose|c: Seq<X>| self.is_tree_path(c, n, z);
            self.lemma_tree_path_dominates(c, n, z);
        }
    }

    /// The closest common dominator of some nodes, at least one, is their lowest common ancestor
    /// in the dominator tree.
    pub proof fn law_closest_common_dominator_is_lowest_common_ancestor(
        self,
        targets: Set<X>,
        t: X,
        z: X,
    )
        requires
            targets.contains(t),
        ensures
            self.is_closest_common_dominator(targets, z) <==> self.is_lowest_common_ancestor(
                targets,
                z,
            ),
    {
        assert forall|w: X| #[trigger] self.is_common_dominator(targets, w) <==> (forall|u: X|
         #[trigger] targets.contains(u) ==> self.is_tree_ancestor(w, u)) by {
            if self.is_common_dominator(targets, w) {
                assert forall|u: X| #[trigger] targets.contains(u) implies self.is_tree_ancestor(
                    w,
                    u,
                ) by {
                    self.law_dominators_are_tree_ancestors(w, u);
                }
            }
            if forall|u: X| #[trigger] targets.contains(u) ==> self.is_tree_ancestor(w, u) {
                assert forall|u: X| #[trigger] targets.contains(u) implies self.dominates(
                    w,
                    u,
                ) by {
                    self.law_dominators_are_tree_ancestors(w, u);
                }
            }
        }
        if self.is_closest_common_dominator(targets, z) {
            assert forall|w: X|
                (forall|u: X| #[trigger] targets.contains(u) ==> self.is_tree_ancestor(w, u))
                    implies #[trigger] self.is_tree_ancestor(w, z) by {
                assert(self.is_common_dominator(targets, w));
                self.law_common_dominators_dominate_closest(targets, t, z, w);
                self.law_dominators_are_tree_ancestors(w, z);
            }
        }
        if self.is_lowest_common_ancestor(targets, z) {
            assert(self.is_common_dominator(targets, z));
            assert forall|w: X| #[trigger] self.is_common_dominator(targets, w) implies
                !self.strictly_dominates(z, w) by {
                assert(self.is_tree_ancestor(w, z));
                self.law_dominators_are_tree_ancestors(w, z);
                if self.strictly_dominates(z, w) {
                    self.law_dominates_antisymmetric(z, w);
                }
            }
        }
    }

    /// Edges from a node to itself do not affect dominance.
    pub proof fn law_self_loops_do_not_matter(self, z: X, n: X)
        ensures
            self.dominates(z, n) <==> self.without_self_loops().dominates(z, n),
    {
        let h = self.without_self_loops();
        assert forall|p: Seq<X>| #[trigger] h.walk_to(p, n) implies self.walk_to(p, n) by {
            assert forall|i: int| 0 <= i < p.len() - 1 implies #[trigger] self.step(p, i) by {
                assert(h.step(p, i));
            }
        }
        assert forall|p: Seq<X>| #[trigger] self.walk_to(p, n) implies exists|q: Seq<X>| #[trigger]
            h.walk_to(q, n) && (forall|x: X| #[trigger] q.contains(x) ==> p.contains(x)) by {
            let q = self.lemma_simple_walk(p, n);
            assert forall|i: int| 0 <= i < q.len() - 1 implies #[trigger] h.step(q, i) by {
                assert(self.step(q, i));
                assert(q[i] != q[i + 1]);
            }
            assert(h.walk_to(q, n));
        }
        if self.reachable(n) {
            let p = choose|p: Seq<X>| self.walk_to(p, n);
            let q = choose|q: Seq<X>| #[trigger]
                h.walk_to(q, n) && (forall|x: X| #[trigger] q.contains(x) ==> p.contains(x));
            assert(h.reachable(n));
            if h.on_all_walks(z, n) {
                assert forall|p: Seq<X>| #[trigger] self.walk_to(p, n) implies p.contains(z) by {
                    let q = choose|q: Seq<X>| #[trigger]
                        h.walk_to(q, n) && (forall|x: X| #[trigger]
                            q.contains(x) ==> p.contains(x));
                    assert(q.contains(z));
                }
            }
        }
    }
}

/// A filter that keeps less is shorter if it leaves out an element that the other keeps.
proof fn lemma_filter_shorter<X>(
    s: Seq<X>,
    less: spec_fn(X) -> bool,
    more: spec_fn(X) -> bool,
    x: X,
)
    requires
        forall|y: X| less(y) ==> #[trigger] more(y),
    ensures
        s.filter(less).len() <= s.filter(more).len(),
        s.contains(x) && more(x) && !less(x) ==> s.filter(less).len() < s.filter(more).len(),
    decreases s.len(),
{
    reveal(Seq::filter);
    if s.len() > 0 {
        lemma_filter_shorter(s.drop_last(), less, more, x);
        assert(less(s.last()) ==> more(s.last()));
        sequences::lemma_contains_push(s.drop_last(), s.last(), x);
        assert(s.drop_last().push(s.last()) =~= s);
    }
}

} // verus!
