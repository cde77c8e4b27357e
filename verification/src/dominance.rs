//! Dominance in rooted directed graphs: definitions and laws.
//!
//! Everything here is mathematics. The executable modules state their contracts with these
//! definitions.

use vstd::prelude::*;

verus! {

/// A directed graph with a distinguished root, as a mathematical object.
#[verifier::reject_recursive_types(X)]
pub struct RootedGraph<X> {
    /// The node at which every walk starts.
    pub root: X,
    /// The pairs `(u, v)` with an edge from `u` to `v`.
    pub edges: Set<(X, X)>,
}

impl<X> RootedGraph<X> {
    /// The `i`-th step of the sequence `p` follows an edge.
    pub open spec fn step(self, p: Seq<X>, i: int) -> bool {
        self.edges.contains((p[i], p[i + 1]))
    }

    /// Every step of `p` follows an edge.
    pub open spec fn is_walk(self, p: Seq<X>) -> bool {
        forall|i: int| 0 <= i < p.len() - 1 ==> #[trigger] self.step(p, i)
    }

    /// `p` is a walk from the root to `n`.
    pub open spec fn walk_to(self, p: Seq<X>, n: X) -> bool {
        &&& p.len() > 0
        &&& p[0] == self.root
        &&& p.last() == n
        &&& self.is_walk(p)
    }

    /// Some walk from the root ends at `n`.
    pub open spec fn reachable(self, n: X) -> bool {
        exists|p: Seq<X>| self.walk_to(p, n)
    }

    /// Every walk from the root to `n` goes through `z`.
    pub open spec fn on_all_walks(self, z: X, n: X) -> bool {
        forall|p: Seq<X>| #[trigger] self.walk_to(p, n) ==> p.contains(z)
    }

    /// `z` dominates `n`: every walk from the root to `n` goes through `z`. A node that no
    /// walk reaches is dominated by itself and by the root, and by nothing else.
    pub open spec fn dominates(self, z: X, n: X) -> bool {
        if self.reachable(n) {
            self.on_all_walks(z, n)
        } else {
            z == n || z == self.root
        }
    }

    /// `z` dominates `n` and is another node.
    pub open spec fn strictly_dominates(self, z: X, n: X) -> bool {
        z != n && self.dominates(z, n)
    }

    /// `z` is the immediate dominator of `n`: a strict dominator of `n` that strictly
    /// dominates no other strict dominator of `n`.
    pub open spec fn is_immediate_dominator(self, z: X, n: X) -> bool {
        &&& self.strictly_dominates(z, n)
        &&& forall|w: X| #[trigger]
            self.strictly_dominates(w, n) ==> !self.strictly_dominates(z, w)
    }

    /// `z` dominates every node of `targets`.
    pub open spec fn is_common_dominator(self, targets: Set<X>, z: X) -> bool {
        forall|t: X| #[trigger] targets.contains(t) ==> self.dominates(z, t)
    }

    /// `z` is the closest common dominator of `targets`: a common dominator that strictly
    /// dominates no other common dominator.
    pub open spec fn is_closest_common_dominator(self, targets: Set<X>, z: X) -> bool {
        &&& self.is_common_dominator(targets, z)
        &&& forall|w: X| #[trigger]
            self.is_common_dominator(targets, w) ==> !self.strictly_dominates(z, w)
    }

    /// The same edges with another root.
    pub open spec fn rooted_at(self, root: X) -> RootedGraph<X> {
        RootedGraph { root, edges: self.edges }
    }

    /// No edge leads from a node that its other end leads to.
    pub open spec fn is_acyclic(self) -> bool {
        forall|a: X, b: X| #[trigger]
            self.edges.contains((a, b)) ==> !self.rooted_at(b).reachable(a)
    }

    /// The same graph without the edges from a node to itself.
    pub open spec fn without_self_loops(self) -> RootedGraph<X> {
        RootedGraph {
            root: self.root,
            edges: self.edges.filter(|e: (X, X)| e.0 != e.1),
        }
    }

    /// A walk extended along an edge is a walk.
    pub proof fn lemma_walk_push(self, p: Seq<X>, n: X, m: X)
        requires
            self.walk_to(p, n),
            self.edges.contains((n, m)),
        ensures
            self.walk_to(p.push(m), m),
    {
        let q = p.push(m);
        assert forall|i: int| 0 <= i < q.len() - 1 implies #[trigger] self.step(q, i) by {
            if i < p.len() - 1 {
                assert(self.step(p, i));
            }
        }
    }

    /// Every prefix of a walk is a walk.
    pub proof fn lemma_walk_take(self, p: Seq<X>, n: X, k: int)
        requires
            self.walk_to(p, n),
            0 < k <= p.len(),
        ensures
            self.walk_to(p.take(k), p[k - 1]),
    {
        let q = p.take(k);
        assert forall|i: int| 0 <= i < q.len() - 1 implies #[trigger] self.step(q, i) by {
            assert(self.step(p, i));
        }
    }

    /// A walk to `p[k]` followed by the rest of `p` after position `k` is a walk.
    pub proof fn lemma_walk_splice(self, q: Seq<X>, p: Seq<X>, n: X, k: int)
        requires
            self.walk_to(p, n),
            0 <= k < p.len(),
            self.walk_to(q, p[k]),
        ensures
            self.walk_to(q + p.skip(k + 1), n),
    {
        let r = q + p.skip(k + 1);
        assert forall|i: int| 0 <= i < r.len() - 1 implies #[trigger] self.step(r, i) by {
            if i < q.len() - 1 {
                assert(self.step(q, i));
            } else {
                let j = i - q.len() + 1 + k;
                assert(self.step(p, j));
                assert(r[i] == p[j]);
                assert(r[i + 1] == p[j + 1]);
            }
        }
        if k == p.len() - 1 {
            assert(r =~= q);
        } else {
            assert(r.last() == p.last());
        }
    }

    /// The root reaches itself.
    pub proof fn lemma_root_reachable(self)
        ensures
            self.reachable(self.root),
            self.walk_to(seq![self.root], self.root),
    {
        assert(self.walk_to(seq![self.root], self.root));
    }

    /// Every node on a walk is reachable.
    pub proof fn lemma_on_walk_reachable(self, p: Seq<X>, n: X, z: X)
        requires
            self.walk_to(p, n),
            p.contains(z),
        ensures
            self.reachable(z),
    {
        let i = p.index_of(z);
        self.lemma_walk_take(p, n, i + 1);
    }

    /// Every node dominates itself.
    pub proof fn law_dominates_reflexive(self, n: X)
        ensures
            self.dominates(n, n),
    {
        assert forall|p: Seq<X>| #[trigger] self.walk_to(p, n) implies p.contains(n) by {
            assert(p[p.len() - 1] == n);
        }
    }

    /// The root dominates every node.
    pub proof fn law_root_dominates(self, n: X)
        ensures
            self.dominates(self.root, n),
    {
        assert forall|p: Seq<X>| #[trigger] self.walk_to(p, n) implies p.contains(self.root) by {
            assert(p[0] == self.root);
        }
    }

    /// The root is dominated by itself alone.
    pub proof fn lemma_dominators_of_root(self, z: X)
        requires
            self.dominates(z, self.root),
        ensures
            z == self.root,
    {
        self.lemma_root_reachable();
        assert(seq![self.root].contains(z));
    }

    /// A dominator of a reachable node is reachable.
    pub proof fn lemma_dominator_reachable(self, z: X, n: X)
        requires
            self.reachable(n),
            self.dominates(z, n),
        ensures
            self.reachable(z),
    {
        let p = choose|p: Seq<X>| self.walk_to(p, n);
        self.lemma_on_walk_reachable(p, n, z);
    }

    /// Dominance is transitive.
    pub proof fn law_dominates_transitive(self, a: X, b: X, c: X)
        requires
            self.dominates(a, b),
            self.dominates(b, c),
        ensures
            self.dominates(a, c),
    {
        if self.reachable(c) {
            self.lemma_dominator_reachable(b, c);
            assert forall|p: Seq<X>| #[trigger] self.walk_to(p, c) implies p.contains(a) by {
                let i = p.index_of(b);
                self.lemma_walk_take(p, c, i + 1);
                let q = p.take(i + 1);
                assert(q.contains(a));
                let j = q.index_of(a);
                assert(p[j] == a);
            }
        } else if b == self.root {
            self.lemma_dominators_of_root(a);
        }
    }

    /// A walk to `n` of which some node other than the last is `n` can be cut short.
    proof fn lemma_first_visit(self, p: Seq<X>, n: X)
        requires
            self.walk_to(p, n),
        ensures
            exists|q: Seq<X>|
                #![trigger self.walk_to(q, n)]
                self.walk_to(q, n) && !q.drop_last().contains(n) && (forall|x: X|
                    q.contains(x) ==> p.contains(x)),
        decreases p.len(),
    {
        if p.drop_last().contains(n) {
            let i = p.drop_last().index_of(n);
            self.lemma_walk_take(p, n, i + 1);
            let r = p.take(i + 1);
            self.lemma_first_visit(r, n);
            let q = choose|q: Seq<X>|
                #![trigger self.walk_to(q, n)]
                self.walk_to(q, n) && !q.drop_last().contains(n) && (forall|x: X|
                    q.contains(x) ==> r.contains(x));
            assert forall|x: X| q.contains(x) implies p.contains(x) by {
                let j = r.index_of(x);
                assert(p[j] == x);
            }
        }
    }

    /// Two nodes that dominate each other are the same node.
    pub proof fn law_dominates_antisymmetric(self, a: X, b: X)
        requires
            self.dominates(a, b),
            self.dominates(b, a),
        ensures
            a == b,
    {
        if self.reachable(b) {
            self.lemma_dominator_reachable(a, b);
            let p = choose|p: Seq<X>| self.walk_to(p, b);
            self.lemma_first_visit(p, b);
            let q = choose|q: Seq<X>|
                #![trigger self.walk_to(q, b)]
                self.walk_to(q, b) && !q.drop_last().contains(b) && (forall|x: X|
                    q.contains(x) ==> p.contains(x));
            let i = q.index_of(a);
            if a != b {
                self.lemma_walk_take(q, b, i + 1);
                let r = q.take(i + 1);
                let j = r.index_of(b);
                assert(q.drop_last()[j] == b);
            }
        } else if a == self.root {
            self.lemma_dominators_of_root(b);
        }
    }

    /// The last position at which a sequence holds an element.
    proof fn lemma_last_occurrence(p: Seq<X>, x: X) -> (k: int)
        requires
            p.contains(x),
        ensures
            0 <= k < p.len(),
            p[k] == x,
            forall|i: int| k < i < p.len() ==> p[i] != x,
        decreases p.len(),
    {
        if p.last() == x {
            p.len() - 1
        } else {
            let i = p.index_of(x);
            assert(p.drop_last()[i] == x);
            let k = Self::lemma_last_occurrence(p.drop_last(), x);
            assert forall|i: int| k < i < p.len() implies p[i] != x by {
                if i < p.len() - 1 {
                    assert(p.drop_last()[i] == p[i]);
                }
            }
            k
        }
    }

    /// If some walk reaches `w` without `z`, then on every walk to a node that both dominate,
    /// `z` occurs after the last `w`.
    proof fn lemma_occurs_later(self, z: X, w: X, n: X, p: Seq<X>, k: int) -> (j: int)
        requires
            self.walk_to(p, n),
            self.on_all_walks(z, n),
            0 <= k < p.len(),
            p[k] == w,
            self.reachable(w),
            !self.on_all_walks(z, w),
        ensures
            k < j < p.len(),
            p[j] == z,
    {
        let q = choose|q: Seq<X>| #[trigger] self.walk_to(q, w) && !q.contains(z);
        self.lemma_walk_splice(q, p, n, k);
        let r = q + p.skip(k + 1);
        let i = r.index_of(z);
        if i < q.len() {
            assert(q[i] == z);
        }
        i - q.len() + k + 1
    }

    /// The dominators of one node are comparable: of two of them, one dominates the other.
    pub proof fn law_dominators_form_a_chain(self, z: X, w: X, n: X)
        requires
            self.dominates(z, n),
            self.dominates(w, n),
        ensures
            self.dominates(z, w) || self.dominates(w, z),
    {
        if self.reachable(n) {
            self.lemma_dominator_reachable(z, n);
            self.lemma_dominator_reachable(w, n);
            if !self.dominates(z, w) && !self.dominates(w, z) {
                let p = choose|p: Seq<X>| self.walk_to(p, n);
                let k = Self::lemma_last_occurrence(p, w);
                let j = self.lemma_occurs_later(z, w, n, p, k);
                let k2 = Self::lemma_last_occurrence(p, z);
                let j2 = self.lemma_occurs_later(w, z, n, p, k2);
                assert(false);
            }
        } else {
            self.law_dominates_reflexive(n);
            self.law_root_dominates(z);
            self.law_root_dominates(w);
        }
    }

    /// Every walk can be cut down to one that visits no node twice and visits no new node.
    pub proof fn lemma_simple_walk(self, p: Seq<X>, n: X) -> (q: Seq<X>)
        requires
            self.walk_to(p, n),
        ensures
            self.walk_to(q, n),
            q.no_duplicates(),
            forall|x: X| q.contains(x) ==> p.contains(x),
        decreases p.len(),
    {
        if p.no_duplicates() {
            p
        } else {
            let (i, j) = choose|i: int, j: int|
                0 <= i < p.len() && 0 <= j < p.len() && i != j && p[i] == p[j];
            let (a, b) = if i < j {
                (i, j)
            } else {
                (j, i)
            };
            self.lemma_walk_take(p, n, a + 1);
            self.lemma_walk_splice(p.take(a + 1), p, n, b);
            let r = p.take(a + 1) + p.skip(b + 1);
            let q = self.lemma_simple_walk(r, n);
            assert forall|x: X| q.contains(x) implies p.contains(x) by {
                let k = r.index_of(x);
                if k <= a {
                    assert(p[k] == x);
                } else {
                    assert(p[k - (a + 1) + b + 1] == x);
                }
            }
            q
        }
    }
}

} // verus!
