//! Parent pointers over a node order, and the ancestors they describe.

use crate::sequences;
use vstd::prelude::*;

verus! {

/// Parent pointers of the nodes of a graph, together with an order of some of the nodes in
/// which every parent comes before its children.
pub struct Forest {
    /// Distinct nodes, the root first.
    pub order: Seq<usize>,
    /// The parent of each node, if one is known. The root is its own parent.
    pub parent: Seq<Option<usize>>,
}

impl Forest {
    /// The position of a node in the order.
    pub open spec fn pos(self, x: usize) -> int {
        self.order.index_of(x)
    }

    /// A parent of `x` is known.
    pub open spec fn known(self, x: usize) -> bool {
        x < self.parent.len() && self.parent[x as int] is Some
    }

    /// The pointers lead from every known node towards the root.
    pub open spec fn wf(self, root: usize) -> bool {
        &&& self.order.len() > 0
        &&& self.order.no_duplicates()
        &&& self.order[0] == root
        &&& forall|i: int|
            0 <= i < self.order.len() ==> (#[trigger] self.order[i]) < self.parent.len()
        &&& root < self.parent.len()
        &&& self.parent[root as int] == Some(root)
        &&& forall|x: usize| #[trigger] self.known(x) ==> self.order.contains(x)
        &&& forall|x: usize| #[trigger]
            self.known(x) && x != root ==> self.known(self.parent[x as int]->0) && self.pos(
                self.parent[x as int]->0,
            ) < self.pos(x)
    }

    /// `z` is `x` itself, its parent, the parent of its parent, and so on.
    pub open spec fn ancestor(self, z: usize, x: usize) -> bool
        decreases self.pos(x),
    {
        z == x || (self.known(x) && 0 <= self.pos(self.parent[x as int]->0) < self.pos(x)
            && self.ancestor(z, self.parent[x as int]->0))
    }

    /// `z` is the root or an ancestor of `x`.
    pub open spec fn above(self, root: usize, z: usize, x: usize) -> bool {
        z == root || self.ancestor(z, x)
    }

    /// A node of the order stands at its position.
    pub proof fn lemma_pos(self, x: usize)
        requires
            self.order.no_duplicates(),
            self.order.contains(x),
        ensures
            0 <= self.pos(x) < self.order.len(),
            self.order[self.pos(x)] == x,
    {
    }

    /// The position of the `i`-th node.
    pub proof fn lemma_pos_of(self, i: int)
        requires
            self.order.no_duplicates(),
            0 <= i < self.order.len(),
        ensures
            self.pos(self.order[i]) == i,
            self.order.contains(self.order[i]),
    {
        assert(self.order.contains(self.order[i]));
    }

    /// Ancestors of known nodes are known and come no later in the order.
    pub proof fn lemma_ancestor_pos(self, root: usize, z: usize, x: usize)
        requires
            self.wf(root),
            self.known(x),
            self.ancestor(z, x),
        ensures
            self.known(z),
            self.order.contains(z),
            self.pos(z) <= self.pos(x),
            z != x ==> self.pos(z) < self.pos(x),
        decreases self.pos(x),
    {
        self.lemma_pos(x);
        if z != x {
            self.lemma_ancestor_pos(root, z, self.parent[x as int]->0);
        }
    }

    /// The parent of a known node other than the root is one of its ancestors, and every
    /// other ancestor is an ancestor of the parent.
    pub proof fn lemma_parent(self, root: usize, x: usize)
        requires
            self.wf(root),
            self.known(x),
            x != root,
        ensures
            self.known(self.parent[x as int]->0),
            0 <= self.pos(self.parent[x as int]->0) < self.pos(x),
            forall|z: usize| #[trigger]
                self.ancestor(z, x) <==> z == x || self.ancestor(z, self.parent[x as int]->0),
    {
        self.lemma_pos(x);
        self.lemma_pos(self.parent[x as int]->0);
    }

    /// The only ancestor of the root is the root.
    pub proof fn lemma_ancestor_of_root(self, root: usize, z: usize)
        requires
            self.wf(root),
        ensures
            self.ancestor(z, root) <==> z == root,
            self.pos(root) == 0,
            self.known(root),
    {
        self.lemma_pos_of(0);
    }

    /// An ancestor of an ancestor is an ancestor.
    pub proof fn lemma_ancestor_transitive(self, root: usize, a: usize, b: usize, c: usize)
        requires
            self.wf(root),
            self.known(c),
            self.ancestor(a, b),
            self.ancestor(b, c),
        ensures
            self.ancestor(a, c),
        decreases self.pos(c),
    {
        self.lemma_pos(c);
        if b != c {
            self.lemma_ancestor_transitive(root, a, b, self.parent[c as int]->0);
        }
    }

    /// The root is an ancestor of every known node.
    pub proof fn lemma_root_is_ancestor(self, root: usize, x: usize)
        requires
            self.wf(root),
            self.known(x),
        ensures
            self.ancestor(root, x),
        decreases self.pos(x),
    {
        if x != root {
            self.lemma_pos(x);
            self.lemma_parent(root, x);
            self.lemma_root_is_ancestor(root, self.parent[x as int]->0);
        }
    }

    /// A node of which no parent is known has no ancestor but itself.
    pub proof fn lemma_unknown(self, z: usize, x: usize)
        requires
            !self.known(x),
        ensures
            self.ancestor(z, x) <==> z == x,
    {
    }

    /// Nodes at equal positions are the same node.
    pub proof fn lemma_pos_injective(self, x: usize, y: usize)
        requires
            self.order.no_duplicates(),
            self.order.contains(x),
            self.order.contains(y),
            self.pos(x) == self.pos(y),
        ensures
            x == y,
    {
        self.lemma_pos(x);
        self.lemma_pos(y);
    }
}

/// Where the pointers lead from `x`. They lead nowhere from the root, from a node without a
/// pointer, and from a node that points to itself.
pub open spec fn up(parent: Seq<Option<usize>>, root: usize, x: usize) -> Option<usize> {
    if x != root && x < parent.len() && parent[x as int] != Some(x) {
        parent[x as int]
    } else {
        None
    }
}

/// Following the pointers from `x` comes to an end within `n` steps.
pub open spec fn ends_within(parent: Seq<Option<usize>>, root: usize, x: usize, n: nat) -> bool
    decreases n,
{
    match up(parent, root, x) {
        Some(p) => n > 0 && ends_within(parent, root, p, (n - 1) as nat),
        None => true,
    }
}

/// Following the pointers from `x` comes to an end.
pub open spec fn ends(parent: Seq<Option<usize>>, root: usize, x: usize) -> bool {
    exists|n: nat| ends_within(parent, root, x, n)
}

/// All pointers point to nodes, and following them comes to an end.
pub open spec fn chains_end(parent: Seq<Option<usize>>, root: usize) -> bool {
    &&& forall|x: usize|
        x < parent.len() && (#[trigger] parent[x as int]) is Some ==> parent[x as int]->0
            < parent.len()
    &&& forall|x: usize| x < parent.len() ==> #[trigger] ends(parent, root, x)
}

/// The first `n` nodes to which the pointers lead from `x`, after `x` itself.
pub open spec fn chain_within(
    parent: Seq<Option<usize>>,
    root: usize,
    x: usize,
    n: nat,
) -> Seq<usize>
    decreases n,
{
    match up(parent, root, x) {
        Some(p) => if n > 0 {
            seq![x] + chain_within(parent, root, p, (n - 1) as nat)
        } else {
            seq![x]
        },
        None => seq![x],
    }
}

/// `x` and all nodes to which the pointers lead from there, in order.
pub open spec fn chain(parent: Seq<Option<usize>>, root: usize, x: usize) -> Seq<usize> {
    chain_within(parent, root, x, choose|n: nat| ends_within(parent, root, x, n))
}

/// The first element of `b` that is also in `a`, or the root if there is none.
pub open spec fn first_common(a: Seq<usize>, b: Seq<usize>, root: usize) -> usize
    decreases b.len(),
{
    if b.len() == 0 {
        root
    } else if a.contains(b[0]) {
        b[0]
    } else {
        first_common(a, b.drop_first(), root)
    }
}

/// It makes no difference how many steps are allowed, if they are enough.
proof fn lemma_chain_within(parent: Seq<Option<usize>>, root: usize, x: usize, m: nat, n: nat)
    requires
        ends_within(parent, root, x, m),
        ends_within(parent, root, x, n),
    ensures
        chain_within(parent, root, x, m) == chain_within(parent, root, x, n),
    decreases m,
{
    match up(parent, root, x) {
        Some(p) => {
            lemma_chain_within(parent, root, p, (m - 1) as nat, (n - 1) as nat);
        },
        None => {},
    }
}

/// The chain of a node is the node, followed by the chain of the node to which it points.
pub proof fn lemma_chain(parent: Seq<Option<usize>>, root: usize, x: usize)
    requires
        chains_end(parent, root),
        x < parent.len(),
    ensures
        match up(parent, root, x) {
            Some(p) => p < parent.len() && chain(parent, root, x) == seq![x] + chain(
                parent,
                root,
                p,
            ),
            None => chain(parent, root, x) == seq![x],
        },
{
    assert(ends(parent, root, x));
    let n = choose|n: nat| ends_within(parent, root, x, n);
    assert(ends_within(parent, root, x, n));
    match up(parent, root, x) {
        Some(p) => {
            assert(parent[x as int] == Some(p));
            assert(ends(parent, root, p));
            let m = choose|m: nat| ends_within(parent, root, p, m);
            assert(ends_within(parent, root, p, (n - 1) as nat));
            assert(ends_within(parent, root, p, m));
            lemma_chain_within(parent, root, p, (n - 1) as nat, m);
        },
        None => {},
    }
}

/// What the chain of a node holds, by its first step.
pub proof fn lemma_chain_contains(parent: Seq<Option<usize>>, root: usize, x: usize, z: usize)
    requires
        chains_end(parent, root),
        x < parent.len(),
    ensures
        chain(parent, root, x).contains(z) <==> z == x || (up(parent, root, x) is Some && chain(
            parent,
            root,
            up(parent, root, x)->0,
        ).contains(z)),
{
    lemma_chain(parent, root, x);
    assert(seq![x].contains(z) <==> z == x) by {
        assert(seq![x][0] == x);
    }
    match up(parent, root, x) {
        Some(p) => {
            sequences::lemma_contains_add(seq![x], chain(parent, root, p), z);
        },
        None => {},
    }
}

/// A node on a chain has a shorter chain, unless the chain starts with it. All nodes on a chain
/// are nodes.
proof fn lemma_chain_shorter(parent: Seq<Option<usize>>, root: usize, x: usize, z: usize)
    requires
        chains_end(parent, root),
        x < parent.len(),
        chain(parent, root, x).contains(z),
    ensures
        z < parent.len(),
        chain(parent, root, z).len() <= chain(parent, root, x).len(),
        z != x ==> chain(parent, root, z).len() < chain(parent, root, x).len(),
    decreases chain(parent, root, x).len(),
{
    lemma_chain(parent, root, x);
    lemma_chain_contains(parent, root, x, z);
    if z != x {
        lemma_chain_shorter(parent, root, up(parent, root, x)->0, z);
    }
}

/// The first element of the chain of `v` that is in `a`: every other one that is in `a` is further
/// up.
pub proof fn lemma_first_common(
    parent: Seq<Option<usize>>,
    root: usize,
    a: Seq<usize>,
    v: usize,
)
    requires
        chains_end(parent, root),
        v < parent.len(),
    ensures
        ({
            let l = first_common(a, chain(parent, root, v), root);
            if exists|z: usize| #[trigger] chain(parent, root, v).contains(z) && a.contains(z) {
                &&& chain(parent, root, v).contains(l)
                &&& a.contains(l)
                &&& forall|z: usize| #[trigger]
                    chain(parent, root, v).contains(z) && a.contains(z) ==> chain(
                        parent,
                        root,
                        l,
                    ).contains(z)
            } else {
                l == root
            }
        }),
    decreases chain(parent, root, v).len(),
{
    let b = chain(parent, root, v);
    lemma_chain(parent, root, v);
    assert(b[0] == v);
    assert(b.contains(v));
    if !a.contains(v) {
        assert forall|z: usize| #[trigger] b.contains(z) <==> z == v || (up(parent, root, v)
            is Some && chain(parent, root, up(parent, root, v)->0).contains(z)) by {
            lemma_chain_contains(parent, root, v, z);
        }
        match up(parent, root, v) {
            Some(p) => {
                let c = chain(parent, root, p);
                assert(b.drop_first() =~= c);
                lemma_first_common(parent, root, a, p);
                if exists|z: usize| #[trigger] b.contains(z) && a.contains(z) {
                    let z = choose|z: usize| #[trigger] b.contains(z) && a.contains(z);
                    assert(c.contains(z) && a.contains(z));
                    let l = first_common(a, c, root);
                    assert(b.contains(l));
                    assert forall|z: usize| #[trigger]
                        b.contains(z) && a.contains(z) implies chain(parent, root, l).contains(
                        z,
                    ) by {
                        assert(c.contains(z));
                    }
                }
            },
            None => {
                assert(b.drop_first().len() == 0);
                assert(first_common(a, b.drop_first(), root) == root);
            },
        }
    }
}

/// The lowest common ancestor does not depend on the order of the two nodes.
pub proof fn law_lowest_common_ancestor_symmetric(
    parent: Seq<Option<usize>>,
    root: usize,
    u: usize,
    v: usize,
)
    requires
        chains_end(parent, root),
        u < parent.len(),
        v < parent.len(),
    ensures
        first_common(chain(parent, root, u), chain(parent, root, v), root) == first_common(
            chain(parent, root, v),
            chain(parent, root, u),
            root,
        ),
{
    let a = chain(parent, root, u);
    let b = chain(parent, root, v);
    let l = first_common(a, b, root);
    let m = first_common(b, a, root);
    lemma_first_common(parent, root, a, v);
    lemma_first_common(parent, root, b, u);
    if exists|z: usize| #[trigger] b.contains(z) && a.contains(z) {
        let z = choose|z: usize| #[trigger] b.contains(z) && a.contains(z);
        assert(a.contains(z) && b.contains(z));
        assert(b.contains(m) && a.contains(m));
        assert(a.contains(l) && b.contains(l));
        lemma_chain_shorter(parent, root, v, l);
        lemma_chain_shorter(parent, root, u, m);
        lemma_chain_shorter(parent, root, l, m);
        lemma_chain_shorter(parent, root, m, l);
    }
}

impl Forest {
    /// In a forest the pointers come to an end, after as many steps as there are nodes before.
    proof fn lemma_ends(self, root: usize, x: usize)
        requires
            self.wf(root),
            self.known(x),
        ensures
            ends_within(self.parent, root, x, self.pos(x) as nat),
        decreases self.pos(x),
    {
        self.lemma_pos(x);
        match up(self.parent, root, x) {
            Some(p) => {
                self.lemma_parent(root, x);
                self.lemma_ends(root, p);
                lemma_ends_later(
                    self.parent,
                    root,
                    p,
                    self.pos(p) as nat,
                    (self.pos(x) - 1) as nat,
                );
            },
            None => {},
        }
    }

    /// The chains of a forest come to an end.
    pub proof fn lemma_chains_end(self, root: usize)
        requires
            self.wf(root),
        ensures
            chains_end(self.parent, root),
    {
        assert forall|x: usize|
            x < self.parent.len() && (#[trigger] self.parent[x as int])
                is Some implies self.parent[x as int]->0 < self.parent.len() by {
            assert(self.known(x));
        }
        assert forall|x: usize| x < self.parent.len() implies #[trigger] ends(
            self.parent,
            root,
            x,
        ) by {
            if self.known(x) {
                self.lemma_ends(root, x);
            } else {
                assert(ends_within(self.parent, root, x, 0));
            }
        }
    }

    /// The chain of a node holds its ancestors.
    pub proof fn lemma_chain_holds_ancestors(self, root: usize, x: usize, z: usize)
        requires
            self.wf(root),
            x < self.parent.len(),
        ensures
            chain(self.parent, root, x).contains(z) <==> self.ancestor(z, x),
        decreases self.pos(x),
    {
        self.lemma_chains_end(root);
        lemma_chain_contains(self.parent, root, x, z);
        if x == root {
            self.lemma_ancestor_of_root(root, z);
        } else if self.known(x) {
            self.lemma_parent(root, x);
            self.lemma_chain_holds_ancestors(root, self.parent[x as int]->0, z);
        } else {
            self.lemma_unknown(z, x);
        }
    }

    /// The first common node of two chains of a forest is above both nodes, and below every other
    /// node that is.
    pub proof fn lemma_lowest_above(self, root: usize, u: usize, v: usize, l: usize)
        requires
            self.wf(root),
            u < self.parent.len(),
            v < self.parent.len(),
            l == first_common(
                chain(self.parent, root, u),
                chain(self.parent, root, v),
                root,
            ),
        ensures
            l < self.parent.len(),
            self.above(root, l, u),
            self.above(root, l, v),
            forall|z: usize|
                self.above(root, z, u) && self.above(root, z, v) ==> #[trigger] self.above(
                    root,
                    z,
                    l,
                ),
    {
        let a = chain(self.parent, root, u);
        let b = chain(self.parent, root, v);
        self.lemma_chains_end(root);
        lemma_first_common(self.parent, root, a, v);
        self.lemma_chain_holds_ancestors(root, u, l);
        self.lemma_chain_holds_ancestors(root, v, l);
        if exists|z: usize| #[trigger] b.contains(z) && a.contains(z) {
            lemma_chain_shorter(self.parent, root, v, l);
        }
        assert forall|z: usize|
            self.above(root, z, u) && self.above(root, z, v) implies #[trigger] self.above(
            root,
            z,
            l,
        ) by {
            if z != root {
                self.lemma_chain_holds_ancestors(root, u, z);
                self.lemma_chain_holds_ancestors(root, v, z);
                assert(b.contains(z) && a.contains(z));
                self.lemma_chain_holds_ancestors(root, l, z);
            }
        }
    }
}

/// More steps are enough as well.
proof fn lemma_ends_later(parent: Seq<Option<usize>>, root: usize, x: usize, m: nat, n: nat)
    requires
        ends_within(parent, root, x, m),
        m <= n,
    ensures
        ends_within(parent, root, x, n),
    decreases m,
{
    match up(parent, root, x) {
        Some(p) => {
            lemma_ends_later(parent, root, p, (m - 1) as nat, (n - 1) as nat);
        },
        None => {},
    }
}

} // verus!
