//! The order in which the elements of a sequence first occur.

use crate::sequences;
use vstd::prelude::*;

verus! {

/// `a` occurs in `s`, and it does so before `b` occurs for the first time, if `b` occurs at all.
pub open spec fn before<X>(s: Seq<X>, a: X, b: X) -> bool {
    exists|i: int|
        0 <= i < s.len() && #[trigger] s[i] == a && forall|j: int| 0 <= j <= i ==> s[j] != b
}

/// Of two different elements of a sequence exactly one occurs before the other.
pub proof fn law_one_comes_first<X>(s: Seq<X>, a: X, b: X)
    requires
        a != b,
        s.contains(a) || s.contains(b),
    ensures
        before(s, a, b) <==> !before(s, b, a),
    decreases s.len(),
{
    let t = s.drop_last();
    let x = s.last();
    assert(s =~= t.push(x));
    lemma_before_push(t, x, a, b);
    lemma_before_push(t, x, b, a);
    sequences::lemma_contains_push(t, x, a);
    sequences::lemma_contains_push(t, x, b);
    if t.contains(a) || t.contains(b) {
        law_one_comes_first(t, a, b);
        if !t.contains(a) {
            lemma_before_contains(t, a, b);
        }
        if !t.contains(b) {
            lemma_before_contains(t, b, a);
        }
    } else {
        lemma_before_contains(t, a, b);
        lemma_before_contains(t, b, a);
    }
}

/// Sequences without repetition that have the same elements in the same order are the same.
pub proof fn law_order_determines_sequence<X>(s: Seq<X>, t: Seq<X>)
    requires
        s.no_duplicates(),
        t.no_duplicates(),
        forall|x: X| #[trigger] s.contains(x) <==> t.contains(x),
        forall|a: X, b: X|
            s.contains(a) && s.contains(b) ==> (#[trigger] before(s, a, b) <==> before(t, a, b)),
    ensures
        s == t,
{
    sequences::lemma_no_longer(s, t);
    sequences::lemma_no_longer(t, s);
    assert forall|i: int| 0 <= i < s.len() implies s[i] == t[i] by {
        lemma_same_element(s, t, i);
    }
    assert(s =~= t);
}

/// The elements at each position are the same.
proof fn lemma_same_element<X>(s: Seq<X>, t: Seq<X>, i: int)
    requires
        s.no_duplicates(),
        t.no_duplicates(),
        s.len() == t.len(),
        forall|x: X| #[trigger] s.contains(x) <==> t.contains(x),
        forall|a: X, b: X|
            s.contains(a) && s.contains(b) ==> (#[trigger] before(s, a, b) <==> before(t, a, b)),
        0 <= i < s.len(),
    ensures
        s[i] == t[i],
    decreases i,
{
    assert forall|j: int| 0 <= j < i implies s[j] == t[j] by {
        lemma_same_element(s, t, j);
    }
    if s[i] != t[i] {
        assert(s.contains(s[i]) && t.contains(t[i]));
        assert(t.contains(s[i]) && s.contains(t[i]));
        let k = t.index_of(s[i]);
        let l = s.index_of(t[i]);
        assert(t[k] == s[i] && s[l] == t[i]);
        assert(k > i) by {
            if k < i {
                assert(s[k] == t[k]);
            }
        }
        assert(l > i) by {
            if l < i {
                assert(s[l] == t[l]);
            }
        }
        assert(before(s, s[i], t[i])) by {
            assert(s[i] == s[i] && forall|j: int| 0 <= j <= i ==> s[j] != t[i]);
        }
        assert(before(t, s[i], t[i]));
        let m = choose|m: int|
            0 <= m < t.len() && #[trigger] t[m] == s[i] && forall|j: int|
                0 <= j <= m ==> t[j] != t[i];
        assert(m == k);
        assert(t[i] != t[i]);
    }
}

/// What occurs before something occurs.
pub proof fn lemma_before_contains<X>(s: Seq<X>, a: X, b: X)
    ensures
        before(s, a, b) ==> s.contains(a) && a != b,
        s.contains(a) && !s.contains(b) ==> before(s, a, b),
{
    if s.contains(a) && !s.contains(b) {
        let i = s.index_of(a);
        assert(s[i] == a);
    }
}

/// The order in two sequences together.
pub proof fn lemma_before_add<X>(s: Seq<X>, t: Seq<X>, a: X, b: X)
    ensures
        before(s + t, a, b) <==> before(s, a, b) || (!s.contains(b) && before(t, a, b)),
{
    let r = s + t;
    if before(s, a, b) {
        let i = choose|i: int|
            0 <= i < s.len() && #[trigger] s[i] == a && forall|j: int| 0 <= j <= i ==> s[j] != b;
        assert(r[i] == a);
        assert forall|j: int| 0 <= j <= i implies r[j] != b by {
            assert(r[j] == s[j]);
        }
    }
    if !s.contains(b) && before(t, a, b) {
        let i = choose|i: int|
            0 <= i < t.len() && #[trigger] t[i] == a && forall|j: int| 0 <= j <= i ==> t[j] != b;
        assert(r[s.len() + i] == a);
        assert forall|j: int| 0 <= j <= s.len() + i implies r[j] != b by {
            if j < s.len() {
                assert(r[j] == s[j]);
            } else {
                assert(r[j] == t[j - s.len()]);
            }
        }
    }
    if before(r, a, b) {
        let i = choose|i: int|
            0 <= i < r.len() && #[trigger] r[i] == a && forall|j: int| 0 <= j <= i ==> r[j] != b;
        if i < s.len() {
            assert(s[i] == a);
            assert forall|j: int| 0 <= j <= i implies s[j] != b by {
                assert(r[j] == s[j]);
            }
        } else {
            assert(t[i - s.len()] == a);
            assert forall|j: int| 0 <= j <= i - s.len() implies t[j] != b by {
                assert(r[s.len() + j] == t[j]);
            }
            assert forall|j: int| 0 <= j < s.len() implies s[j] != b by {
                assert(r[j] == s[j]);
            }
        }
    }
}

/// The order once an element is added.
pub proof fn lemma_before_push<X>(s: Seq<X>, x: X, a: X, b: X)
    ensures
        before(s.push(x), a, b) <==> before(s, a, b) || (!s.contains(b) && x == a && a != b),
{
    let t = seq![x];
    assert(s.push(x) =~= s + t);
    lemma_before_add(s, t, a, b);
    if x == a && a != b {
        assert(t[0] == a);
    }
    if before(t, a, b) {
        lemma_before_contains(t, a, b);
    }
}

/// Leaving out repetitions keeps the order.
pub proof fn lemma_before_distinct<X>(s: Seq<X>, a: X, b: X)
    ensures
        before(sequences::distinct(s), a, b) <==> before(s, a, b),
    decreases s.len(),
{
    if s.len() > 0 {
        let t = s.drop_last();
        let x = s.last();
        assert(s =~= t.push(x));
        lemma_before_distinct(t, a, b);
        lemma_before_push(t, x, a, b);
        lemma_before_push(sequences::distinct(t), x, a, b);
        sequences::lemma_distinct_contains(t, b);
        sequences::lemma_distinct_contains(t, a);
        lemma_before_contains(t, a, b);
    }
}

/// What is listed under one node keeps the order of the pairs.
pub proof fn lemma_before_ends<X, Y>(pairs: Seq<(X, Y)>, n: X, a: Y, b: Y)
    ensures
        before(sequences::ends_of(pairs, n), a, b) <==> before(pairs, (n, a), (n, b)),
    decreases pairs.len(),
{
    if pairs.len() == 0 {
        reveal(Seq::filter);
        assert(sequences::ends_of(pairs, n).len() == 0);
    } else {
        let t = pairs.drop_last();
        let e = pairs.last();
        assert(pairs =~= t.push(e));
        lemma_before_ends(t, n, a, b);
        sequences::lemma_ends_push(t, e.0, e.1, n);
        lemma_before_push(t, e, (n, a), (n, b));
        lemma_before_push(sequences::ends_of(t, n), e.1, a, b);
        sequences::lemma_ends_contains(t, n, b);
    }
}

/// A filter keeps the order of what it keeps.
pub proof fn lemma_before_filter<X>(s: Seq<X>, keep: spec_fn(X) -> bool, a: X, b: X)
    requires
        keep(a),
        keep(b),
    ensures
        before(s.filter(keep), a, b) <==> before(s, a, b),
    decreases s.len(),
{
    reveal(Seq::filter);
    if s.len() > 0 {
        let t = s.drop_last();
        let x = s.last();
        assert(s =~= t.push(x));
        lemma_before_filter(t, keep, a, b);
        lemma_before_push(t, x, a, b);
        lemma_before_push(t.filter(keep), x, a, b);
        sequences::lemma_filter_contains(t, keep, b);
    }
}

/// Parts that order two elements alike do so together.
pub proof fn lemma_before_flat<X, Y>(
    s: Seq<X>,
    f: spec_fn(X) -> Seq<Y>,
    g: spec_fn(X) -> Seq<Y>,
    a: Y,
    b: Y,
)
    requires
        forall|x: X| #[trigger]
            s.contains(x) ==> (before(f(x), a, b) <==> before(g(x), a, b)) && (f(x).contains(b)
                <==> g(x).contains(b)),
    ensures
        before(s.flat_map(f), a, b) <==> before(s.flat_map(g), a, b),
        s.flat_map(f).contains(b) <==> s.flat_map(g).contains(b),
    decreases s.len(),
{
    if s.len() == 0 {
        assert(s.flat_map(f) =~= Seq::<Y>::empty());
        assert(s.flat_map(g) =~= Seq::<Y>::empty());
    } else {
        let t = s.drop_last();
        let x = s.last();
        assert(s =~= t.push(x));
        assert forall|y: X| #[trigger] t.contains(y) implies s.contains(y) by {
            sequences::lemma_contains_push(t, x, y);
        }
        assert(s.contains(x));
        lemma_before_flat(t, f, g, a, b);
        t.lemma_flat_map_push(f, x);
        t.lemma_flat_map_push(g, x);
        lemma_before_add(t.flat_map(f), f(x), a, b);
        lemma_before_add(t.flat_map(g), g(x), a, b);
        sequences::lemma_contains_add(t.flat_map(f), f(x), b);
        sequences::lemma_contains_add(t.flat_map(g), g(x), b);
    }
}

/// Parts of one element each.
pub proof fn lemma_flat_single<X, Y>(s: Seq<X>, f: spec_fn(X) -> Y, g: spec_fn(X) -> Seq<Y>)
    requires
        forall|x: X| #[trigger] g(x) == seq![f(x)],
    ensures
        s.flat_map(g) == s.map_values(f),
    decreases s.len(),
{
    if s.len() == 0 {
        assert(s.flat_map(g) =~= s.map_values(f));
    } else {
        let t = s.drop_last();
        let x = s.last();
        assert(s =~= t.push(x));
        lemma_flat_single(t, f, g);
        t.lemma_flat_map_push(g, x);
        assert(s.map_values(f) =~= t.map_values(f) + seq![f(x)]);
    }
}

/// Elements that belong to one part each come in the order of the parts.
pub proof fn lemma_before_blocks<X, Y>(
    s: Seq<X>,
    f: spec_fn(X) -> Seq<Y>,
    a: X,
    b: X,
    in_a: Y,
    in_b: Y,
)
    requires
        forall|x: X| #[trigger] f(x).contains(in_a) <==> x == a,
        forall|x: X| #[trigger] f(x).contains(in_b) <==> x == b,
        a != b,
    ensures
        before(s.flat_map(f), in_a, in_b) <==> before(s, a, b),
        s.flat_map(f).contains(in_b) <==> s.contains(b),
    decreases s.len(),
{
    if s.len() == 0 {
        assert(s.flat_map(f) =~= Seq::<Y>::empty());
    } else {
        let t = s.drop_last();
        let x = s.last();
        assert(s =~= t.push(x));
        lemma_before_blocks(t, f, a, b, in_a, in_b);
        t.lemma_flat_map_push(f, x);
        lemma_before_add(t.flat_map(f), f(x), in_a, in_b);
        lemma_before_push(t, x, a, b);
        sequences::lemma_contains_add(t.flat_map(f), f(x), in_b);
        sequences::lemma_contains_push(t, x, b);
        lemma_before_contains(f(x), in_a, in_b);
    }
}

/// Repetitions in the first of two sequences make no difference to what is distinct in both.
pub proof fn lemma_distinct_of_first<X>(s: Seq<X>, t: Seq<X>)
    ensures
        sequences::distinct(sequences::distinct(s) + t) == sequences::distinct(s + t),
{
    let a = sequences::distinct(s) + t;
    let b = s + t;
    law_distinct_keeps_first_occurrences(a);
    law_distinct_keeps_first_occurrences(b);
    law_distinct_keeps_first_occurrences(s);
    assert forall|x: X| #[trigger] sequences::distinct(a).contains(x) <==> sequences::distinct(
        b,
    ).contains(x) by {
        sequences::lemma_contains_add(sequences::distinct(s), t, x);
        sequences::lemma_contains_add(s, t, x);
    }
    assert forall|x: X, y: X| #[trigger]
        before(sequences::distinct(a), x, y) <==> before(sequences::distinct(b), x, y) by {
        lemma_before_add(sequences::distinct(s), t, x, y);
        lemma_before_add(s, t, x, y);
    }
    law_order_determines_sequence(sequences::distinct(a), sequences::distinct(b));
}

/// `distinct` gives every element that occurs once, in the order in which they first occur.
pub proof fn law_distinct_keeps_first_occurrences<X>(s: Seq<X>)
    ensures
        sequences::distinct(s).no_duplicates(),
        forall|x: X| #[trigger] sequences::distinct(s).contains(x) <==> s.contains(x),
        forall|a: X, b: X| #[trigger]
            before(sequences::distinct(s), a, b) <==> before(s, a, b),
{
    sequences::lemma_distinct_no_duplicates(s);
    assert forall|x: X| #[trigger] sequences::distinct(s).contains(x) <==> s.contains(x) by {
        sequences::lemma_distinct_contains(s, x);
    }
    assert forall|a: X, b: X| #[trigger]
        before(sequences::distinct(s), a, b) <==> before(s, a, b) by {
        lemma_before_distinct(s, a, b);
    }
}

/// What is listed last under a key is the value in the last pair with that key.
pub proof fn law_last_value_counts<X, Y>(pairs: Seq<(X, Y)>, i: int)
    requires
        0 <= i < pairs.len(),
        forall|j: int| i < j < pairs.len() ==> (#[trigger] pairs[j]).0 != pairs[i].0,
    ensures
        sequences::ends_of(pairs, pairs[i].0).last() == pairs[i].1,
    decreases pairs.len(),
{
    let t = pairs.drop_last();
    let e = pairs.last();
    assert(pairs =~= t.push(e));
    sequences::lemma_ends_push(t, e.0, e.1, pairs[i].0);
    if i < pairs.len() - 1 {
        assert(t[i] == pairs[i]);
        assert(e == pairs[pairs.len() - 1]);
        assert forall|j: int| i < j < t.len() implies (#[trigger] t[j]).0 != t[i].0 by {
            assert(t[j] == pairs[j]);
        }
        law_last_value_counts(t, i);
    }
}

} // verus!
