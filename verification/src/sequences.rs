//! Sequences: what is listed first, and what is listed where.

use vstd::prelude::*;

verus! {

/// The elements of `s` without repetition, in the order in which they first occur.
pub open spec fn distinct<X>(s: Seq<X>) -> Seq<X>
    decreases s.len(),
{
    if s.len() == 0 {
        s
    } else {
        let before = distinct(s.drop_last());
        if before.contains(s.last()) {
            before
        } else {
            before.push(s.last())
        }
    }
}

/// The second components of the pairs that start with `n`, in order.
pub open spec fn ends_of<X, Y>(pairs: Seq<(X, Y)>, n: X) -> Seq<Y> {
    pairs.filter(|e: (X, Y)| e.0 == n).map_values(|e: (X, Y)| e.1)
}

/// What a sequence holds after an element is added.
pub proof fn lemma_contains_push<X>(s: Seq<X>, x: X, t: X)
    ensures
        s.push(x).contains(t) <==> s.contains(t) || t == x,
{
    if s.contains(t) {
        assert(s.push(x)[s.index_of(t)] == t);
    }
    if t == x {
        assert(s.push(x)[s.len() as int] == t);
    }
    if s.push(x).contains(t) && t != x {
        let k = s.push(x).index_of(t);
        assert(s[k] == t);
    }
}

/// What two sequences hold together.
pub proof fn lemma_contains_add<X>(a: Seq<X>, b: Seq<X>, t: X)
    ensures
        (a + b).contains(t) <==> a.contains(t) || b.contains(t),
{
    if a.contains(t) {
        assert((a + b)[a.index_of(t)] == t);
    }
    if b.contains(t) {
        assert((a + b)[a.len() + b.index_of(t)] == t);
    }
    if (a + b).contains(t) {
        let k = (a + b).index_of(t);
        if k < a.len() {
            assert(a[k] == t);
        } else {
            assert(b[k - a.len()] == t);
        }
    }
}

/// `distinct` keeps exactly the elements that occur.
pub proof fn lemma_distinct_contains<X>(s: Seq<X>, x: X)
    ensures
        distinct(s).contains(x) <==> s.contains(x),
    decreases s.len(),
{
    if s.len() > 0 {
        lemma_distinct_contains(s.drop_last(), x);
        assert(s.drop_last().push(s.last()) =~= s);
        lemma_contains_push(s.drop_last(), s.last(), x);
        lemma_contains_push(distinct(s.drop_last()), s.last(), x);
    }
}

/// `distinct` leaves no repetition.
pub proof fn lemma_distinct_no_duplicates<X>(s: Seq<X>)
    ensures
        distinct(s).no_duplicates(),
    decreases s.len(),
{
    if s.len() > 0 {
        lemma_distinct_no_duplicates(s.drop_last());
    }
}

/// What an added element does to the distinct elements.
pub proof fn lemma_distinct_push<X>(s: Seq<X>, x: X)
    ensures
        distinct(s.push(x)) == if s.contains(x) {
            distinct(s)
        } else {
            distinct(s).push(x)
        },
{
    assert(s.push(x).drop_last() =~= s);
    lemma_distinct_contains(s, x);
}

/// A sequence without repetition is left as it is.
pub proof fn lemma_distinct_of_distinct<X>(s: Seq<X>)
    requires
        s.no_duplicates(),
    ensures
        distinct(s) == s,
    decreases s.len(),
{
    if s.len() > 0 {
        lemma_distinct_of_distinct(s.drop_last());
        assert(!s.drop_last().contains(s.last()));
        assert(s.drop_last().push(s.last()) =~= s);
    }
}

/// Repetitions in what is appended make no difference.
pub proof fn lemma_distinct_absorbs<X>(a: Seq<X>, b: Seq<X>)
    ensures
        distinct(a + distinct(b)) == distinct(a + b),
    decreases b.len(),
{
    if b.len() > 0 {
        let c = b.drop_last();
        let x = b.last();
        lemma_distinct_absorbs(a, c);
        assert(a + b =~= (a + c).push(x));
        lemma_distinct_push(a + c, x);
        lemma_distinct_contains(c, x);
        lemma_contains_add(a, c, x);
        if !distinct(c).contains(x) {
            assert(a + distinct(b) =~= (a + distinct(c)).push(x));
            lemma_distinct_push(a + distinct(c), x);
            lemma_contains_add(a, distinct(c), x);
        }
    }
}

/// Appending what is already there makes no difference.
pub proof fn lemma_distinct_add_known<X>(a: Seq<X>, b: Seq<X>)
    requires
        forall|x: X| b.contains(x) ==> a.contains(x),
    ensures
        distinct(a + b) == distinct(a),
    decreases b.len(),
{
    if b.len() == 0 {
        assert(a + b =~= a);
    } else {
        let c = b.drop_last();
        assert forall|x: X| c.contains(x) implies a.contains(x) by {
            assert(b[c.index_of(x)] == x);
        }
        lemma_distinct_add_known(a, c);
        assert(b[b.len() - 1] == b.last());
        assert(a + b =~= (a + c).push(b.last()));
        lemma_distinct_push(a + c, b.last());
        lemma_contains_add(a, c, b.last());
    }
}

/// What comes first stays first.
pub proof fn lemma_distinct_prefix<X>(a: Seq<X>, b: Seq<X>)
    ensures
        distinct(a).len() <= distinct(a + b).len(),
        distinct(a + b).take(distinct(a).len() as int) == distinct(a),
    decreases b.len(),
{
    let l = distinct(a).len() as int;
    if b.len() == 0 {
        assert(a + b =~= a);
        assert(distinct(a).take(l) =~= distinct(a));
    } else {
        lemma_distinct_prefix(a, b.drop_last());
        assert(a + b =~= (a + b.drop_last()).push(b.last()));
        lemma_distinct_push(a + b.drop_last(), b.last());
        assert(distinct(a + b).take(l) =~= distinct(a + b.drop_last()).take(l));
    }
}

/// A sequence without repetition whose elements all occur in `t` is no longer than `t`. If it
/// is as long and `t` has no repetition either, both have the same elements.
pub proof fn lemma_no_longer<X>(s: Seq<X>, t: Seq<X>)
    requires
        s.no_duplicates(),
        forall|x: X| #[trigger] s.contains(x) ==> t.contains(x),
    ensures
        s.len() <= t.len(),
        t.no_duplicates() && s.len() == t.len() ==> forall|x: X| #[trigger]
            t.contains(x) ==> s.contains(x),
{
    broadcast use vstd::seq_lib::seq_to_set_is_finite;

    s.unique_seq_to_set();
    t.lemma_cardinality_of_set();
    assert(s.to_set().subset_of(t.to_set())) by {
        assert forall|x: X| s.to_set().contains(x) implies t.to_set().contains(x) by {
            assert(s.contains(x));
        }
    }
    vstd::set_lib::lemma_len_subset(s.to_set(), t.to_set());
    if t.no_duplicates() && s.len() == t.len() {
        t.unique_seq_to_set();
        vstd::set_lib::lemma_subset_equality(s.to_set(), t.to_set());
        assert forall|x: X| #[trigger] t.contains(x) implies s.contains(x) by {
            assert(t.to_set().contains(x));
            assert(s.to_set().contains(x));
        }
    }
}

/// What is listed under `n` once a pair is added.
pub proof fn lemma_ends_push<X, Y>(pairs: Seq<(X, Y)>, p: X, c: Y, n: X)
    ensures
        ends_of(pairs.push((p, c)), n) == if p == n {
            ends_of(pairs, n).push(c)
        } else {
            ends_of(pairs, n)
        },
{
    reveal(Seq::filter);
    assert(pairs.push((p, c)).drop_last() =~= pairs);
    assert(ends_of(pairs.push((p, c)), n) =~= if p == n {
        ends_of(pairs, n).push(c)
    } else {
        ends_of(pairs, n)
    });
}

/// What two lists of pairs list under `n` together.
pub proof fn lemma_ends_add<X, Y>(a: Seq<(X, Y)>, b: Seq<(X, Y)>, n: X)
    ensures
        ends_of(a + b, n) == ends_of(a, n) + ends_of(b, n),
{
    let starts = |e: (X, Y)| e.0 == n;
    Seq::filter_distributes_over_add(a, b, starts);
    assert(ends_of(a + b, n) =~= ends_of(a, n) + ends_of(b, n));
}

/// What is listed under `n`.
pub proof fn lemma_ends_contains<X, Y>(pairs: Seq<(X, Y)>, n: X, c: Y)
    ensures
        ends_of(pairs, n).contains(c) <==> pairs.contains((n, c)),
    decreases pairs.len(),
{
    if pairs.len() == 0 {
        reveal(Seq::filter);
        assert(ends_of(pairs, n).len() == 0);
    } else {
        let q = pairs.drop_last();
        let e = pairs.last();
        lemma_ends_contains(q, n, c);
        assert(q.push(e) =~= pairs);
        lemma_ends_push(q, e.0, e.1, n);
        lemma_contains_push(q, e, (n, c));
        lemma_contains_push(ends_of(q, n), e.1, c);
    }
}

/// What a filter keeps.
pub proof fn lemma_filter_contains<X>(s: Seq<X>, pred: spec_fn(X) -> bool, x: X)
    ensures
        s.filter(pred).contains(x) <==> s.contains(x) && pred(x),
{
    if s.contains(x) && pred(x) {
        s.lemma_filter_contains(pred, s.index_of(x));
    }
    if s.filter(pred).contains(x) {
        s.lemma_filter_contains_rev(pred, x);
        s.lemma_filter_pred(pred, s.filter(pred).index_of(x));
    }
}

/// A filter that keeps every element changes nothing.
pub proof fn lemma_filter_all<X>(s: Seq<X>, pred: spec_fn(X) -> bool)
    requires
        forall|x: X| #[trigger] s.contains(x) ==> pred(x),
    ensures
        s.filter(pred) == s,
    decreases s.len(),
{
    reveal(Seq::filter);
    if s.len() > 0 {
        let t = s.drop_last();
        assert forall|x: X| #[trigger] t.contains(x) implies pred(x) by {
            assert(s[t.index_of(x)] == x);
            assert(s.contains(x));
        }
        lemma_filter_all(t, pred);
        assert(s.contains(s.last()));
        assert(t.push(s.last()) =~= s);
    }
}

/// A filter repeats nothing that was not repeated.
pub proof fn lemma_filter_no_duplicates<X>(s: Seq<X>, pred: spec_fn(X) -> bool)
    requires
        s.no_duplicates(),
    ensures
        s.filter(pred).no_duplicates(),
    decreases s.len(),
{
    reveal(Seq::filter);
    if s.len() > 0 {
        lemma_filter_no_duplicates(s.drop_last(), pred);
        lemma_filter_contains(s.drop_last(), pred, s.last());
    }
}

/// What a concatenation of parts holds.
pub proof fn lemma_flat_contains<X, Y>(s: Seq<X>, f: spec_fn(X) -> Seq<Y>, y: Y)
    ensures
        s.flat_map(f).contains(y) <==> exists|x: X| s.contains(x) && #[trigger] f(x).contains(y),
    decreases s.len(),
{
    if s.len() == 0 {
        assert(s.flat_map(f) =~= Seq::<Y>::empty());
    } else {
        let t = s.drop_last();
        let l = s.last();
        assert(t.push(l) =~= s);
        lemma_flat_contains(t, f, y);
        t.lemma_flat_map_push(f, l);
        lemma_contains_add(t.flat_map(f), f(l), y);
        assert forall|x: X| t.contains(x) implies s.contains(x) by {
            lemma_contains_push(t, l, x);
        }
        assert(s.contains(l)) by {
            lemma_contains_push(t, l, l);
        }
        if exists|x: X| s.contains(x) && #[trigger] f(x).contains(y) {
            let x = choose|x: X| s.contains(x) && #[trigger] f(x).contains(y);
            lemma_contains_push(t, l, x);
        }
        if s.flat_map(f).contains(y) && t.flat_map(f).contains(y) {
            let x = choose|x: X| t.contains(x) && #[trigger] f(x).contains(y);
            assert(s.contains(x) && f(x).contains(y));
        }
    }
}

/// A concatenation of the parts of two sequences.
pub proof fn lemma_flat_add<X, Y>(a: Seq<X>, b: Seq<X>, f: spec_fn(X) -> Seq<Y>)
    ensures
        (a + b).flat_map(f) == a.flat_map(f) + b.flat_map(f),
{
    assert((a + b).map_values(f) =~= a.map_values(f) + b.map_values(f));
    vstd::seq_lib::lemma_flatten_concat(a.map_values(f), b.map_values(f));
}

/// A concatenation of parts, split at one of them.
pub proof fn lemma_flat_split<X, Y>(s: Seq<X>, f: spec_fn(X) -> Seq<Y>, i: int)
    requires
        0 <= i < s.len(),
    ensures
        s.flat_map(f) == s.take(i).flat_map(f) + f(s[i]) + s.skip(i + 1).flat_map(f),
{
    let a = s.take(i + 1);
    let b = s.skip(i + 1);
    assert(s =~= a + b);
    lemma_flat_add(a, b, f);
    s.lemma_flat_map_take_append(f, i);
}

} // verus!
