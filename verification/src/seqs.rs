//! Sequence specifications used by the queries: the first element that
//! satisfies a predicate, keeping the elements that satisfy one, and a
//! stable ordering by insertion.
use vstd::prelude::*;

verus! {

/// The position of the first element of `s` that satisfies `p`.
pub open spec fn first_index<A>(s: Seq<A>, p: spec_fn(A) -> bool) -> Option<int>
    decreases s.len(),
{
    if s.len() == 0 {
        None
    } else if p(s[0]) {
        Some(0)
    } else {
        match first_index(s.drop_first(), p) {
            Some(i) => Some(i + 1),
            None => None,
        }
    }
}

/// The elements of `s` that satisfy `p`, in their order.
pub open spec fn keep<A>(s: Seq<A>, p: spec_fn(A) -> bool) -> Seq<A>
    decreases s.len(),
{
    if s.len() == 0 {
        Seq::empty()
    } else if p(s.last()) {
        keep(s.drop_last(), p).push(s.last())
    } else {
        keep(s.drop_last(), p)
    }
}

/// Inserts `x` into `sorted` just before the first element that `x`
/// strictly precedes, so that it lands after every element it does not
/// precede.
pub open spec fn insert_ordered<A>(sorted: Seq<A>, x: A, precedes: spec_fn(A, A) -> bool) -> Seq<A>
    decreases sorted.len(),
{
    if sorted.len() == 0 {
        seq![x]
    } else if precedes(x, sorted[0]) {
        seq![x] + sorted
    } else {
        seq![sorted[0]] + insert_ordered(sorted.drop_first(), x, precedes)
    }
}

/// The stable ordering of `s` under `precedes`: elements that neither
/// precedes keep their relative order.
pub open spec fn order_by<A>(s: Seq<A>, precedes: spec_fn(A, A) -> bool) -> Seq<A>
    decreases s.len(),
{
    if s.len() == 0 {
        s
    } else {
        insert_ordered(order_by(s.drop_last(), precedes), s.last(), precedes)
    }
}

pub proof fn lemma_first_index<A>(s: Seq<A>, p: spec_fn(A) -> bool)
    ensures
        match first_index(s, p) {
            Some(i) => 0 <= i < s.len() && p(s[i]) && forall|j: int| 0 <= j < i ==> !p(#[trigger] s[j]),
            None => forall|j: int| 0 <= j < s.len() ==> !p(#[trigger] s[j]),
        },
    decreases s.len(),
{
    if s.len() > 0 && !p(s[0]) {
        lemma_first_index(s.drop_first(), p);
        match first_index(s.drop_first(), p) {
            Some(i) => {
                assert forall|j: int| 0 <= j < i + 1 implies !p(#[trigger] s[j]) by {
                    if j > 0 {
                        assert(s[j] == s.drop_first()[j - 1]);
                    }
                }
            },
            None => {
                assert forall|j: int| 0 <= j < s.len() implies !p(#[trigger] s[j]) by {
                    if j > 0 {
                        assert(s[j] == s.drop_first()[j - 1]);
                    }
                }
            },
        }
    }
}

/// The first index is determined by where the predicate first holds.
pub proof fn lemma_first_index_at<A>(s: Seq<A>, p: spec_fn(A) -> bool, i: int)
    requires
        0 <= i < s.len(),
        p(s[i]),
        forall|j: int| 0 <= j < i ==> !p(#[trigger] s[j]),
    ensures
        first_index(s, p) == Some(i),
{
    lemma_first_index(s, p);
    match first_index(s, p) {
        Some(k) => {
            if k < i {
                assert(!p(s[k]));
            } else if k > i {
                assert(!p(s[i]));
            }
        },
        None => {
            assert(!p(s[i]));
        },
    }
}

pub proof fn lemma_first_index_none<A>(s: Seq<A>, p: spec_fn(A) -> bool)
    requires
        forall|j: int| 0 <= j < s.len() ==> !p(#[trigger] s[j]),
    ensures
        first_index(s, p) is None,
{
    lemma_first_index(s, p);
    match first_index(s, p) {
        Some(k) => {
            assert(!p(s[k]));
        },
        None => {},
    }
}

/// Keeping elements of a prefix one longer adds the next element when it
/// satisfies the predicate.
pub proof fn lemma_keep_take_succ<A>(s: Seq<A>, p: spec_fn(A) -> bool, i: int)
    requires
        0 <= i < s.len(),
    ensures
        keep(s.take(i + 1), p) == if p(s[i]) { keep(s.take(i), p).push(s[i]) } else { keep(s.take(i), p) },
{
    assert(s.take(i + 1).drop_last() =~= s.take(i));
    assert(s.take(i + 1).last() == s[i]);
}

/// Ordering a sequence one element longer inserts that element into the
/// ordering of the rest.
pub proof fn lemma_order_by_push<A>(s: Seq<A>, x: A, precedes: spec_fn(A, A) -> bool)
    ensures
        order_by(s.push(x), precedes) == insert_ordered(order_by(s, precedes), x, precedes),
{
    assert(s.push(x).drop_last() =~= s);
    assert(s.push(x).last() == x);
}

/// Inserting in order is inserting at the first position whose element
/// the new element precedes, or at the end.
pub proof fn lemma_insert_ordered_at<A>(sorted: Seq<A>, x: A, precedes: spec_fn(A, A) -> bool, k: int)
    requires
        0 <= k <= sorted.len(),
        forall|j: int| 0 <= j < k ==> !precedes(x, #[trigger] sorted[j]),
        k < sorted.len() ==> precedes(x, sorted[k]),
    ensures
        insert_ordered(sorted, x, precedes) == sorted.insert(k, x),
    decreases sorted.len(),
{
    if sorted.len() == 0 {
        assert(sorted.insert(k, x) =~= seq![x]);
    } else if k == 0 {
        assert(sorted.insert(0, x) =~= seq![x] + sorted);
    } else {
        assert(!precedes(x, sorted[0]));
        let rest = sorted.drop_first();
        assert forall|j: int| 0 <= j < k - 1 implies !precedes(x, #[trigger] rest[j]) by {
            assert(rest[j] == sorted[j + 1]);
        }
        if k - 1 < rest.len() {
            assert(rest[k - 1] == sorted[k]);
        }
        lemma_insert_ordered_at(rest, x, precedes, k - 1);
        assert(seq![sorted[0]] + rest.insert(k - 1, x) =~= sorted.insert(k, x));
    }
}

/// Every element of a kept sequence satisfies the predicate and comes
/// from the input sequence.
pub proof fn lemma_keep_elements<A>(s: Seq<A>, p: spec_fn(A) -> bool)
    ensures
        forall|k: int| 0 <= k < keep(s, p).len() ==> p(#[trigger] keep(s, p)[k]) && s.contains(keep(s, p)[k]),
        keep(s, p).len() <= s.len(),
    decreases s.len(),
{
    if s.len() > 0 {
        lemma_keep_elements(s.drop_last(), p);
        let prev = keep(s.drop_last(), p);
        assert forall|k: int| 0 <= k < keep(s, p).len() implies p(#[trigger] keep(s, p)[k]) && s.contains(keep(s, p)[k]) by {
            if k < prev.len() {
                assert(keep(s, p)[k] == prev[k]);
                let e = prev[k];
                assert(s.drop_last().contains(e));
                let w = choose|w: int| 0 <= w < s.drop_last().len() && s.drop_last()[w] == e;
                assert(s[w] == e);
            } else {
                assert(keep(s, p)[k] == s.last());
                assert(s[s.len() - 1] == s.last());
            }
        }
    }
}

/// An element that satisfies the predicate is kept.
pub proof fn lemma_keep_contains<A>(s: Seq<A>, p: spec_fn(A) -> bool, i: int)
    requires
        0 <= i < s.len(),
        p(s[i]),
    ensures
        keep(s, p).contains(s[i]),
    decreases s.len(),
{
    if i == s.len() - 1 {
        assert(keep(s, p).last() == s[i]);
        assert(keep(s, p)[keep(s, p).len() - 1] == s[i]);
    } else {
        lemma_keep_contains(s.drop_last(), p, i);
        assert(s.drop_last()[i] == s[i]);
        let prev = keep(s.drop_last(), p);
        let w = choose|w: int| 0 <= w < prev.len() && prev[w] == s[i];
        if p(s.last()) {
            assert(keep(s, p)[w] == prev[w]);
        }
    }
}

/// The ordering is a rearrangement: it holds the same elements the same
/// number of times.
pub proof fn lemma_order_by_multiset<A>(s: Seq<A>, precedes: spec_fn(A, A) -> bool)
    ensures
        order_by(s, precedes).to_multiset() == s.to_multiset(),
    decreases s.len(),
{
    broadcast use vstd::seq_lib::group_to_multiset_ensures;
    if s.len() > 0 {
        lemma_order_by_multiset(s.drop_last(), precedes);
        lemma_insert_ordered_multiset(order_by(s.drop_last(), precedes), s.last(), precedes);
        assert(s =~= s.drop_last().push(s.last()));
    }
}

pub proof fn lemma_insert_ordered_multiset<A>(sorted: Seq<A>, x: A, precedes: spec_fn(A, A) -> bool)
    ensures
        insert_ordered(sorted, x, precedes).to_multiset() == sorted.to_multiset().insert(x),
    decreases sorted.len(),
{
    broadcast use vstd::seq_lib::group_to_multiset_ensures;
    if sorted.len() == 0 {
        assert(seq![x] =~= Seq::<A>::empty().push(x));
    } else if precedes(x, sorted[0]) {
        vstd::seq_lib::lemma_multiset_commutative(seq![x], sorted);
        assert(seq![x] =~= Seq::<A>::empty().push(x));
    } else {
        let rest = sorted.drop_first();
        lemma_insert_ordered_multiset(rest, x, precedes);
        vstd::seq_lib::lemma_multiset_commutative(seq![sorted[0]], insert_ordered(rest, x, precedes));
        vstd::seq_lib::lemma_multiset_commutative(seq![sorted[0]], rest);
        assert(seq![sorted[0]] + rest =~= sorted);
    }
}

/// The ordering puts no element after one that it strictly precedes,
/// provided that `precedes` is a strict weak order on the elements.
pub open spec fn strict_weak_order<A>(precedes: spec_fn(A, A) -> bool) -> bool {
    &&& forall|a: A| !#[trigger] precedes(a, a)
    &&& forall|a: A, b: A, c: A| #[trigger] precedes(a, b) && #[trigger] precedes(b, c) ==> precedes(a, c)
    &&& forall|a: A, b: A, c: A| !#[trigger] precedes(a, b) && !#[trigger] precedes(b, c) ==> !precedes(a, c)
}

pub open spec fn ordered<A>(s: Seq<A>, precedes: spec_fn(A, A) -> bool) -> bool {
    forall|i: int, j: int| 0 <= i < j < s.len() ==> !precedes(#[trigger] s[j], #[trigger] s[i])
}

pub proof fn lemma_insert_ordered_keeps_order<A>(sorted: Seq<A>, x: A, precedes: spec_fn(A, A) -> bool)
    requires
        strict_weak_order(precedes),
        ordered(sorted, precedes),
    ensures
        ordered(insert_ordered(sorted, x, precedes), precedes),
        insert_ordered(sorted, x, precedes).len() == sorted.len() + 1,
    decreases sorted.len(),
{
    let r = insert_ordered(sorted, x, precedes);
    if sorted.len() == 0 {
    } else if precedes(x, sorted[0]) {
        assert forall|i: int, j: int| 0 <= i < j < r.len() implies !precedes(#[trigger] r[j], #[trigger] r[i]) by {
            if i == 0 {
                // x precedes sorted[0], and no element of sorted precedes sorted[0]
                assert(r[j] == sorted[j - 1]);
                if j - 1 > 0 {
                    assert(!precedes(sorted[j - 1], sorted[0]));
                }
                if precedes(sorted[j - 1], x) {
                    assert(precedes(sorted[j - 1], sorted[0]));
                }
            } else {
                assert(r[i] == sorted[i - 1]);
                assert(r[j] == sorted[j - 1]);
            }
        }
    } else {
        let rest = sorted.drop_first();
        assert forall|i: int, j: int| 0 <= i < j < rest.len() implies !precedes(#[trigger] rest[j], #[trigger] rest[i]) by {
            assert(rest[i] == sorted[i + 1]);
            assert(rest[j] == sorted[j + 1]);
        }
        lemma_insert_ordered_keeps_order(rest, x, precedes);
        let t = insert_ordered(rest, x, precedes);
        lemma_insert_ordered_multiset(rest, x, precedes);
        assert forall|i: int, j: int| 0 <= i < j < r.len() implies !precedes(#[trigger] r[j], #[trigger] r[i]) by {
            if i == 0 {
                assert(r[0] == sorted[0]);
                assert(r[j] == t[j - 1]);
                // t[j-1] is x or an element of rest
                let e = t[j - 1];
                assert(t.to_multiset().count(e) > 0) by {
                    broadcast use vstd::seq_lib::group_to_multiset_ensures;
                    assert(t.contains(e));
                }
                if e != x {
                    assert(rest.to_multiset().count(e) > 0);
                    broadcast use vstd::seq_lib::group_to_multiset_ensures;
                    assert(rest.contains(e));
                    let w = choose|w: int| 0 <= w < rest.len() && rest[w] == e;
                    assert(sorted[w + 1] == e);
                }
            } else {
                assert(r[i] == t[i - 1]);
                assert(r[j] == t[j - 1]);
            }
        }
    }
}

/// The stable ordering is ordered.
pub proof fn lemma_order_by_ordered<A>(s: Seq<A>, precedes: spec_fn(A, A) -> bool)
    requires
        strict_weak_order(precedes),
    ensures
        ordered(order_by(s, precedes), precedes),
        order_by(s, precedes).len() == s.len(),
    decreases s.len(),
{
    if s.len() > 0 {
        lemma_order_by_ordered(s.drop_last(), precedes);
        lemma_insert_ordered_keeps_order(order_by(s.drop_last(), precedes), s.last(), precedes);
    }
}

} // verus!
