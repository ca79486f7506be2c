//! A stable insertion sort at the specification level, shared by the three
//! orderings the library uses (slot restrictiveness, player points, and
//! standings). `sort_with` is a total function of its input, so every
//! contract stated with it is deterministic; the lemmas connect it to the
//! usual meaning of sorting: the output is ordered and is a permutation of
//! the input.

use vstd::prelude::*;

verus! {

/// `before` is a strict weak order: being strictly earlier is asymmetric,
/// and "not strictly earlier" chains. Every key-based comparison used in
/// this crate satisfies it.
pub open spec fn strict_weak_order<T>(before: spec_fn(T, T) -> bool) -> bool {
    &&& forall|a: T, b: T| #[trigger] before(a, b) ==> !before(b, a)
    &&& forall|a: T, b: T, c: T|
        #![trigger before(b, a), before(c, b)]
        !before(b, a) && !before(c, b) ==> !before(c, a)
}

/// No pair of positions is inverted with respect to `before`.
pub open spec fn sorted_with<T>(before: spec_fn(T, T) -> bool, s: Seq<T>) -> bool {
    forall|i: int, j: int|
        #![trigger s[i], s[j]]
        0 <= i < j < s.len() ==> !before(s[j], s[i])
}

/// Places `x` behind every element strictly before it; elements `x` is tied
/// with stay behind `x`, which keeps the sort stable.
pub open spec fn insert_sorted<T>(before: spec_fn(T, T) -> bool, x: T, s: Seq<T>) -> Seq<T>
    decreases s.len(),
{
    if s.len() == 0 {
        seq![x]
    } else if before(s[0], x) {
        seq![s[0]] + insert_sorted(before, x, s.drop_first())
    } else {
        seq![x] + s
    }
}

/// Stable insertion sort: earlier elements are inserted last, so of two tied
/// elements the one earlier in the input comes out earlier.
pub open spec fn sort_with<T>(before: spec_fn(T, T) -> bool, s: Seq<T>) -> Seq<T>
    decreases s.len(),
{
    if s.len() == 0 {
        s
    } else {
        insert_sorted(before, s[0], sort_with(before, s.drop_first()))
    }
}

/// Where `insert_sorted` puts `x`: at the first position `j` whose element
/// is not strictly before `x`, shifting the rest.
pub proof fn lemma_insert_sorted_at<T>(before: spec_fn(T, T) -> bool, x: T, s: Seq<T>, j: int)
    requires
        0 <= j <= s.len(),
        forall|k: int| 0 <= k < j ==> before(#[trigger] s[k], x),
        j < s.len() ==> !before(s[j], x),
    ensures
        insert_sorted(before, x, s) == s.subrange(0, j) + seq![x] + s.subrange(j, s.len() as int),
    decreases j,
{
    if j == 0 {
        if s.len() == 0 {
            assert(insert_sorted(before, x, s) =~= s.subrange(0, 0) + seq![x] + s.subrange(0, 0));
        } else {
            assert(insert_sorted(before, x, s) =~= s.subrange(0, 0) + seq![x] + s.subrange(0, s.len() as int));
        }
    } else {
        let rest = s.drop_first();
        assert(forall|k: int| 0 <= k < j - 1 ==> before(#[trigger] rest[k], x));
        lemma_insert_sorted_at(before, x, rest, j - 1);
        assert(insert_sorted(before, x, s) =~= s.subrange(0, j) + seq![x] + s.subrange(j, s.len() as int));
    }
}

/// Inserting into a sorted sequence keeps it sorted, and adds exactly `x`:
/// every element of the result is `x` or one of `s`.
pub proof fn lemma_insert_sorted_preserves<T>(before: spec_fn(T, T) -> bool, x: T, s: Seq<T>)
    requires
        strict_weak_order(before),
        sorted_with(before, s),
    ensures
        sorted_with(before, insert_sorted(before, x, s)),
        insert_sorted(before, x, s).to_multiset() == s.push(x).to_multiset(),
        insert_sorted(before, x, s).len() == s.len() + 1,
    decreases s.len(),
{
    broadcast use vstd::seq_lib::group_seq_properties;
    let out = insert_sorted(before, x, s);
    if s.len() == 0 {
        assert(out =~= seq![x]);
        assert(out.to_multiset() =~= s.push(x).to_multiset());
    } else if before(s[0], x) {
        let rest = s.drop_first();
        assert(sorted_with(before, rest));
        lemma_insert_sorted_preserves(before, x, rest);
        let inner = insert_sorted(before, x, rest);
        assert(out =~= seq![s[0]] + inner);
        // The head is not after any element of the inner result: those are
        // x itself or elements of rest, and the head preceded both.
        assert forall|i: int, j: int| 0 <= i < j < out.len() implies !before(out[j], out[i]) by {
            if i == 0 {
                let e = inner[j - 1];
                assert(inner.to_multiset() == rest.push(x).to_multiset());
                assert(inner.to_multiset().contains(e));
                assert(rest.push(x).contains(e));
                if e == x {
                    assert(!before(e, s[0]));
                } else {
                    let k = choose|k: int| 0 <= k < rest.len() && rest[k] == e;
                    assert(s[k + 1] == e);
                    assert(!before(e, s[0]));
                }
            } else {
                assert(!before(inner[j - 1], inner[i - 1]));
            }
        }
        assert(out.to_multiset() =~= s.push(x).to_multiset()) by {
            assert(out == seq![s[0]] + inner);
            vstd::seq_lib::lemma_multiset_commutative(seq![s[0]], inner);
            assert(out.to_multiset() == seq![s[0]].to_multiset().add(inner.to_multiset()));
            assert(s =~= seq![s[0]] + rest);
            vstd::seq_lib::lemma_multiset_commutative(seq![s[0]], rest);
            assert(s.push(x) =~= seq![s[0]] + rest.push(x));
            vstd::seq_lib::lemma_multiset_commutative(seq![s[0]], rest.push(x));
        }
    } else {
        assert(out =~= seq![x] + s);
        // x is not after any element: it is tied with or before the head,
        // and "not strictly earlier" chains down the sorted tail.
        assert forall|i: int, j: int| 0 <= i < j < out.len() implies !before(out[j], out[i]) by {
            if i == 0 {
                assert(!before(s[0], x));
                if j > 1 {
                    assert(!before(s[j - 1], s[0]));
                }
            } else {
                assert(!before(s[j - 1], s[i - 1]));
            }
        }
        assert(out.to_multiset() =~= s.push(x).to_multiset()) by {
            vstd::seq_lib::lemma_multiset_commutative(seq![x], s);
            assert(out.to_multiset() == seq![x].to_multiset().add(s.to_multiset()));
            assert(s.push(x) =~= s + seq![x]);
            vstd::seq_lib::lemma_multiset_commutative(s, seq![x]);
        }
    }
}

/// What sorting means: the result of `sort_with` is ordered by `before` and
/// holds exactly the input's elements.
pub proof fn lemma_sort_with_ensures<T>(before: spec_fn(T, T) -> bool, s: Seq<T>)
    requires
        strict_weak_order(before),
    ensures
        sorted_with(before, sort_with(before, s)),
        sort_with(before, s).to_multiset() == s.to_multiset(),
        sort_with(before, s).len() == s.len(),
    decreases s.len(),
{
    broadcast use vstd::seq_lib::group_seq_properties;
    if s.len() == 0 {
    } else {
        let rest = s.drop_first();
        lemma_sort_with_ensures(before, rest);
        lemma_insert_sorted_preserves(before, s[0], sort_with(before, rest));
        assert(sort_with(before, s).to_multiset() == s.to_multiset()) by {
            assert(sort_with(before, rest).push(s[0]).to_multiset()
                == sort_with(before, rest).to_multiset().insert(s[0]));
            assert(rest.push(s[0]).to_multiset() == rest.to_multiset().insert(s[0]));
            assert(s =~= seq![s[0]] + rest);
            vstd::seq_lib::lemma_multiset_commutative(seq![s[0]], rest);
            assert(rest.push(s[0]) =~= rest + seq![s[0]]);
            vstd::seq_lib::lemma_multiset_commutative(rest, seq![s[0]]);
        }
    }
}

} // verus!
