//! A stable insertion sort, given as a specification-level function together
//! with the lemmas the canonicalizer needs: the result is sorted, it is a
//! permutation of the input, sorting is idempotent, and an element is
//! inserted at the first position where it fits (which is what the
//! executable sorts do).

use vstd::prelude::*;
use vstd::multiset::Multiset;
use vstd::relations::sorted_by;

verus! {

/// `x` inserted in front of the first element of `s` it is `leq` to.
pub open spec fn insert_by<T>(leq: spec_fn(T, T) -> bool, x: T, s: Seq<T>) -> Seq<T>
    decreases s.len(),
{
    if s.len() == 0 {
        seq![x]
    } else if leq(x, s[0]) {
        seq![x] + s
    } else {
        seq![s[0]] + insert_by(leq, x, s.drop_first())
    }
}

/// Insertion sort. It is stable: an element is placed before the
/// elements equal to it that follow it in the input.
pub open spec fn sort_by_insertion<T>(leq: spec_fn(T, T) -> bool, s: Seq<T>) -> Seq<T>
    decreases s.len(),
{
    if s.len() == 0 {
        s
    } else {
        insert_by(leq, s[0], sort_by_insertion(leq, s.drop_first()))
    }
}

pub proof fn lemma_insert_by_multiset<T>(leq: spec_fn(T, T) -> bool, x: T, s: Seq<T>)
    ensures
        insert_by(leq, x, s).len() == s.len() + 1,
        insert_by(leq, x, s).to_multiset() == s.to_multiset().insert(x),
    decreases s.len(),
{
    broadcast use vstd::seq_lib::group_to_multiset_ensures;

    if s.len() == 0 {
        assert(insert_by(leq, x, s) =~= Seq::empty().push(x));
        assert(s.to_multiset() =~= Multiset::empty());
        assert(insert_by(leq, x, s).to_multiset() =~= s.to_multiset().insert(x));
    } else if leq(x, s[0]) {
        assert(insert_by(leq, x, s) =~= s.insert(0, x));
        vstd::seq_lib::to_multiset_insert(s, 0, x);
    } else {
        lemma_insert_by_multiset(leq, x, s.drop_first());
        let r = insert_by(leq, x, s.drop_first());
        assert(insert_by(leq, x, s) =~= (seq![s[0]] + r));
        assert(seq![s[0]] + r =~= r.insert(0, s[0]));
        vstd::seq_lib::to_multiset_insert(r, 0, s[0]);
        assert(s =~= s.drop_first().insert(0, s[0]));
        vstd::seq_lib::to_multiset_insert(s.drop_first(), 0, s[0]);
        assert(insert_by(leq, x, s).to_multiset() =~= s.to_multiset().insert(x));
    }
}

pub proof fn lemma_insert_by_sorted<T>(leq: spec_fn(T, T) -> bool, x: T, s: Seq<T>)
    requires
        sorted_by(s, leq),
        vstd::relations::strongly_connected(leq),
        vstd::relations::transitive(leq),
    ensures
        sorted_by(insert_by(leq, x, s), leq),
    decreases s.len(),
{
    broadcast use vstd::seq_lib::group_to_multiset_ensures;

    if s.len() == 0 {
    } else if leq(x, s[0]) {
        let r = seq![x] + s;
        assert forall|i: int, j: int| 0 <= i < j < r.len() implies leq(r[i], r[j]) by {
            if i == 0 {
                if j > 1 {
                    assert(leq(s[0], s[j - 1]));
                }
            }
        }
    } else {
        assert(sorted_by(s.drop_first(), leq)) by {
            assert forall|i: int, j: int|
                0 <= i < j < s.drop_first().len() implies leq(
                s.drop_first()[i],
                s.drop_first()[j],
            ) by {
                assert(s.drop_first()[i] == s[i + 1]);
                assert(s.drop_first()[j] == s[j + 1]);
            }
        }
        lemma_insert_by_sorted(leq, x, s.drop_first());
        lemma_insert_by_multiset(leq, x, s.drop_first());
        let r0 = insert_by(leq, x, s.drop_first());
        let r = seq![s[0]] + r0;
        // s[0] is below x (by totality) and below every element of the tail.
        assert(leq(s[0], x));
        assert forall|i: int, j: int| 0 <= i < j < r.len() implies leq(r[i], r[j]) by {
            if i == 0 {
                let y = r[j];
                assert(r0.contains(y)) by {
                    assert(r0[j - 1] == y);
                }
                assert(r0.to_multiset().contains(y));
                if y == x {
                } else {
                    assert(s.drop_first().to_multiset().contains(y));
                    assert(s.drop_first().contains(y));
                    let k = choose|k: int|
                        0 <= k < s.drop_first().len() && s.drop_first()[k] == y;
                    assert(s[k + 1] == y);
                    assert(leq(s[0], y));
                }
            } else {
                assert(r[i] == r0[i - 1]);
                assert(r[j] == r0[j - 1]);
            }
        }
    }
}

pub proof fn lemma_sort_by_insertion_ensures<T>(leq: spec_fn(T, T) -> bool, s: Seq<T>)
    requires
        vstd::relations::strongly_connected(leq),
        vstd::relations::transitive(leq),
    ensures
        sorted_by(sort_by_insertion(leq, s), leq),
        sort_by_insertion(leq, s).len() == s.len(),
        sort_by_insertion(leq, s).to_multiset() == s.to_multiset(),
    decreases s.len(),
{
    broadcast use vstd::seq_lib::group_to_multiset_ensures;

    if s.len() == 0 {
    } else {
        lemma_sort_by_insertion_ensures(leq, s.drop_first());
        lemma_insert_by_sorted(leq, s[0], sort_by_insertion(leq, s.drop_first()));
        lemma_insert_by_multiset(leq, s[0], sort_by_insertion(leq, s.drop_first()));
        assert(s =~= s.drop_first().insert(0, s[0]));
        vstd::seq_lib::to_multiset_insert(s.drop_first(), 0, s[0]);
    }
}

/// Sorting a sorted sequence leaves it unchanged: canonicalization is
/// idempotent.
pub proof fn lemma_sort_by_insertion_idempotent<T>(leq: spec_fn(T, T) -> bool, s: Seq<T>)
    requires
        sorted_by(s, leq),
    ensures
        sort_by_insertion(leq, s) == s,
    decreases s.len(),
{
    if s.len() > 0 {
        let rest = s.drop_first();
        assert(sorted_by(rest, leq)) by {
            assert forall|i: int, j: int| 0 <= i < j < rest.len() implies leq(rest[i], rest[j]) by {
                assert(rest[i] == s[i + 1]);
                assert(rest[j] == s[j + 1]);
            }
        }
        lemma_sort_by_insertion_idempotent(leq, rest);
        if rest.len() == 0 {
            assert(sort_by_insertion(leq, s) =~= s);
        } else {
            assert(leq(s[0], rest[0]));
            assert(sort_by_insertion(leq, s) =~= seq![s[0]] + rest);
            assert(seq![s[0]] + rest =~= s);
        }
    }
}

/// Where the executable code puts the element: at the first index `j`
/// whose element `x` is `leq` to.
pub proof fn lemma_insert_by_at<T>(leq: spec_fn(T, T) -> bool, x: T, s: Seq<T>, j: int)
    requires
        0 <= j <= s.len(),
        forall|k: int| 0 <= k < j ==> !leq(x, s[k]),
        j < s.len() ==> leq(x, s[j]),
    ensures
        insert_by(leq, x, s) == s.take(j) + seq![x] + s.skip(j),
    decreases j,
{
    if j == 0 {
        if s.len() == 0 {
            assert(insert_by(leq, x, s) =~= s.take(0) + seq![x] + s.skip(0));
        } else {
            assert(insert_by(leq, x, s) =~= s.take(0) + seq![x] + s.skip(0));
        }
    } else {
        lemma_insert_by_at(leq, x, s.drop_first(), j - 1);
        assert(insert_by(leq, x, s) == seq![s[0]] + insert_by(leq, x, s.drop_first()));
        assert(seq![s[0]] + (s.drop_first().take(j - 1) + seq![x] + s.drop_first().skip(j - 1))
            =~= s.take(j) + seq![x] + s.skip(j));
    }
}

} // verus!
