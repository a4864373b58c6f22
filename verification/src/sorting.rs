//! Stable descending insertion sort, described as a recursive
//! specification with its ordering and permutation facts.
//!
//! An element is inserted behind every element whose key is at least
//! its own, so elements with equal keys keep their encounter order.
use vstd::prelude::*;
use vstd::seq_lib::lemma_multiset_commutative;

verus! {

/// Whether `s` is ordered by non-increasing key.
pub open spec fn sorted_desc_by<T>(s: Seq<T>, key: spec_fn(T) -> int) -> bool {
    forall|i: int, j: int| 0 <= i < j < s.len() ==> key(#[trigger] s[i]) >= key(#[trigger] s[j])
}

/// `x` placed into `s` before the first element whose key is strictly
/// below `key(x)`.
pub open spec fn insert_desc<T>(s: Seq<T>, x: T, key: spec_fn(T) -> int) -> Seq<T>
    decreases s.len(),
{
    if s.len() == 0 {
        seq![x]
    } else if key(x) > key(s[0]) {
        seq![x] + s
    } else {
        seq![s[0]] + insert_desc(s.drop_first(), x, key)
    }
}

/// `s` sorted by non-increasing key, stably: each element is inserted
/// behind the earlier elements of equal key.
pub open spec fn sort_desc<T>(s: Seq<T>, key: spec_fn(T) -> int) -> Seq<T>
    decreases s.len(),
{
    if s.len() == 0 {
        Seq::empty()
    } else {
        insert_desc(sort_desc(s.drop_last(), key), s.last(), key)
    }
}

/// Inserting into a sorted sequence at the position a left-to-right
/// scan finds puts the element exactly there.
pub proof fn lemma_insert_desc_at<T>(s: Seq<T>, x: T, key: spec_fn(T) -> int, j: int)
    requires
        0 <= j <= s.len(),
        forall|k: int| 0 <= k < j ==> key(#[trigger] s[k]) >= key(x),
        j < s.len() ==> key(x) > key(s[j]),
    ensures
        insert_desc(s, x, key) == s.subrange(0, j) + seq![x] + s.subrange(j, s.len() as int),
    decreases j,
{
    if j == 0 {
        if s.len() == 0 {
            assert(insert_desc(s, x, key) =~= s.subrange(0, 0) + seq![x] + s.subrange(
                0,
                s.len() as int,
            ));
        } else {
            assert(key(x) > key(s[0]));
            assert(insert_desc(s, x, key) =~= s.subrange(0, 0) + seq![x] + s.subrange(
                0,
                s.len() as int,
            ));
        }
    } else {
        assert(key(s[0]) >= key(x));
        let t = s.drop_first();
        assert(forall|k: int| 0 <= k < j - 1 ==> key(#[trigger] t[k]) >= key(x));
        lemma_insert_desc_at(t, x, key, j - 1);
        assert(seq![s[0]] + (t.subrange(0, j - 1) + seq![x] + t.subrange(j - 1, t.len() as int))
            =~= s.subrange(0, j) + seq![x] + s.subrange(j, s.len() as int));
    }
}

/// Insertion preserves descending order.
pub proof fn lemma_insert_desc_sorted<T>(s: Seq<T>, x: T, key: spec_fn(T) -> int)
    requires
        sorted_desc_by(s, key),
    ensures
        sorted_desc_by(insert_desc(s, x, key), key),
        insert_desc(s, x, key).len() == s.len() + 1,
    decreases s.len(),
{
    if s.len() == 0 {
    } else if key(x) > key(s[0]) {
        let r = seq![x] + s;
        assert forall|i: int, j: int| 0 <= i < j < r.len() implies key(#[trigger] r[i]) >= key(
            #[trigger] r[j],
        ) by {
            if i > 0 {
                assert(r[i] == s[i - 1] && r[j] == s[j - 1]);
            } else {
                assert(r[j] == s[j - 1]);
                if j > 1 {
                    assert(key(s[0]) >= key(s[j - 1]));
                }
            }
        }
    } else {
        let t = s.drop_first();
        assert(sorted_desc_by(t, key)) by {
            assert(forall|i: int, j: int|
                0 <= i < j < t.len() ==> key(#[trigger] t[i]) >= key(#[trigger] t[j]));
        }
        lemma_insert_desc_sorted(t, x, key);
        let it = insert_desc(t, x, key);
        let r = seq![s[0]] + it;
        assert(insert_desc(s, x, key) == r);
        assert forall|i: int, j: int| 0 <= i < j < r.len() implies key(#[trigger] r[i]) >= key(
            #[trigger] r[j],
        ) by {
            if i > 0 {
                assert(r[i] == it[i - 1] && r[j] == it[j - 1]);
            } else {
                assert(r[j] == it[j - 1]);
                lemma_insert_desc_member(t, x, key, j - 1);
                assert(key(s[0]) >= key(it[j - 1]));
            }
        }
    }
}

/// Every element of an insertion result is the inserted element or an
/// element of the sequence, so a key bound on both bounds the result.
pub proof fn lemma_insert_desc_member<T>(s: Seq<T>, x: T, key: spec_fn(T) -> int, m: int)
    requires
        0 <= m < insert_desc(s, x, key).len(),
    ensures
        insert_desc(s, x, key)[m] == x || exists|k: int|
            0 <= k < s.len() && insert_desc(s, x, key)[m] == s[k],
    decreases s.len(),
{
    if s.len() == 0 {
    } else if key(x) > key(s[0]) {
        if m > 0 {
            assert(insert_desc(s, x, key)[m] == s[m - 1]);
        }
    } else {
        if m > 0 {
            let t = s.drop_first();
            lemma_insert_desc_member(t, x, key, m - 1);
            assert(insert_desc(s, x, key)[m] == insert_desc(t, x, key)[m - 1]);
            if insert_desc(t, x, key)[m - 1] != x {
                let k = choose|k: int| 0 <= k < t.len() && insert_desc(t, x, key)[m - 1] == t[k];
                assert(t[k] == s[k + 1]);
            }
        } else {
            assert(insert_desc(s, x, key)[0] == s[0]);
        }
    }
}

/// Insertion adds exactly the inserted element to the contents.
pub proof fn lemma_insert_desc_multiset<T>(s: Seq<T>, x: T, key: spec_fn(T) -> int)
    ensures
        insert_desc(s, x, key).to_multiset() == s.to_multiset().insert(x),
    decreases s.len(),
{
    broadcast use vstd::seq_lib::group_to_multiset_ensures;

    if s.len() == 0 {
        assert(seq![x] =~= Seq::<T>::empty().push(x));
        assert(insert_desc(s, x, key).to_multiset() =~= s.to_multiset().insert(x));
    } else if key(x) > key(s[0]) {
        lemma_multiset_commutative(seq![x], s);
        assert(seq![x] =~= Seq::<T>::empty().push(x));
        assert(insert_desc(s, x, key).to_multiset() =~= s.to_multiset().insert(x));
    } else {
        let t = s.drop_first();
        lemma_insert_desc_multiset(t, x, key);
        lemma_multiset_commutative(seq![s[0]], insert_desc(t, x, key));
        lemma_multiset_commutative(seq![s[0]], t);
        assert(seq![s[0]] + t =~= s);
        assert(seq![s[0]] =~= Seq::<T>::empty().push(s[0]));
        assert(insert_desc(s, x, key).to_multiset() =~= s.to_multiset().insert(x));
    }
}

/// The sort orders by non-increasing key and keeps the contents.
pub proof fn lemma_sort_desc_props<T>(s: Seq<T>, key: spec_fn(T) -> int)
    ensures
        sorted_desc_by(sort_desc(s, key), key),
        sort_desc(s, key).to_multiset() == s.to_multiset(),
        sort_desc(s, key).len() == s.len(),
    decreases s.len(),
{
    broadcast use vstd::seq_lib::group_to_multiset_ensures;

    if s.len() == 0 {
    } else {
        let t = s.drop_last();
        lemma_sort_desc_props(t, key);
        lemma_insert_desc_sorted(sort_desc(t, key), s.last(), key);
        lemma_insert_desc_multiset(sort_desc(t, key), s.last(), key);
        assert(t.push(s.last()) =~= s);
        assert(s.to_multiset() == t.to_multiset().insert(s.last()));
    }
}

} // verus!
