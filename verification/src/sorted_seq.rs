//! Specification vocabulary for in-order entry sequences.
//!
//! The tree's contracts describe its contents as a sequence of `(key, value)`
//! entries sorted by strictly increasing key. The spec functions here say what
//! "sorted" means, when a key occurs in such a sequence, and how many entries
//! lie strictly below a key (the rank). The lemmas relate those notions; in
//! particular, in a sorted sequence a present key sits exactly at its rank.

use vstd::prelude::*;

verus! {

/// The entry keys are strictly increasing.
pub open spec fn sorted_keys(s: Seq<(i64, i64)>) -> bool {
    forall|i: int, j: int| 0 <= i < j < s.len() ==> s[i].0 < s[j].0
}

/// Some entry of `s` carries the key `k`.
pub open spec fn seq_has_key(s: Seq<(i64, i64)>, k: i64) -> bool {
    exists|i: int| 0 <= i < s.len() && s[i].0 == k
}

/// How many entries of `s` have a key strictly below `k`.
pub open spec fn num_below(s: Seq<(i64, i64)>, k: i64) -> nat
    decreases s.len(),
{
    if s.len() == 0 {
        0
    } else {
        num_below(s.drop_last(), k) + if s.last().0 < k { 1nat } else { 0nat }
    }
}

/// The rank of a key never exceeds the sequence length.
pub proof fn lemma_num_below_le_len(s: Seq<(i64, i64)>, k: i64)
    ensures
        num_below(s, k) <= s.len(),
    decreases s.len(),
{
    if s.len() > 0 {
        lemma_num_below_le_len(s.drop_last(), k);
    }
}

/// Rank distributes over concatenation.
pub proof fn lemma_num_below_concat(a: Seq<(i64, i64)>, b: Seq<(i64, i64)>, k: i64)
    ensures
        num_below(a + b, k) == num_below(a, k) + num_below(b, k),
    decreases b.len(),
{
    if b.len() == 0 {
        assert(a + b =~= a);
    } else {
        lemma_num_below_concat(a, b.drop_last(), k);
        assert((a + b).drop_last() =~= a + b.drop_last());
        assert((a + b).last() == b.last());
    }
}

/// When every key of `s` is at least `k`, no entry lies below `k`.
pub proof fn lemma_num_below_none(s: Seq<(i64, i64)>, k: i64)
    requires
        forall|i: int| 0 <= i < s.len() ==> k <= #[trigger] s[i].0,
    ensures
        num_below(s, k) == 0,
    decreases s.len(),
{
    if s.len() > 0 {
        lemma_num_below_none(s.drop_last(), k);
    }
}

/// When every key of `s` is below `k`, all entries count.
pub proof fn lemma_num_below_all(s: Seq<(i64, i64)>, k: i64)
    requires
        forall|i: int| 0 <= i < s.len() ==> #[trigger] s[i].0 < k,
    ensures
        num_below(s, k) == s.len(),
    decreases s.len(),
{
    if s.len() > 0 {
        lemma_num_below_all(s.drop_last(), k);
    }
}

/// A sorted entry sequence is determined by which entries it holds: two
/// sorted sequences with the same entries are equal. Together with the
/// correspondence between a tree's map view and its in-order view, this
/// pins the in-order sequence an operation leaves behind.
pub proof fn lemma_sorted_seq_unique(s1: Seq<(i64, i64)>, s2: Seq<(i64, i64)>)
    requires
        sorted_keys(s1),
        sorted_keys(s2),
        forall|p: (i64, i64)| s1.contains(p) <==> s2.contains(p),
    ensures
        s1 == s2,
    decreases s1.len(),
{
    if s1.len() == 0 {
        if s2.len() > 0 {
            assert(s2.contains(s2[0]));
        }
        assert(s1 =~= s2);
    } else {
        assert(s1.contains(s1[0]));
        assert(s2.contains(s1[0]));
        let j = choose|j: int| 0 <= j < s2.len() && s2[j] == s1[0];
        assert(s2.contains(s2[0]));
        assert(s1.contains(s2[0]));
        let i = choose|i: int| 0 <= i < s1.len() && s1[i] == s2[0];
        assert(s1[0].0 <= s1[i].0 && s2[0].0 <= s2[j].0);
        assert(j == 0);
        let t1 = s1.drop_first();
        let t2 = s2.drop_first();
        assert forall|p: (i64, i64)| t1.contains(p) implies t2.contains(p) by {
            let k = choose|k: int| 0 <= k < t1.len() && t1[k] == p;
            assert(s1[k + 1] == p);
            assert(s1.contains(p));
            let m = choose|m: int| 0 <= m < s2.len() && s2[m] == p;
            assert(p.0 > s1[0].0);
            assert(m != 0);
            assert(t2[m - 1] == p);
        }
        assert forall|p: (i64, i64)| t2.contains(p) implies t1.contains(p) by {
            let k = choose|k: int| 0 <= k < t2.len() && t2[k] == p;
            assert(s2[k + 1] == p);
            assert(s2.contains(p));
            let m = choose|m: int| 0 <= m < s1.len() && s1[m] == p;
            assert(p.0 > s2[0].0);
            assert(m != 0);
            assert(t1[m - 1] == p);
        }
        lemma_sorted_seq_unique(t1, t2);
        assert forall|i: int| 1 <= i < s1.len() implies s1[i] == s2[i] by {
            assert(t1[i - 1] == s1[i]);
            assert(t2[i - 1] == s2[i]);
        }
        assert(s1 =~= s2);
    }
}

/// The elements of a key-only sequence are strictly increasing.
pub open spec fn sorted_ascending(s: Seq<i64>) -> bool {
    forall|i: int, j: int| 0 <= i < j < s.len() ==> s[i] < s[j]
}

/// Some element of `s` is `k`.
pub open spec fn has_elem(s: Seq<i64>, k: i64) -> bool {
    exists|i: int| 0 <= i < s.len() && s[i] == k
}

/// How many elements of `s` are strictly below `k`.
pub open spec fn num_elems_below(s: Seq<i64>, k: i64) -> nat
    decreases s.len(),
{
    if s.len() == 0 {
        0
    } else {
        num_elems_below(s.drop_last(), k) + if s.last() < k {
            1nat
        } else {
            0nat
        }
    }
}

/// Dropping the values of an entry sequence keeps the rank of every key.
pub proof fn lemma_num_elems_below_keys(s: Seq<(i64, i64)>, k: i64)
    ensures
        num_elems_below(s.map_values(|p: (i64, i64)| p.0), k) == num_below(s, k),
    decreases s.len(),
{
    let keys = s.map_values(|p: (i64, i64)| p.0);
    if s.len() > 0 {
        lemma_num_elems_below_keys(s.drop_last(), k);
        assert(keys.drop_last() =~= s.drop_last().map_values(|p: (i64, i64)| p.0));
        assert(keys.last() == s.last().0);
    }
}

/// In a sorted key sequence the elements below `k` form a prefix, so a
/// present element sits exactly at index `num_elems_below(s, k)`.
pub proof fn lemma_sorted_elem_at_rank(s: Seq<i64>, k: i64)
    requires
        sorted_ascending(s),
        has_elem(s, k),
    ensures
        num_elems_below(s, k) < s.len(),
        s[num_elems_below(s, k) as int] == k,
{
    let pairs = s.map_values(|x: i64| (x, 0i64));
    assert(pairs.map_values(|p: (i64, i64)| p.0) =~= s);
    lemma_num_elems_below_keys(pairs, k);
    let i = choose|i: int| 0 <= i < s.len() && s[i] == k;
    assert(pairs[i].0 == k);
    assert(seq_has_key(pairs, k));
    lemma_sorted_key_at_rank(pairs, k);
    assert(s[num_elems_below(s, k) as int] == pairs[num_below(pairs, k) as int].0);
}

/// In a sorted sequence the entries below a key `k` form a prefix, so a
/// present key sits exactly at index `num_below(s, k)`: rank and selection
/// round-trip.
pub proof fn lemma_sorted_key_at_rank(s: Seq<(i64, i64)>, k: i64)
    requires
        sorted_keys(s),
        seq_has_key(s, k),
    ensures
        num_below(s, k) < s.len(),
        s[num_below(s, k) as int].0 == k,
{
    let i = choose|i: int| 0 <= i < s.len() && s[i].0 == k;
    assert(s.subrange(0, i) + s.subrange(i, s.len() as int) =~= s);
    lemma_num_below_concat(s.subrange(0, i), s.subrange(i, s.len() as int), k);
    lemma_num_below_all(s.subrange(0, i), k);
    lemma_num_below_none(s.subrange(i, s.len() as int), k);
}

} // verus!
