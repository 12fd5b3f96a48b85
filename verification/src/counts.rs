//! Follower counts: finite maps from a word to the number of times it was seen.

use vstd::prelude::*;
use vstd::multiset::Multiset;

verus! {

/// The number of observations a count map records: the sum of its counts.
pub open spec fn total<K>(m: Map<K, nat>) -> nat {
    Multiset::from_map(m).len()
}

/// The count of `k` in `m`; zero where `m` does not mention `k`.
pub open spec fn count_of<K>(m: Map<K, nat>, k: K) -> nat {
    if m.dom().contains(k) {
        m[k]
    } else {
        0
    }
}

/// The map that counts each word as often as `x` and `y` do together.
pub open spec fn add_counts<K>(x: Map<K, nat>, y: Map<K, nat>) -> Map<K, nat> {
    Map::new(
        |k: K| x.dom().contains(k) || y.dom().contains(k),
        |k: K| count_of(x, k) + count_of(y, k),
    )
}

/// A count map is sound when it is finite and records no word with count zero.
pub open spec fn positive_counts<K>(m: Map<K, nat>) -> bool {
    &&& m.dom().finite()
    &&& forall|k: K| m.dom().contains(k) ==> #[trigger] m[k] >= 1
}

pub proof fn lemma_total_empty<K>()
    ensures
        total(Map::<K, nat>::empty()) == 0,
{
    assert(Multiset::from_map(Map::<K, nat>::empty()) =~= Multiset::<K>::empty());
}

proof fn lemma_total_single<K>(k: K, c: nat)
    ensures
        total(Map::<K, nat>::empty().insert(k, c)) == c,
    decreases c,
{
    let one = Map::<K, nat>::empty().insert(k, c);
    if c == 0 {
        assert(Multiset::from_map(one) =~= Multiset::<K>::empty());
    } else {
        let less = Map::<K, nat>::empty().insert(k, (c - 1) as nat);
        lemma_total_single(k, (c - 1) as nat);
        assert(Multiset::from_map(one) =~= Multiset::from_map(less).insert(k));
    }
}

/// Adding the maps adds the totals.
pub proof fn lemma_total_add<K>(x: Map<K, nat>, y: Map<K, nat>)
    requires
        x.dom().finite(),
        y.dom().finite(),
    ensures
        add_counts(x, y).dom().finite(),
        total(add_counts(x, y)) == total(x) + total(y),
{
    assert(add_counts(x, y).dom() =~= x.dom().union(y.dom()));
    assert(Multiset::from_map(add_counts(x, y)) =~= Multiset::from_map(x).add(
        Multiset::from_map(y),
    ));
}

/// A new word with count `c` raises the total by `c`.
pub proof fn lemma_total_insert<K>(m: Map<K, nat>, k: K, c: nat)
    requires
        m.dom().finite(),
        !m.dom().contains(k),
    ensures
        total(m.insert(k, c)) == total(m) + c,
{
    let one = Map::<K, nat>::empty().insert(k, c);
    lemma_total_single(k, c);
    lemma_total_add(m, one);
    assert(add_counts(m, one) =~= m.insert(k, c));
}

/// Overwriting the count of a word changes the total by the difference.
pub proof fn lemma_total_update<K>(m: Map<K, nat>, k: K, c: nat)
    requires
        m.dom().finite(),
        m.dom().contains(k),
    ensures
        total(m.insert(k, c)) + m[k] == total(m) + c,
{
    let rest = m.remove(k);
    lemma_total_insert(rest, k, c);
    lemma_total_insert(rest, k, m[k]);
    assert(rest.insert(k, c) =~= m.insert(k, c));
    assert(rest.insert(k, m[k]) =~= m);
}

/// Restricting a count map to some words cannot raise its total.
pub proof fn lemma_total_restrict<K>(m: Map<K, nat>, keep: Set<K>)
    requires
        m.dom().finite(),
    ensures
        total(m.restrict(keep)) <= total(m),
        m.dom().subset_of(keep) ==> total(m.restrict(keep)) == total(m),
{
    let inside = m.restrict(keep);
    let outside = m.remove_keys(keep);
    assert(inside.dom().subset_of(m.dom()));
    assert(outside.dom().subset_of(m.dom()));
    vstd::set_lib::lemma_len_subset(inside.dom(), m.dom());
    vstd::set_lib::lemma_len_subset(outside.dom(), m.dom());
    lemma_total_add(inside, outside);
    assert(add_counts(inside, outside) =~= m);
    if m.dom().subset_of(keep) {
        assert(inside =~= m);
    }
}

/// A sound count map that mentions a word has a positive total.
pub proof fn lemma_total_positive<K>(m: Map<K, nat>, k: K)
    requires
        positive_counts(m),
        m.dom().contains(k),
    ensures
        total(m) >= m[k] >= 1,
{
    assert(Multiset::from_map(m).count(k) == m[k]);
}

/// How the total over the words in `keep` grows with a new word.
pub proof fn lemma_total_restrict_insert<K>(m: Map<K, nat>, keep: Set<K>, k: K, c: nat)
    requires
        m.dom().finite(),
        !m.dom().contains(k),
    ensures
        total(m.insert(k, c).restrict(keep)) == total(m.restrict(keep)) + if keep.contains(k) {
            c
        } else {
            0
        },
{
    let inside = m.restrict(keep);
    assert(inside.dom().subset_of(m.dom()));
    vstd::set_lib::lemma_len_subset(inside.dom(), m.dom());
    if keep.contains(k) {
        lemma_total_insert(inside, k, c);
        assert(m.insert(k, c).restrict(keep) =~= inside.insert(k, c));
    } else {
        assert(m.insert(k, c).restrict(keep) =~= inside);
    }
}

} // verus!
