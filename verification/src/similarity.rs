//! Scoring how alike two models are.
//!
//! The score of two models is the mean, over the windows that both have, of
//! a fraction between zero and one. This module computes the fractions
//! exactly, as pairs of integers; dividing and averaging is left to callers
//! that work with floating point.

use vstd::prelude::*;
use crate::assoc::{has_key, lemma_assoc_dom, lemma_assoc_get};
use crate::chain::{
    count_pairs, counts_model, counts_wf, entry_pairs, find_entry, find_word,
    lemma_counts_sound, lemma_entries_sound, lemma_prefix_total, sound_model, words_model,
    ChainModel, Counts, Key, KeyLengthMismatch, Word, WordChain, WordCount,
};
use crate::counts::{
    lemma_total_empty, lemma_total_insert, lemma_total_restrict, lemma_total_restrict_insert, total,
};

verus! {

/// The contribution of one shared window to a similarity score: the fraction
/// `overlap / scale`.
#[derive(Debug, Clone, Copy, PartialEq, Eq)]
pub struct KeyScore {
    /// The observations, on both sides, of the words that both sides saw.
    pub overlap: u128,
    /// Twice the number of observations of the side that has more.
    pub scale: u128,
}

impl KeyScore {
    pub open spec fn pair(self) -> (nat, nat) {
        (self.overlap as nat, self.scale as nat)
    }
}

/// The fractions behind a vector of scores.
pub open spec fn scores_model(v: Seq<KeyScore>) -> Seq<(nat, nat)> {
    Seq::new(v.len(), |i: int| v[i].pair())
}

/// The observations in `x` of words that `y` mentions too.
pub open spec fn shared_part(x: Counts, y: Counts) -> nat {
    total(x.restrict(y.dom()))
}

/// The numerator of a window's fraction: over the words that follow the
/// window in both models, the counts of both sides.
pub open spec fn overlap_weight(x: Counts, y: Counts) -> nat {
    shared_part(x, y) + shared_part(y, x)
}

/// The denominator of a window's fraction: twice the larger of the totals.
pub open spec fn score_scale(x: Counts, y: Counts) -> nat {
    if total(x) >= total(y) {
        2 * total(x)
    } else {
        2 * total(y)
    }
}

/// The fraction that a window with follower counts `x` and `y` contributes.
pub open spec fn key_score(x: Counts, y: Counts) -> (nat, nat) {
    (overlap_weight(x, y), score_scale(x, y))
}

/// The fractions of the windows among `keys` that `b` has too, in the order
/// of `keys`; `a` is the model the windows are taken from.
pub open spec fn score_terms(keys: Seq<Key>, a: ChainModel, b: ChainModel) -> Seq<(nat, nat)>
    decreases keys.len(),
{
    if keys.len() == 0 {
        Seq::empty()
    } else {
        let rest = score_terms(keys.drop_last(), a, b);
        let k = keys.last();
        if b.dom().contains(k) {
            rest.push(key_score(a[k], b[k]))
        } else {
            rest
        }
    }
}

/// Counts the observations in `x`: all of them, and those of words that `y`
/// lists too.
pub fn weigh(x: &Vec<WordCount>, y: &Vec<WordCount>) -> (r: (u64, u64))
    requires
        counts_wf(x@),
    ensures
        r.0 == shared_part(counts_model(x@), counts_model(y@)),
        r.1 == total(counts_model(x@)),
{
    let ghost theirs = counts_model(y@).dom();
    let mut shared: u64 = 0;
    let mut all: u64 = 0;
    proof {
        lemma_total_empty::<Word>();
        assert(count_pairs(x@.take(0)) =~= Seq::empty());
        assert(counts_model(x@.take(0)).restrict(theirs) =~= Map::empty());
        lemma_assoc_dom(count_pairs(y@));
    }
    let mut j: usize = 0;
    while j < x.len()
        invariant
            j <= x.len(),
            counts_wf(x@),
            theirs == counts_model(y@).dom(),
            forall|w: Word| #[trigger] theirs.contains(w) <==> has_key(count_pairs(y@), w),
            all == total(counts_model(x@.take(j as int))),
            shared == total(counts_model(x@.take(j as int)).restrict(theirs)),
            shared <= all,
        decreases x.len() - j,
    {
        let item = &x[j];
        let found = find_word(y, &item.word);
        proof {
            lemma_prefix_total(x@, j as int);
            lemma_prefix_total(x@, j + 1);
            lemma_total_insert(counts_model(x@.take(j as int)), item.word@, item.count as nat);
            lemma_total_restrict_insert(
                counts_model(x@.take(j as int)),
                theirs,
                item.word@,
                item.count as nat,
            );
            lemma_total_restrict(counts_model(x@.take(j + 1)), theirs);
            match found {
                Some(t) => {
                    assert(count_pairs(y@)[t as int].0 == item.word@);
                    assert(theirs.contains(item.word@));
                },
                None => {
                    assert(!theirs.contains(item.word@));
                },
            }
        }
        all = all + item.count;
        if found.is_some() {
            shared = shared + item.count;
        }
        j += 1;
    }
    proof {
        assert(x@.take(j as int) =~= x@);
    }
    (shared, all)
}

impl WordChain {
    /// The windows of the model, in the order in which they first occurred.
    pub open spec fn keys(&self) -> Seq<Key> {
        Seq::new(self.entries@.len(), |i: int| words_model(self.entries@[i].key@))
    }

    /// The similarity of two models, as the fractions whose mean it is: one
    /// for each window that both models have, none where they share no
    /// window. Fails exactly when the two window lengths differ.
    pub fn compare(&self, other: &WordChain) -> (r: Result<Vec<KeyScore>, KeyLengthMismatch>)
        requires
            self.wf(),
            other.wf(),
        ensures
            match r {
                Ok(terms) => {
                    &&& self.key_length == other.key_length
                    &&& scores_model(terms@) == score_terms(self.keys(), self@, other@)
                    &&& terms.len() == self@.dom().intersect(other@.dom()).len()
                    &&& forall|i: int|
                        0 <= i < terms.len() ==> 0 < (#[trigger] terms[i]).scale
                            && terms[i].overlap <= terms[i].scale
                },
                Err(e) => {
                    &&& self.key_length != other.key_length
                    &&& e.left == self.key_length
                    &&& e.right == other.key_length
                },
            },
    {
        if self.key_length != other.key_length {
            return Err(KeyLengthMismatch { left: self.key_length, right: other.key_length });
        }
        let n = self.key_length;
        let ghost keys = self.keys();
        let ghost mine = entry_pairs(self.entries@);
        let ghost theirs = entry_pairs(other.entries@);
        let mut terms: Vec<KeyScore> = Vec::new();
        proof {
            lemma_assoc_dom(theirs);
            assert(scores_model(terms@) =~= Seq::empty());
        }
        let mut i: usize = 0;
        while i < self.entries.len()
            invariant
                i <= self.entries.len(),
                n == self.key_length,
                n == other.key_length,
                self.wf(),
                other.wf(),
                keys == self.keys(),
                mine == entry_pairs(self.entries@),
                theirs == entry_pairs(other.entries@),
                forall|k: Key| #[trigger] other@.dom().contains(k) <==> has_key(theirs, k),
                scores_model(terms@) == score_terms(keys.take(i as int), self@, other@),
                forall|t: int|
                    0 <= t < terms.len() ==> 0 < (#[trigger] terms[t]).scale && terms[t].overlap
                        <= terms[t].scale,
            decreases self.entries.len() - i,
        {
            let entry = &self.entries[i];
            let ghost k = keys[i as int];
            proof {
                assert(entry.wf(n as nat));
                assert(keys.take(i + 1).drop_last() =~= keys.take(i as int));
                assert(keys.take(i + 1).last() == k);
                assert(words_model(entry.key@).subrange(0, n as int) =~= k);
                lemma_assoc_get(mine, i as int);
                assert forall|t: int| 0 <= t < other.entries.len() implies (
                #[trigger] other.entries[t]).key@.len() == n by {
                    assert(other.entries[t].wf(n as nat));
                }
            }
            match find_entry(&other.entries, &entry.key, 0, n) {
                Some(j) => {
                    let twin = &other.entries[j];
                    proof {
                        assert(twin.wf(n as nat));
                        lemma_assoc_get(theirs, j as int);
                        lemma_counts_sound(entry.followers@);
                        lemma_counts_sound(twin.followers@);
                    }
                    let (shared_here, all_here) = weigh(&entry.followers, &twin.followers);
                    let (shared_there, all_there) = weigh(&twin.followers, &entry.followers);
                    let larger: u64 = if all_here >= all_there {
                        all_here
                    } else {
                        all_there
                    };
                    proof {
                        lemma_total_restrict(
                            counts_model(entry.followers@),
                            counts_model(twin.followers@).dom(),
                        );
                        lemma_total_restrict(
                            counts_model(twin.followers@),
                            counts_model(entry.followers@).dom(),
                        );
                    }
                    let score = KeyScore {
                        overlap: shared_here as u128 + shared_there as u128,
                        scale: 2 * (larger as u128),
                    };
                    terms.push(score);
                    proof {
                        assert(scores_model(terms@) =~= score_terms(
                            keys.take(i as int),
                            self@,
                            other@,
                        ).push(score.pair()));
                    }
                },
                None => {},
            }
            i += 1;
        }
        proof {
            assert(keys.take(i as int) =~= keys);
            law_range(*self, *other);
        }
        Ok(terms)
    }
}

/// The fraction of a window does not depend on which model is named first.
pub proof fn law_key_score_symmetric(x: Counts, y: Counts)
    ensures
        key_score(x, y) == key_score(y, x),
{
}

/// The fraction of a window is at most one.
pub proof fn law_key_score_range(x: Counts, y: Counts)
    requires
        x.dom().finite(),
        y.dom().finite(),
    ensures
        overlap_weight(x, y) <= score_scale(x, y),
{
    lemma_total_restrict(x, y.dom());
    lemma_total_restrict(y, x.dom());
}

/// The fraction of a window whose follower counts agree is one.
pub proof fn law_key_score_reflexive(x: Counts)
    requires
        x.dom().finite(),
    ensures
        overlap_weight(x, x) == score_scale(x, x),
{
    lemma_total_restrict(x, x.dom());
}

/// The windows among `among` that `b` has too and whose fraction is `v`.
pub open spec fn windows_scoring(among: Set<Key>, a: ChainModel, b: ChainModel, v: (nat, nat)) -> Set<
    Key,
> {
    Set::new(|k: Key| among.contains(k) && b.dom().contains(k) && key_score(a[k], b[k]) == v)
}

/// The windows of a model are pairwise different and are the domain of its view.
pub proof fn lemma_keys(c: WordChain)
    requires
        c.wf(),
    ensures
        c.keys().no_duplicates(),
        c.keys().to_set() == c@.dom(),
        c.keys().len() == c@.dom().len(),
        sound_model(c@, c.key_length as nat),
{
    let pairs = entry_pairs(c.entries@);
    let keys = c.keys();
    lemma_assoc_dom(pairs);
    lemma_entries_sound(c.entries@, c.key_length as nat);
    assert forall|i: int, j: int| 0 <= i < keys.len() && 0 <= j < keys.len() && i != j implies keys[i]
        != keys[j] by {
        if i < j {
            assert(pairs[i].0 != pairs[j].0);
        } else {
            assert(pairs[j].0 != pairs[i].0);
        }
    }
    assert forall|k: Key| keys.to_set().contains(k) <==> c@.dom().contains(k) by {
        if keys.contains(k) {
            let i = choose|i: int| 0 <= i < keys.len() && keys[i] == k;
            assert(pairs[i].0 == k);
        }
        if has_key(pairs, k) {
            let i = choose|i: int| 0 <= i < pairs.len() && (#[trigger] pairs[i]).0 == k;
            assert(keys[i] == k);
        }
    }
    assert(keys.to_set() =~= c@.dom());
}

/// The windows of `front` with one more window `k`, as a set.
proof fn lemma_push_set(keys: Seq<Key>)
    requires
        keys.len() > 0,
        keys.no_duplicates(),
    ensures
        !keys.drop_last().to_set().contains(keys.last()),
        keys.to_set() == keys.drop_last().to_set().insert(keys.last()),
        keys.drop_last().to_set().finite(),
        keys.drop_last().no_duplicates(),
{
    let front = keys.drop_last();
    let k = keys.last();
    if front.contains(k) {
        let i = choose|i: int| 0 <= i < front.len() && front[i] == k;
        assert(keys[i] == keys[keys.len() - 1]);
    }
    assert forall|q: Key| keys.to_set().contains(q) <==> front.to_set().insert(k).contains(q) by {
        if keys.contains(q) {
            let i = choose|i: int| 0 <= i < keys.len() && keys[i] == q;
            if i < front.len() {
                assert(front[i] == q);
            }
        }
        if front.contains(q) {
            let i = choose|i: int| 0 <= i < front.len() && front[i] == q;
            assert(keys[i] == q);
        }
        if q == k {
            assert(keys[keys.len() - 1] == q);
        }
    }
    assert(keys.to_set() =~= front.to_set().insert(k));
    vstd::seq_lib::seq_to_set_is_finite(front);
}

/// What the fractions of pairwise different windows of `a` are: one for each
/// window that `b` has too, each between zero and one.
pub proof fn lemma_score_terms(keys: Seq<Key>, a: ChainModel, b: ChainModel, n: nat)
    requires
        sound_model(a, n),
        sound_model(b, n),
        keys.no_duplicates(),
        forall|i: int| 0 <= i < keys.len() ==> a.dom().contains(#[trigger] keys[i]),
    ensures
        score_terms(keys, a, b).len() == keys.to_set().intersect(b.dom()).len(),
        forall|i: int|
            0 <= i < score_terms(keys, a, b).len() ==> 0 < (#[trigger] score_terms(
                keys,
                a,
                b,
            )[i]).1 && score_terms(keys, a, b)[i].0 <= score_terms(keys, a, b)[i].1,
    decreases keys.len(),
{
    if keys.len() == 0 {
        assert(keys.to_set().intersect(b.dom()) =~= Set::empty());
    } else {
        let front = keys.drop_last();
        let k = keys.last();
        lemma_push_set(keys);
        lemma_score_terms(front, a, b, n);
        assert(front.to_set().intersect(b.dom()).finite());
        assert(a.dom().contains(keys[keys.len() - 1]));
        if b.dom().contains(k) {
            law_key_score_range(a[k], b[k]);
            assert(keys.to_set().intersect(b.dom()) =~= front.to_set().intersect(b.dom()).insert(k));
        } else {
            assert(keys.to_set().intersect(b.dom()) =~= front.to_set().intersect(b.dom()));
        }
    }
}

/// Among the fractions of pairwise different windows, the value `v` occurs
/// as often as there are windows, shared with `b`, whose fraction it is.
pub proof fn lemma_score_count(keys: Seq<Key>, a: ChainModel, b: ChainModel, v: (nat, nat))
    requires
        keys.no_duplicates(),
    ensures
        windows_scoring(keys.to_set(), a, b, v).finite(),
        score_terms(keys, a, b).to_multiset().count(v) == windows_scoring(
            keys.to_set(),
            a,
            b,
            v,
        ).len(),
    decreases keys.len(),
{
    let terms = score_terms(keys, a, b);
    if keys.len() == 0 {
        assert(windows_scoring(keys.to_set(), a, b, v) =~= Set::empty());
        terms.to_multiset_ensures();
    } else {
        let front = keys.drop_last();
        let k = keys.last();
        let rest = score_terms(front, a, b);
        lemma_push_set(keys);
        lemma_score_count(front, a, b, v);
        rest.to_multiset_ensures();
        let before = windows_scoring(front.to_set(), a, b, v);
        if b.dom().contains(k) {
            let score = key_score(a[k], b[k]);
            assert(terms.to_multiset() =~= rest.to_multiset().insert(score));
            if score == v {
                assert(windows_scoring(keys.to_set(), a, b, v) =~= before.insert(k));
            } else {
                assert(windows_scoring(keys.to_set(), a, b, v) =~= before);
            }
        } else {
            assert(windows_scoring(keys.to_set(), a, b, v) =~= before);
        }
    }
}

/// Every fraction of a comparison lies between zero and one, and so does
/// their mean. There is one fraction for each window that both models have.
pub proof fn law_range(a: WordChain, b: WordChain)
    requires
        a.wf(),
        b.wf(),
        a.key_length == b.key_length,
    ensures
        score_terms(a.keys(), a@, b@).len() == a@.dom().intersect(b@.dom()).len(),
        forall|i: int|
            0 <= i < score_terms(a.keys(), a@, b@).len() ==> 0 < (#[trigger] score_terms(
                a.keys(),
                a@,
                b@,
            )[i]).1 && score_terms(a.keys(), a@, b@)[i].0 <= score_terms(a.keys(), a@, b@)[i].1,
{
    lemma_keys(a);
    lemma_keys(b);
    assert forall|i: int| 0 <= i < a.keys().len() implies a@.dom().contains(
        #[trigger] a.keys()[i],
    ) by {
        assert(a.keys().contains(a.keys()[i]));
    }
    lemma_score_terms(a.keys(), a@, b@, a.key_length as nat);
}

/// Compared with itself, a model has one fraction for each of its windows,
/// and each of them is one. So the mean is one whenever the model has a
/// window at all.
pub proof fn law_reflexive(c: WordChain)
    requires
        c.wf(),
    ensures
        score_terms(c.keys(), c@, c@).len() == c@.dom().len(),
        forall|i: int|
            0 <= i < score_terms(c.keys(), c@, c@).len() ==> 0 < (#[trigger] score_terms(
                c.keys(),
                c@,
                c@,
            )[i]).1 && score_terms(c.keys(), c@, c@)[i].0 == score_terms(c.keys(), c@, c@)[i].1,
{
    lemma_keys(c);
    let keys = c.keys();
    let terms = score_terms(keys, c@, c@);
    assert forall|i: int| 0 <= i < keys.len() implies c@.dom().contains(#[trigger] keys[i]) by {
        assert(keys.contains(keys[i]));
    }
    lemma_score_terms(keys, c@, c@, c.key_length as nat);
    assert(keys.to_set().intersect(c@.dom()) =~= c@.dom());
    assert forall|i: int| 0 <= i < terms.len() implies (#[trigger] terms[i]).0 == terms[i].1 by {
        let v = terms[i];
        terms.to_multiset_ensures();
        assert(terms.contains(v));
        assert(terms.to_multiset().count(v) > 0);
        lemma_score_count(keys, c@, c@, v);
        let hits = windows_scoring(keys.to_set(), c@, c@, v);
        assert(hits.len() > 0);
        let k = hits.choose();
        assert(hits.contains(k));
        law_key_score_reflexive(c@[k]);
    }
}

/// Comparing `a` with `b` and `b` with `a` gives the same fractions, each
/// as often; only their order may differ. So the mean is the same.
pub proof fn law_symmetric(a: WordChain, b: WordChain)
    requires
        a.wf(),
        b.wf(),
        a.key_length == b.key_length,
    ensures
        score_terms(a.keys(), a@, b@).to_multiset() == score_terms(b.keys(), b@, a@).to_multiset(),
{
    lemma_keys(a);
    lemma_keys(b);
    assert forall|i: int| 0 <= i < a.keys().len() implies a@.dom().contains(
        #[trigger] a.keys()[i],
    ) by {
        assert(a.keys().contains(a.keys()[i]));
    }
    assert forall|i: int| 0 <= i < b.keys().len() implies b@.dom().contains(
        #[trigger] b.keys()[i],
    ) by {
        assert(b.keys().contains(b.keys()[i]));
    }
    lemma_score_terms(a.keys(), a@, b@, a.key_length as nat);
    lemma_score_terms(b.keys(), b@, a@, a.key_length as nat);
    let there = score_terms(a.keys(), a@, b@).to_multiset();
    let back = score_terms(b.keys(), b@, a@).to_multiset();
    assert forall|v: (nat, nat)| there.count(v) == back.count(v) by {
        lemma_score_count(a.keys(), a@, b@, v);
        lemma_score_count(b.keys(), b@, a@, v);
        assert(windows_scoring(a.keys().to_set(), a@, b@, v) =~= windows_scoring(
            b.keys().to_set(),
            b@,
            a@,
            v,
        ));
    }
    assert(there =~= back);
}

} // verus!
