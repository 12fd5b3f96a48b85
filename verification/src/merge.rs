//! Combining two models into one.

use vstd::prelude::*;
use crate::assoc::{distinct_keys, has_key, lemma_assoc_dom, lemma_assoc_get, lemma_assoc_push};
use crate::chain::{
    bump, count_pairs, counts_model, entries_model, entries_wf, entry_pairs, find_entry,
    followers_of,
    lemma_entries_sound, lemma_prefix_total, observe, record, sound_model, words_model, ChainModel, Counts, Entry, Key,
    KeyLengthMismatch, Word, WordChain, WordCount,
};
use crate::similarity::weigh;
use crate::counts::{add_counts, count_of, lemma_total_add, lemma_total_empty, lemma_total_insert, total};

verus! {

/// The model that holds every observation of `a` and every observation of
/// `b`: the windows of either, and under each window the counts of both added
/// word by word.
pub open spec fn merged(a: ChainModel, b: ChainModel) -> ChainModel {
    Map::new(
        |k: Key| a.dom().contains(k) || b.dom().contains(k),
        |k: Key| add_counts(followers_of(a, k), followers_of(b, k)),
    )
}

/// Whether the observations of `a` and `b` behind each window can be counted
/// together in a `u64`.
pub open spec fn mergeable(a: ChainModel, b: ChainModel) -> bool {
    forall|k: Key| total(followers_of(a, k)) + total(#[trigger] followers_of(b, k)) <= u64::MAX
}

/// The state of a merge that has taken in the model `done` and, of one more
/// window `k`, the counts `part`.
pub open spec fn merging(base: ChainModel, done: ChainModel, k: Key, part: Counts) -> ChainModel {
    if part.dom().len() == 0 {
        merged(base, done)
    } else {
        merged(base, done).insert(k, add_counts(followers_of(base, k), part))
    }
}

/// Taking in one more word of the window `k` moves a merge from `part` to
/// `part` with that word.
pub proof fn lemma_merging_step(
    base: ChainModel,
    done: ChainModel,
    k: Key,
    part: Counts,
    w: Word,
    c: nat,
)
    requires
        part.dom().finite(),
        !done.dom().contains(k),
        !part.dom().contains(w),
    ensures
        followers_of(merging(base, done, k, part), k) == add_counts(followers_of(base, k), part),
        observe(merging(base, done, k, part), k, w, c) == merging(
            base,
            done,
            k,
            part.insert(w, c),
        ),
{
    let cur = merging(base, done, k, part);
    let mine = followers_of(base, k);
    if part.dom().len() == 0 {
        assert(part =~= Map::empty());
    }
    assert(followers_of(cur, k) =~= add_counts(mine, part));
    assert(bump(add_counts(mine, part), w, c) =~= add_counts(mine, part.insert(w, c)));
    assert(part.insert(w, c).dom().contains(w));
    assert(part.insert(w, c).dom().len() != 0);
    assert(observe(cur, k, w, c) =~= merging(base, done, k, part.insert(w, c)));
}

/// Once all the counts `theirs` of the window `k` are taken in, the merge
/// has taken in `done` with `k`.
pub proof fn lemma_merging_done(base: ChainModel, done: ChainModel, k: Key, theirs: Counts)
    requires
        !done.dom().contains(k),
        theirs.dom().finite(),
        theirs.dom().len() > 0,
    ensures
        merging(base, done, k, theirs) == merged(base, done.insert(k, theirs)),
{
    let left = merging(base, done, k, theirs);
    let right = merged(base, done.insert(k, theirs));
    assert forall|q: Key| left.dom().contains(q) implies #[trigger] left[q] == right[q] by {
        if q != k {
            assert(followers_of(done.insert(k, theirs), q) == followers_of(done, q));
        }
    }
    assert(left =~= right);
}

/// Takes every observation of `from` into `entries`.
pub fn absorb(entries: &mut Vec<Entry>, from: &Vec<Entry>, n: usize)
    requires
        entries_wf(old(entries)@, n as nat),
        entries_wf(from@, n as nat),
        mergeable(entries_model(old(entries)@), entries_model(from@)),
    ensures
        entries_wf(final(entries)@, n as nat),
        entries_model(final(entries)@) == merged(
            entries_model(old(entries)@),
            entries_model(from@),
        ),
{
    let ghost base = entries_model(entries@);
    let ghost theirs = entries_model(from@);
    proof {
        lemma_entries_sound(entries@, n as nat);
        lemma_entries_sound(from@, n as nat);
        assert(entry_pairs(from@.take(0)) =~= Seq::empty());
        assert forall|q: Key| merged(base, Map::empty()).dom().contains(q) implies #[trigger] merged(
            base,
            Map::empty(),
        )[q] == base[q] by {
            assert(add_counts(base[q], Map::empty()) =~= base[q]);
        }
        assert(merged(base, Map::empty()) =~= base);
    }
    let mut i: usize = 0;
    while i < from.len()
        invariant
            i <= from.len(),
            entries_wf(entries@, n as nat),
            entries_wf(from@, n as nat),
            theirs == entries_model(from@),
            sound_model(base, n as nat),
            sound_model(theirs, n as nat),
            mergeable(base, theirs),
            entries_model(entries@) == merged(base, entries_model(from@.take(i as int))),
        decreases from.len() - i,
    {
        let source = &from[i];
        let ghost done = entries_model(from@.take(i as int));
        let ghost k = entry_pairs(from@)[i as int].0;
        let ghost list = source.followers@;
        proof {
            let pairs = entry_pairs(from@);
            let head = entry_pairs(from@.take(i as int));
            assert(head =~= pairs.take(i as int));
            lemma_assoc_dom(head);
            if has_key(head, k) {
                let t = choose|t: int| 0 <= t < head.len() && (#[trigger] head[t]).0 == k;
                assert(pairs[t].0 != pairs[i as int].0);
            }
            lemma_assoc_get(pairs, i as int);
            assert(from@[i as int].wf(n as nat));
            assert(followers_of(theirs, k) == counts_model(list));
            assert(count_pairs(list.take(0)) =~= Seq::empty());
            assert(counts_model(list.take(0)) =~= Map::empty());
            assert(words_model(source.key@).subrange(0, n as int) =~= k);
        }
        let mut j: usize = 0;
        while j < source.followers.len()
            invariant
                j <= list.len(),
                list == source.followers@,
                list.len() > 0,
                source.key@.len() == n,
                words_model(source.key@).subrange(0, n as int) == k,
                distinct_keys(count_pairs(list)),
                forall|t: int| 0 <= t < list.len() ==> (#[trigger] list[t]).count >= 1,
                entries_wf(entries@, n as nat),
                sound_model(base, n as nat),
                !done.dom().contains(k),
                total(followers_of(base, k)) + total(counts_model(list)) <= u64::MAX,
                entries_model(entries@) == merging(base, done, k, counts_model(list.take(j as int))),
                j > 0 ==> counts_model(list.take(j as int)).dom().len() > 0,
            decreases list.len() - j,
        {
            let item = &source.followers[j];
            let ghost part = counts_model(list.take(j as int));
            proof {
                lemma_prefix_total(list, j as int);
                lemma_prefix_total(list, j + 1);
                lemma_merging_step(base, done, k, part, item.word@, item.count as nat);
                lemma_total_empty::<Word>();
                lemma_total_add(followers_of(base, k), part);
                lemma_total_insert(part, item.word@, item.count as nat);
                assert(part.insert(item.word@, item.count as nat).dom().contains(item.word@));
            }
            record(entries, &source.key, 0, n, &item.word, item.count);
            j += 1;
        }
        proof {
            assert(list.take(j as int) =~= list);
            lemma_merging_done(base, done, k, counts_model(list));
            lemma_assoc_push(entry_pairs(from@.take(i as int)), k, counts_model(list));
            assert(entry_pairs(from@.take(i + 1)) =~= entry_pairs(from@.take(i as int)).push(
                (k, counts_model(list)),
            ));
        }
        i += 1;
    }
    proof {
        assert(from@.take(i as int) =~= from@);
    }
}

impl WordChain {
    /// A new model with the windows of both models; the counts of a window
    /// that both have are added word by word. Fails exactly when the two
    /// window lengths differ.
    pub fn merge(&self, other: &WordChain) -> (r: Result<WordChain, KeyLengthMismatch>)
        requires
            self.wf(),
            other.wf(),
            self.key_length == other.key_length ==> mergeable(self@, other@),
        ensures
            match r {
                Ok(chain) => {
                    &&& self.key_length == other.key_length
                    &&& chain.wf()
                    &&& chain.title == self.title
                    &&& chain.key_length == self.key_length
                    &&& chain@ == merged(self@, other@)
                },
                Err(e) => {
                    &&& self.key_length != other.key_length
                    &&& e.left == self.key_length
                    &&& e.right == other.key_length
                },
            },
    {
        if self.key_length != other.key_length {
            return Err(KeyLengthMismatch { left: self.key_length, right: other.key_length });
        }
        let n = self.key_length;
        let mut entries: Vec<Entry> = Vec::new();
        proof {
            assert(entry_pairs(entries@) =~= Seq::empty());
            lemma_total_empty::<Word>();
            lemma_entries_sound(self.entries@, n as nat);
            lemma_entries_sound(other.entries@, n as nat);
            assert forall|k: Key| total(followers_of(Map::empty(), k)) + total(
                #[trigger] followers_of(self@, k),
            ) <= u64::MAX by {}
            assert forall|q: Key| merged(Map::empty(), self@).dom().contains(
                q,
            ) implies #[trigger] merged(Map::empty(), self@)[q] == self@[q] by {
                assert(add_counts(Map::empty(), self@[q]) =~= self@[q]);
            }
            assert(merged(Map::empty(), self@) =~= self@);
        }
        absorb(&mut entries, &self.entries, n);
        absorb(&mut entries, &other.entries, n);
        Ok(WordChain { title: self.title.clone(), key_length: n, entries })
    }
}

/// A merge has the windows of either model, and no others.
pub proof fn law_merge_keys(a: ChainModel, b: ChainModel)
    ensures
        merged(a, b).dom() == a.dom().union(b.dom()),
{
    assert(merged(a, b).dom() =~= a.dom().union(b.dom()));
}

/// Under each window, a merge counts a word as often as both models together.
pub proof fn law_merge_counts(a: ChainModel, b: ChainModel, k: Key, w: Word)
    ensures
        count_of(followers_of(merged(a, b), k), w) == count_of(followers_of(a, k), w) + count_of(
            followers_of(b, k),
            w,
        ),
{
}

/// A window that only one of the models has keeps its counts in the merge.
pub proof fn law_merge_one_sided(a: ChainModel, b: ChainModel, k: Key)
    requires
        a.dom().contains(k) != b.dom().contains(k),
    ensures
        merged(a, b)[k] == if a.dom().contains(k) {
            a[k]
        } else {
            b[k]
        },
{
    if a.dom().contains(k) {
        assert(add_counts(a[k], Map::empty()) =~= a[k]);
    } else {
        assert(add_counts(Map::empty(), b[k]) =~= b[k]);
    }
}

/// Merging does not depend on which model is named first.
pub proof fn law_merge_commutes(a: ChainModel, b: ChainModel)
    ensures
        merged(a, b) == merged(b, a),
{
    assert forall|k: Key| merged(a, b).dom().contains(k) implies #[trigger] merged(a, b)[k]
        == merged(b, a)[k] by {
        assert(add_counts(followers_of(a, k), followers_of(b, k)) =~= add_counts(
            followers_of(b, k),
            followers_of(a, k),
        ));
    }
    assert(merged(a, b) =~= merged(b, a));
}

/// Two models that share no window merge into a model with as many windows
/// as the two have together.
pub proof fn law_disjoint_merge_size(a: WordChain, b: WordChain)
    requires
        a.wf(),
        b.wf(),
        a@.dom().disjoint(b@.dom()),
    ensures
        merged(a@, b@).dom().len() == a@.dom().len() + b@.dom().len(),
{
    lemma_entries_sound(a.entries@, a.key_length as nat);
    lemma_entries_sound(b.entries@, b.key_length as nat);
    law_merge_keys(a@, b@);
    vstd::set_lib::lemma_set_disjoint_lens(a@.dom(), b@.dom());
    assert(a@.dom() + b@.dom() =~= a@.dom().union(b@.dom()));
}

impl WordChain {
    /// Whether the counts of the two models can be added in a `u64`, which
    /// is what `merge` asks of models with equal window lengths.
    pub fn can_merge(&self, other: &WordChain) -> (r: bool)
        requires
            self.wf(),
            other.wf(),
        ensures
            r == mergeable(self@, other@),
    {
        let n = self.key_length;
        let ghost mine = entry_pairs(self.entries@);
        let ghost theirs = entry_pairs(other.entries@);
        proof {
            lemma_entries_sound(self.entries@, n as nat);
            lemma_entries_sound(other.entries@, other.key_length as nat);
            lemma_assoc_dom(mine);
            lemma_assoc_dom(theirs);
            lemma_total_empty::<Word>();
        }
        if n != other.key_length {
            return true;
        }
        let none: Vec<WordCount> = Vec::new();
        let mut i: usize = 0;
        while i < self.entries.len()
            invariant
                i <= self.entries.len(),
                n == self.key_length,
                n == other.key_length,
                self.wf(),
                other.wf(),
                mine == entry_pairs(self.entries@),
                theirs == entry_pairs(other.entries@),
                forall|k: Key| #[trigger] other@.dom().contains(k) <==> has_key(theirs, k),
                forall|t: int|
                    0 <= t < i ==> total(followers_of(self@, (#[trigger] mine[t]).0)) + total(
                        followers_of(other@, mine[t].0),
                    ) <= u64::MAX,
            decreases self.entries.len() - i,
        {
            let entry = &self.entries[i];
            let ghost k = mine[i as int].0;
            proof {
                assert(entry.wf(n as nat));
                assert(words_model(entry.key@).subrange(0, n as int) =~= k);
                lemma_assoc_get(mine, i as int);
                lemma_total_empty::<Word>();
                assert forall|t: int| 0 <= t < other.entries.len() implies (
                #[trigger] other.entries[t]).key@.len() == n by {
                    assert(other.entries[t].wf(n as nat));
                }
            }
            match find_entry(&other.entries, &entry.key, 0, n) {
                Some(j) => {
                    let twin = &other.entries[j];
                    proof {
                        assert(twin.wf(n as nat));
                        lemma_assoc_get(theirs, j as int);
                    }
                    let here = weigh(&entry.followers, &none).1;
                    let there = weigh(&twin.followers, &none).1;
                    if here > u64::MAX - there {
                        return false;
                    }
                },
                None => {},
            }
            i += 1;
        }
        proof {
            assert forall|k: Key| total(followers_of(self@, k)) + total(
                #[trigger] followers_of(other@, k),
            ) <= u64::MAX by {
                if self@.dom().contains(k) {
                    let t = choose|t: int| 0 <= t < mine.len() && (#[trigger] mine[t]).0 == k;
                    assert(total(followers_of(self@, mine[t].0)) + total(
                        followers_of(other@, mine[t].0),
                    ) <= u64::MAX);
                }
            }
        }
        true
    }
}

} // verus!
