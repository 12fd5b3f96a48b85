//! The word-chain model and its construction from a sequence of words.

use vstd::prelude::*;
use crate::assoc::{assoc_map, distinct_keys, has_key, lemma_assoc_dom, lemma_assoc_get, lemma_assoc_len, lemma_assoc_push, lemma_assoc_update};
use crate::tokens::{split_words, whitespace_words};
use crate::counts::{count_of, lemma_total_empty, lemma_total_insert, lemma_total_positive, lemma_total_update, positive_counts, total};

verus! {

/// A word as contracts see it.
pub type Word = Seq<char>;

/// A window of consecutive words.
pub type Key = Seq<Seq<char>>;

/// What was seen to follow one window: each word with its number of occurrences.
pub type Counts = Map<Seq<char>, nat>;

/// A whole model: every window that occurred, with what followed it.
pub type ChainModel = Map<Seq<Seq<char>>, Map<Seq<char>, nat>>;

/// The words of a vector of strings.
pub open spec fn words_model(v: Seq<String>) -> Key {
    Seq::new(v.len(), |i: int| v[i]@)
}

/// A follower word and the number of times it was observed.
#[derive(Debug, Clone)]
pub struct WordCount {
    pub word: String,
    pub count: u64,
}

/// A window together with the words observed after it.
#[derive(Debug, Clone)]
pub struct Entry {
    pub key: Vec<String>,
    pub followers: Vec<WordCount>,
}

/// An order-sensitive word n-gram frequency model of a text.
#[derive(Debug, Clone)]
pub struct WordChain {
    pub title: String,
    pub key_length: usize,
    pub entries: Vec<Entry>,
}

/// The failure of an operation on two models whose windows differ in length.
#[derive(Debug, Clone, Copy, PartialEq, Eq)]
pub struct KeyLengthMismatch {
    /// The window length of the first model.
    pub left: usize,
    /// The window length of the second model.
    pub right: usize,
}

impl WordCount {
    pub open spec fn pair(self) -> (Word, nat) {
        (self.word@, self.count as nat)
    }
}

/// The association list behind a vector of follower counts.
pub open spec fn count_pairs(v: Seq<WordCount>) -> Seq<(Word, nat)> {
    Seq::new(v.len(), |i: int| v[i].pair())
}

/// The count map that a vector of follower counts stands for.
pub open spec fn counts_model(v: Seq<WordCount>) -> Counts {
    assoc_map(count_pairs(v))
}

/// Follower counts are well formed when no word is listed twice, every count
/// is at least one, and the counts together fit a `u64`.
pub open spec fn counts_wf(v: Seq<WordCount>) -> bool {
    &&& distinct_keys(count_pairs(v))
    &&& forall|j: int| 0 <= j < v.len() ==> (#[trigger] v[j]).count >= 1
    &&& total(counts_model(v)) <= u64::MAX
}

impl Entry {
    pub open spec fn pair(self) -> (Key, Counts) {
        (words_model(self.key@), counts_model(self.followers@))
    }

    /// An entry of a model with windows of `n` words is well formed when its
    /// window has `n` words and it lists at least one follower.
    pub open spec fn wf(self, n: nat) -> bool {
        &&& self.key@.len() == n
        &&& self.followers@.len() > 0
        &&& counts_wf(self.followers@)
    }
}

/// The association list behind a vector of entries.
pub open spec fn entry_pairs(v: Seq<Entry>) -> Seq<(Key, Counts)> {
    Seq::new(v.len(), |i: int| v[i].pair())
}

/// The model that a vector of entries stands for.
pub open spec fn entries_model(v: Seq<Entry>) -> ChainModel {
    assoc_map(entry_pairs(v))
}

/// Entries are well formed when no window is listed twice and each entry is
/// well formed.
pub open spec fn entries_wf(v: Seq<Entry>, n: nat) -> bool {
    &&& distinct_keys(entry_pairs(v))
    &&& forall|i: int| 0 <= i < v.len() ==> (#[trigger] v[i]).wf(n)
}

/// What `m` records after the window `k`; nothing where `k` never occurred.
pub open spec fn followers_of(m: ChainModel, k: Key) -> Counts {
    if m.dom().contains(k) {
        m[k]
    } else {
        Map::empty()
    }
}

/// The count map `c` after `amount` more observations of `w`.
pub open spec fn bump(c: Counts, w: Word, amount: nat) -> Counts {
    c.insert(w, count_of(c, w) + amount)
}

/// The model `m` after `amount` more observations of `w` behind the window `k`.
pub open spec fn observe(m: ChainModel, k: Key, w: Word, amount: nat) -> ChainModel {
    m.insert(k, bump(followers_of(m, k), w, amount))
}

/// The model of a text: each position past the first `n` words is one
/// observation of the word there behind the `n` words before it.
pub open spec fn chain_model(words: Seq<Word>, n: nat) -> ChainModel
    decreases words.len(),
{
    if words.len() <= n {
        Map::empty()
    } else {
        let last = words.len() - 1;
        observe(chain_model(words.drop_last(), n), words.subrange(last - n, last), words[last], 1)
    }
}

/// What every model with windows of `n` words satisfies: finitely many
/// windows, each of `n` words, each followed by at least one word, every
/// recorded count at least one.
pub open spec fn sound_model(m: ChainModel, n: nat) -> bool {
    &&& m.dom().finite()
    &&& forall|k: Key| #[trigger]
        m.dom().contains(k) ==> {
            &&& k.len() == n
            &&& positive_counts(m[k])
            &&& m[k].dom().len() >= 1
            &&& 1 <= total(m[k]) <= u64::MAX
        }
}

impl View for WordChain {
    type V = ChainModel;

    open spec fn view(&self) -> ChainModel {
        entries_model(self.entries@)
    }
}

/// Well-formed follower counts denote a sound count map with one word per item.
pub proof fn lemma_counts_sound(v: Seq<WordCount>)
    requires
        counts_wf(v),
    ensures
        positive_counts(counts_model(v)),
        counts_model(v).dom().len() == v.len(),
        v.len() > 0 ==> total(counts_model(v)) >= 1,
{
    let pairs = count_pairs(v);
    lemma_assoc_len(pairs);
    lemma_assoc_dom(pairs);
    assert forall|w: Word| counts_model(v).dom().contains(w) implies #[trigger] counts_model(
        v,
    )[w] >= 1 by {
        let j = choose|j: int| 0 <= j < pairs.len() && (#[trigger] pairs[j]).0 == w;
        lemma_assoc_get(pairs, j);
        assert(v[j].count >= 1);
    }
    if v.len() > 0 {
        lemma_assoc_get(pairs, 0);
        lemma_total_positive(counts_model(v), pairs[0].0);
    }
}

/// Well-formed entries denote a sound model with one window per entry.
pub proof fn lemma_entries_sound(v: Seq<Entry>, n: nat)
    requires
        entries_wf(v, n),
    ensures
        sound_model(entries_model(v), n),
        entries_model(v).dom().len() == v.len(),
{
    let pairs = entry_pairs(v);
    lemma_assoc_len(pairs);
    lemma_assoc_dom(pairs);
    let m = entries_model(v);
    assert forall|k: Key| #[trigger] m.dom().contains(k) implies {
        &&& k.len() == n
        &&& positive_counts(m[k])
        &&& m[k].dom().len() >= 1
        &&& 1 <= total(m[k]) <= u64::MAX
    } by {
        let i = choose|i: int| 0 <= i < pairs.len() && (#[trigger] pairs[i]).0 == k;
        lemma_assoc_get(pairs, i);
        assert(v[i].wf(n));
        lemma_counts_sound(v[i].followers@);
    }
}

/// The counts listed before position `j` never exceed the counts of the whole list.
pub proof fn lemma_prefix_total(v: Seq<WordCount>, j: int)
    requires
        distinct_keys(count_pairs(v)),
        0 <= j <= v.len(),
    ensures
        counts_model(v.take(j)).dom().finite(),
        total(counts_model(v.take(j))) <= total(counts_model(v)),
        j < v.len() ==> !counts_model(v.take(j)).dom().contains(v[j].word@),
        j < v.len() ==> counts_model(v.take(j + 1)) == counts_model(v.take(j)).insert(
            v[j].word@,
            v[j].count as nat,
        ),
    decreases v.len() - j,
{
    let head = count_pairs(v.take(j));
    lemma_assoc_dom(head);
    if j < v.len() {
        lemma_prefix_total(v, j + 1);
        lemma_assoc_push(head, v[j].word@, v[j].count as nat);
        assert(count_pairs(v.take(j + 1)) =~= head.push((v[j].word@, v[j].count as nat)));
        if has_key(head, v[j].word@) {
            let t = choose|t: int| 0 <= t < head.len() && (#[trigger] head[t]).0 == v[j].word@;
            assert(count_pairs(v)[t].0 != count_pairs(v)[j].0);
        }
        lemma_total_insert(counts_model(v.take(j)), v[j].word@, v[j].count as nat);
    } else {
        assert(v.take(j) =~= v);
    }
}

/// Whether the words of `key` are those of `src` from position `start` on.
pub fn same_words(key: &Vec<String>, src: &Vec<String>, start: usize) -> (r: bool)
    requires
        start + key.len() <= src.len(),
    ensures
        r == (words_model(key@) == words_model(src@).subrange(
            start as int,
            start + key.len(),
        )),
{
    let ghost want = words_model(src@).subrange(start as int, start + key.len());
    let mut j: usize = 0;
    while j < key.len()
        invariant
            j <= key.len(),
            start + key.len() <= src.len(),
            want == words_model(src@).subrange(start as int, start + key.len()),
            forall|t: int| 0 <= t < j ==> key[t]@ == src[start + t]@,
        decreases key.len() - j,
    {
        if !(key[j] == src[start + j]) {
            proof {
                assert(words_model(key@)[j as int] == key[j as int]@);
                assert(want[j as int] == src[start + j]@);
            }
            return false;
        }
        j += 1;
    }
    proof {
        assert(words_model(key@) =~= want);
    }
    true
}

/// The position of the entry whose window is `src[start .. start + n]`.
pub fn find_entry(entries: &Vec<Entry>, src: &Vec<String>, start: usize, n: usize) -> (r: Option<
    usize,
>)
    requires
        start + n <= src.len(),
        forall|i: int| 0 <= i < entries.len() ==> (#[trigger] entries[i]).key@.len() == n,
    ensures
        match r {
            Some(i) => i < entries.len() && entry_pairs(entries@)[i as int].0 == words_model(
                src@,
            ).subrange(start as int, start + n),
            None => !has_key(
                entry_pairs(entries@),
                words_model(src@).subrange(start as int, start + n),
            ),
        },
{
    let ghost want = words_model(src@).subrange(start as int, start + n);
    let mut i: usize = 0;
    while i < entries.len()
        invariant
            i <= entries.len(),
            start + n <= src.len(),
            want == words_model(src@).subrange(start as int, start + n),
            forall|t: int| 0 <= t < entries.len() ==> (#[trigger] entries[t]).key@.len() == n,
            forall|t: int| 0 <= t < i ==> (#[trigger] entry_pairs(entries@)[t]).0 != want,
        decreases entries.len() - i,
    {
        assert(entries[i as int].key@.len() == n);
        if same_words(&entries[i].key, src, start) {
            return Some(i);
        }
        i += 1;
    }
    None
}

/// The position of `word` among follower counts.
pub fn find_word(followers: &Vec<WordCount>, word: &String) -> (r: Option<usize>)
    ensures
        match r {
            Some(j) => j < followers.len() && followers[j as int].word@ == word@,
            None => !has_key(count_pairs(followers@), word@),
        },
{
    let mut j: usize = 0;
    while j < followers.len()
        invariant
            j <= followers.len(),
            forall|t: int| 0 <= t < j ==> (#[trigger] count_pairs(followers@)[t]).0 != word@,
        decreases followers.len() - j,
    {
        if followers[j].word == *word {
            return Some(j);
        }
        j += 1;
    }
    None
}

/// A copy of the `n` words of `src` from position `start` on.
pub fn copy_words(src: &Vec<String>, start: usize, n: usize) -> (r: Vec<String>)
    requires
        start + n <= src.len(),
    ensures
        r@ == src@.subrange(start as int, start + n),
        words_model(r@) == words_model(src@).subrange(start as int, start + n),
{
    let mut out: Vec<String> = Vec::new();
    let mut j: usize = 0;
    while j < n
        invariant
            j <= n,
            start + n <= src.len(),
            out@ == src@.subrange(start as int, start + j),
        decreases n - j,
    {
        out.push(src[start + j].clone());
        j += 1;
        assert(out@ =~= src@.subrange(start as int, start + j));
    }
    assert(words_model(out@) =~= words_model(src@).subrange(start as int, start + n));
    out
}

/// Adds `amount` observations of `word` to follower counts.
pub fn bump_followers(followers: &mut Vec<WordCount>, word: &String, amount: u64)
    requires
        amount >= 1,
        counts_wf(old(followers)@),
        total(counts_model(old(followers)@)) + amount <= u64::MAX,
    ensures
        counts_wf(final(followers)@),
        final(followers)@.len() >= 1,
        counts_model(final(followers)@) == bump(counts_model(old(followers)@), word@, amount as nat),
        total(counts_model(final(followers)@)) == total(counts_model(old(followers)@)) + amount,
{
    let ghost before = followers@;
    let ghost pairs = count_pairs(before);
    let ghost model = counts_model(before);
    proof {
        lemma_counts_sound(before);
        lemma_assoc_dom(pairs);
    }
    match find_word(followers, word) {
        Some(j) => {
            proof {
                lemma_assoc_get(pairs, j as int);
                lemma_total_positive(model, word@);
                lemma_total_update(model, word@, (before[j as int].count + amount) as nat);
                lemma_assoc_update(pairs, j as int, (before[j as int].count + amount) as nat);
            }
            let slot = &mut followers[j];
            slot.count = slot.count + amount;
            proof {
                assert(count_pairs(followers@) =~= pairs.update(
                    j as int,
                    (word@, (before[j as int].count + amount) as nat),
                ));
                assert forall|a: int, b: int| 0 <= a < b < followers@.len() implies count_pairs(
                    followers@,
                )[a].0 != count_pairs(followers@)[b].0 by {
                    assert(pairs[a].0 != pairs[b].0);
                }
            }
        },
        None => {
            proof {
                lemma_total_insert(model, word@, amount as nat);
                lemma_assoc_push(pairs, word@, amount as nat);
            }
            followers.push(WordCount { word: word.clone(), count: amount });
            proof {
                assert(count_pairs(followers@) =~= pairs.push((word@, amount as nat)));
                assert forall|a: int, b: int| 0 <= a < b < followers@.len() implies count_pairs(
                    followers@,
                )[a].0 != count_pairs(followers@)[b].0 by {
                    if b < before.len() {
                        assert(pairs[a].0 != pairs[b].0);
                    } else {
                        assert(pairs[a].0 != word@);
                    }
                }
            }
        },
    }
}

/// Records `amount` observations of `word` behind the window
/// `src[start .. start + n]`.
pub fn record(
    entries: &mut Vec<Entry>,
    src: &Vec<String>,
    start: usize,
    n: usize,
    word: &String,
    amount: u64,
)
    requires
        start + n <= src.len(),
        amount >= 1,
        entries_wf(old(entries)@, n as nat),
        total(
            followers_of(
                entries_model(old(entries)@),
                words_model(src@).subrange(start as int, start + n),
            ),
        ) + amount <= u64::MAX,
    ensures
        entries_wf(final(entries)@, n as nat),
        entries_model(final(entries)@) == observe(
            entries_model(old(entries)@),
            words_model(src@).subrange(start as int, start + n),
            word@,
            amount as nat,
        ),
{
    let ghost before = entries@;
    let ghost pairs = entry_pairs(before);
    let ghost model = entries_model(before);
    let ghost key = words_model(src@).subrange(start as int, start + n);
    proof {
        lemma_assoc_dom(pairs);
    }
    match find_entry(entries, src, start, n) {
        Some(i) => {
            proof {
                lemma_assoc_get(pairs, i as int);
                assert(before[i as int].wf(n as nat));
            }
            let entry = &mut entries[i];
            bump_followers(&mut entry.followers, word, amount);
            proof {
                let after = entries@[i as int].pair().1;
                lemma_assoc_update(pairs, i as int, after);
                assert(entry_pairs(entries@) =~= pairs.update(i as int, (key, after)));
                assert forall|a: int, b: int| 0 <= a < b < entries@.len() implies entry_pairs(
                    entries@,
                )[a].0 != entry_pairs(entries@)[b].0 by {
                    assert(pairs[a].0 != pairs[b].0);
                }
                assert forall|t: int| 0 <= t < entries@.len() implies (#[trigger] entries@[t]).wf(
                    n as nat,
                ) by {
                    assert(before[t].wf(n as nat));
                }
            }
        },
        None => {
            let mut followers: Vec<WordCount> = Vec::new();
            proof {
                lemma_total_empty::<Word>();
                assert(count_pairs(followers@) =~= Seq::empty());
            }
            bump_followers(&mut followers, word, amount);
            let window = copy_words(src, start, n);
            let ghost after = counts_model(followers@);
            proof {
                lemma_assoc_push(pairs, key, after);
            }
            entries.push(Entry { key: window, followers });
            proof {
                assert(entry_pairs(entries@) =~= pairs.push((key, after)));
                assert forall|a: int, b: int| 0 <= a < b < entries@.len() implies entry_pairs(
                    entries@,
                )[a].0 != entry_pairs(entries@)[b].0 by {
                    if b < before.len() {
                        assert(pairs[a].0 != pairs[b].0);
                    } else {
                        assert(pairs[a].0 != key);
                    }
                }
                assert forall|t: int| 0 <= t < entries@.len() implies (#[trigger] entries@[t]).wf(
                    n as nat,
                ) by {
                    if t < before.len() {
                        assert(before[t].wf(n as nat));
                    }
                }
            }
        },
    }
}

/// Observing a word raises the total of a finite count map by the amount.
pub proof fn lemma_total_bump(c: Counts, w: Word, amount: nat)
    requires
        c.dom().finite(),
    ensures
        total(bump(c, w, amount)) == total(c) + amount,
{
    if c.dom().contains(w) {
        lemma_total_update(c, w, c[w] + amount);
    } else {
        lemma_total_insert(c, w, amount);
    }
}

impl WordChain {
    /// The invariant of a model: windows of at least one word, and
    /// well-formed entries for that window length.
    pub open spec fn wf(&self) -> bool {
        &&& self.key_length >= 1
        &&& entries_wf(self.entries@, self.key_length as nat)
    }

    /// The model of a sequence of words, with windows of `key_length` words.
    pub fn build(title: String, tokens: &Vec<String>, key_length: usize) -> (chain: WordChain)
        requires
            key_length >= 1,
        ensures
            chain.wf(),
            chain.title == title,
            chain.key_length == key_length,
            chain@ == chain_model(words_model(tokens@), key_length as nat),
            sound_model(chain@, key_length as nat),
    {
        let ghost words = words_model(tokens@);
        let ghost n = key_length as nat;
        let mut entries: Vec<Entry> = Vec::new();
        proof {
            assert(entry_pairs(entries@) =~= Seq::empty());
            lemma_total_empty::<Word>();
        }
        if tokens.len() > key_length {
            let mut i: usize = key_length;
            proof {
                assert(words.take(i as int).len() <= n);
            }
            while i < tokens.len()
                invariant
                    key_length <= i <= tokens.len(),
                    n == key_length,
                    words == words_model(tokens@),
                    entries_wf(entries@, n),
                    entries_model(entries@) == chain_model(words.take(i as int), n),
                    forall|k: Key| total(#[trigger] followers_of(entries_model(entries@), k)) <= i - n,
                decreases tokens.len() - i,
            {
                let ghost before = entries_model(entries@);
                let ghost key = words.subrange(i - n, i as int);
                proof {
                    lemma_entries_sound(entries@, n);
                    assert(total(followers_of(before, key)) <= i - n);
                }
                record(&mut entries, tokens, i - key_length, key_length, &tokens[i], 1);
                proof {
                    let longer = words.take(i + 1);
                    assert(longer.drop_last() =~= words.take(i as int));
                    assert(longer.subrange(i - n, i as int) =~= key);
                    assert(longer[i as int] == tokens[i as int]@);
                    lemma_total_bump(followers_of(before, key), tokens[i as int]@, 1);
                    assert forall|k: Key| total(
                        #[trigger] followers_of(entries_model(entries@), k),
                    ) <= i + 1 - n by {
                        assert(total(followers_of(before, k)) <= i - n);
                    }
                }
                i += 1;
            }
            proof {
                assert(words.take(i as int) =~= words);
            }
        }
        proof {
            lemma_entries_sound(entries@, n);
        }
        WordChain { title, key_length, entries }
    }

    /// The model of a text, whose words are what whitespace separates.
    pub fn new(title: String, text: String, key_length: usize) -> (chain: WordChain)
        requires
            key_length >= 1,
        ensures
            chain.wf(),
            chain.title == title,
            chain.key_length == key_length,
            chain@ == chain_model(whitespace_words(text@), key_length as nat),
            sound_model(chain@, key_length as nat),
    {
        let tokens = split_words(text.as_str());
        WordChain::build(title, &tokens, key_length)
    }

    /// The number of distinct windows in the model.
    pub fn len(&self) -> (count: usize)
        requires
            self.wf(),
        ensures
            count == self@.dom().len(),
    {
        proof {
            lemma_entries_sound(self.entries@, self.key_length as nat);
        }
        self.entries.len()
    }
    /// What the model records after the window `key`, if the window occurred.
    pub fn followers(&self, key: &Vec<String>) -> (r: Option<&Vec<WordCount>>)
        requires
            self.wf(),
        ensures
            match r {
                Some(list) => {
                    &&& self@.dom().contains(words_model(key@))
                    &&& counts_model(list@) == self@[words_model(key@)]
                    &&& counts_wf(list@)
                },
                None => !self@.dom().contains(words_model(key@)),
            },
    {
        proof {
            lemma_entries_sound(self.entries@, self.key_length as nat);
            lemma_assoc_dom(entry_pairs(self.entries@));
        }
        if key.len() != self.key_length {
            return None;
        }
        proof {
            assert(words_model(key@).subrange(0, key.len() as int) =~= words_model(key@));
            assert forall|t: int| 0 <= t < self.entries.len() implies (
            #[trigger] self.entries[t]).key@.len() == self.key_length by {
                assert(self.entries[t].wf(self.key_length as nat));
            }
        }
        match find_entry(&self.entries, key, 0, self.key_length) {
            Some(i) => {
                proof {
                    lemma_assoc_get(entry_pairs(self.entries@), i as int);
                    assert(self.entries[i as int].wf(self.key_length as nat));
                }
                Some(&self.entries[i].followers)
            },
            None => None,
        }
    }

    /// How often `word` was observed after the window `key`.
    pub fn count(&self, key: &Vec<String>, word: &String) -> (r: u64)
        requires
            self.wf(),
        ensures
            r == count_of(followers_of(self@, words_model(key@)), word@),
    {
        match self.followers(key) {
            Some(list) => {
                proof {
                    lemma_assoc_dom(count_pairs(list@));
                }
                match find_word(list, word) {
                    Some(j) => {
                        proof {
                            lemma_assoc_get(count_pairs(list@), j as int);
                        }
                        list[j].count
                    },
                    None => 0,
                }
            },
            None => 0,
        }
    }
}

/// The `n` words of `words` right before position `i`.
pub open spec fn window_before(words: Seq<Word>, n: nat, i: int) -> Key {
    words.subrange(i - n, i)
}

/// The positions of `words` at which `w` stands right behind the window `k`.
pub open spec fn sightings(words: Seq<Word>, n: nat, k: Key, w: Word) -> Set<int> {
    Set::new(|i: int| n <= i < words.len() && window_before(words, n, i) == k && words[i] == w)
}

/// The model of a text counts `w` behind the window `k` exactly as often as
/// `w` stands right behind `k` in the text.
pub proof fn law_chain_counts(words: Seq<Word>, n: nat, k: Key, w: Word)
    ensures
        sightings(words, n, k, w).finite(),
        count_of(followers_of(chain_model(words, n), k), w) == sightings(words, n, k, w).len(),
    decreases words.len(),
{
    if words.len() <= n {
        assert(sightings(words, n, k, w) =~= Set::empty());
    } else {
        let front = words.drop_last();
        let last = words.len() - 1;
        let before = sightings(front, n, k, w);
        law_chain_counts(front, n, k, w);
        assert forall|i: int| n <= i < last implies #[trigger] window_before(front, n, i)
            == window_before(words, n, i) by {
            assert(front.subrange(i - n, i) =~= words.subrange(i - n, i));
        }
        if words.subrange(last - n, last) == k && words[last] == w {
            assert(sightings(words, n, k, w) =~= before.insert(last));
        } else {
            assert(sightings(words, n, k, w) =~= before);
        }
    }
}

/// The model of any text has finitely many windows; each has `n` words and
/// is followed by at least one word, and no count is zero.
pub proof fn law_chain_shape(words: Seq<Word>, n: nat, k: Key)
    ensures
        chain_model(words, n).dom().finite(),
        chain_model(words, n).dom().contains(k) ==> {
            &&& k.len() == n
            &&& positive_counts(chain_model(words, n)[k])
            &&& chain_model(words, n)[k].dom().len() >= 1
        },
    decreases words.len(),
{
    if words.len() > n {
        let last = words.len() - 1;
        let key = words.subrange(last - n, last);
        let earlier = chain_model(words.drop_last(), n);
        law_chain_shape(words.drop_last(), n, k);
        law_chain_shape(words.drop_last(), n, key);
        if k == key {
            let seen = followers_of(earlier, key);
            let now = bump(seen, words[last], 1);
            assert(now.dom() =~= seen.dom().insert(words[last]));
            assert(chain_model(words, n)[k] == now);
        }
    }
}

} // verus!
