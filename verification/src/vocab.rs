//! The vocabulary: headwords with their translations, kept in key order.
//!
//! Each entry is filed under a key, the lower-case form of its headword.
//! Keys are unique and the entries stand in ascending key order, so paging
//! through the vocabulary always meets the words in the same sequence.

use vstd::prelude::*;
use crate::batch::{batch_bounds, batch_spec, BatchRequest};
use crate::error::VocabError;
use crate::order::{
    compare, lemma_precedes_asymmetric, lemma_precedes_irreflexive, lemma_precedes_total,
    lemma_precedes_transitive, precedes, Order,
};
use crate::stress::{
    draw_spec, draw_stress, lemma_stripped_is_unmarked, strip, strip_spec, STRESS_MARK,
};
use crate::text::{chars_of, string_of};
use crate::unicode::{lowercase, to_lowercase};

verus! {

/// A headword as the vocabulary stores it: free of stress marks, with the
/// stressed letter, if the source marked one, still in upper case.
#[derive(Debug, PartialEq, Eq)]
pub struct VocabWord(pub String);

impl Clone for VocabWord {
    fn clone(&self) -> (copy: VocabWord) {
        VocabWord(self.0.clone())
    }
}

impl View for VocabWord {
    type V = Seq<char>;

    open spec fn view(&self) -> Seq<char> {
        self.0@
    }
}

/// The key under which a headword is filed: the headword in lower case,
/// without any stress mark.
pub open spec fn key_of(word: Seq<char>) -> Seq<char> {
    strip_spec(lowercase(word))
}

impl VocabWord {
    /// Makes a headword from a word as the source wrote it, dropping its
    /// stress marks.
    pub fn new(raw: &str) -> (word: VocabWord)
        ensures
            word@ == strip_spec(raw@),
    {
        VocabWord(strip(raw))
    }

    /// The key of this headword.
    pub fn key(&self) -> (key: Vec<char>)
        ensures
            key@ == key_of(self@),
    {
        let lowered = to_lowercase(self.0.as_str());
        let plain = strip(lowered.as_str());
        chars_of(plain.as_str())
    }

    /// The headword as it is shown, with its stress drawn.
    pub fn drawn(&self) -> (drawn: String)
        ensures
            drawn@ == draw_spec(self@),
    {
        draw_stress(&self.0)
    }

    /// Whether this headword is filed before `other`: whether its key comes
    /// first.
    pub fn comes_before(&self, other: &VocabWord) -> (before: bool)
        ensures
            before == precedes(key_of(self@), key_of(other@)),
    {
        let mine = self.key();
        let theirs = other.key();
        match compare(&mine, &theirs) {
            Order::Before => true,
            _ => false,
        }
    }
}

/// One entry of the vocabulary.
#[derive(Debug, PartialEq, Eq)]
pub struct Entry {
    /// The key that decides where the entry stands.
    pub key: Vec<char>,
    /// The headword.
    pub word: VocabWord,
    /// The translations, in the order in which the source gave them.
    pub translations: Vec<String>,
}

/// What an entry holds, as plain sequences of characters.
pub struct EntryView {
    pub key: Seq<char>,
    pub word: Seq<char>,
    pub translations: Seq<Seq<char>>,
}

/// The texts of a list of strings.
pub open spec fn texts(strings: Seq<String>) -> Seq<Seq<char>> {
    strings.map_values(|s: String| s@)
}

impl Entry {
    /// The key as a string.
    pub fn key_text(&self) -> (text: String)
        ensures
            text@ == self@.key,
    {
        string_of(&self.key)
    }

    /// An entry that holds the same as this one.
    pub fn duplicate(&self) -> (copy: Entry)
        ensures
            copy@ == self@,
    {
        let mut key: Vec<char> = Vec::new();
        let mut i: usize = 0;
        while i < self.key.len()
            invariant
                i <= self.key.len(),
                key@ == self.key@.take(i as int),
            decreases self.key.len() - i,
        {
            key.push(self.key[i]);
            i += 1;
        }
        let mut translations: Vec<String> = Vec::new();
        let mut j: usize = 0;
        while j < self.translations.len()
            invariant
                j <= self.translations.len(),
                texts(translations@) == texts(self.translations@).take(j as int),
            decreases self.translations.len() - j,
        {
            let ghost before = translations@;
            let translation = self.translations[j].clone();
            translations.push(translation);
            assert(texts(translations@) =~= texts(before).push(translation@));
            assert(texts(self.translations@).take(j + 1) =~= texts(self.translations@).take(
                j as int,
            ).push(self.translations@[j as int]@));
            j += 1;
        }
        let copy = Entry { key, word: VocabWord(self.word.0.clone()), translations };
        assert(copy@.key =~= self@.key);
        assert(copy@.translations =~= self@.translations);
        copy
    }
}

impl Clone for Entry {
    fn clone(&self) -> (copy: Entry) {
        self.duplicate()
    }
}

impl View for Entry {
    type V = EntryView;

    open spec fn view(&self) -> EntryView {
        EntryView { key: self.key@, word: self.word@, translations: texts(self.translations@) }
    }
}

/// The entries stand in strictly ascending key order.
pub open spec fn sorted(entries: Seq<EntryView>) -> bool {
    forall|i: int, j: int|
        0 <= i < j < entries.len() ==> precedes(
            #[trigger] entries[i].key,
            #[trigger] entries[j].key,
        )
}

/// What holds of every vocabulary: ascending keys, so that none occurs
/// twice, and at least one translation in every entry.
pub open spec fn well_formed(entries: Seq<EntryView>) -> bool {
    &&& sorted(entries)
    &&& forall|i: int| 0 <= i < entries.len() ==> (#[trigger] entries[i]).translations.len() > 0
}

/// What holds of a vocabulary that a loader built: every headword is filed
/// under its own key, and neither headword nor key holds a stress mark.
pub open spec fn normalized(entries: Seq<EntryView>) -> bool {
    forall|i: int|
        0 <= i < entries.len() ==> {
            &&& (#[trigger] entries[i]).key == key_of(entries[i].word)
            &&& !entries[i].key.contains(STRESS_MARK)
            &&& !entries[i].word.contains(STRESS_MARK)
        }
}

/// The number of entries whose key comes before `key`. In a vocabulary this
/// is the place where an entry with that key stands or would have to stand.
pub open spec fn rank(entries: Seq<EntryView>, key: Seq<char>) -> int {
    entries.filter(|e: EntryView| precedes(e.key, key)).len() as int
}

/// Where the entry with the given key stands, if there is one.
pub open spec fn position(entries: Seq<EntryView>, key: Seq<char>) -> Option<int> {
    let r = rank(entries, key);
    if r < entries.len() && entries[r].key == key {
        Some(r)
    } else {
        None
    }
}

/// The entry with the given key, if there is one.
pub open spec fn lookup(entries: Seq<EntryView>, key: Seq<char>) -> Option<EntryView> {
    match position(entries, key) {
        Some(i) => Some(entries[i]),
        None => None,
    }
}

/// The vocabulary after one translation has been filed under `key`.
///
/// Where the key is new, an entry with the given headword and this one
/// translation is put in at the key's place. Where the key is there already,
/// the entry keeps the headword it has; its translations grow by the new one
/// when `accumulate` is set, and are replaced by the new one alone when not.
pub open spec fn put_spec(
    entries: Seq<EntryView>,
    key: Seq<char>,
    word: Seq<char>,
    translation: Seq<char>,
    accumulate: bool,
) -> Seq<EntryView> {
    let r = rank(entries, key);
    match position(entries, key) {
        Some(i) => entries.update(
            i,
            EntryView {
                key,
                word: entries[i].word,
                translations: if accumulate {
                    entries[i].translations.push(translation)
                } else {
                    seq![translation]
                },
            },
        ),
        None => entries.insert(r, EntryView { key, word, translations: seq![translation] }),
    }
}

/// The entries that are left when the first `count` are dropped.
pub open spec fn without_leading_spec(entries: Seq<EntryView>, count: nat) -> Seq<EntryView> {
    if count <= entries.len() {
        entries.skip(count as int)
    } else {
        Seq::empty()
    }
}

/// A place that splits a list into the entries whose key comes before `key`
/// and the rest is the rank of `key`.
pub proof fn lemma_rank_is(entries: Seq<EntryView>, key: Seq<char>, r: int)
    requires
        0 <= r <= entries.len(),
        forall|i: int| 0 <= i < r ==> precedes(#[trigger] entries[i].key, key),
        forall|i: int| r <= i < entries.len() ==> !precedes(#[trigger] entries[i].key, key),
    ensures
        rank(entries, key) == r,
    decreases entries.len(),
{
    reveal(Seq::filter);
    if entries.len() > 0 {
        let before = entries.drop_last();
        if r == entries.len() {
            lemma_rank_is(before, key, r - 1);
        } else {
            lemma_rank_is(before, key, r);
        }
    }
}

/// In a sorted list the rank of a key splits the list: the keys in front of
/// it come before the key, the keys from it on do not.
pub proof fn lemma_rank_splits(entries: Seq<EntryView>, key: Seq<char>)
    requires
        sorted(entries),
    ensures
        0 <= rank(entries, key) <= entries.len(),
        forall|i: int| 0 <= i < rank(entries, key) ==> precedes(#[trigger] entries[i].key, key),
        forall|i: int|
            rank(entries, key) <= i < entries.len() ==> !precedes(#[trigger] entries[i].key, key),
    decreases entries.len(),
{
    reveal(Seq::filter);
    if entries.len() > 0 {
        let before = entries.drop_last();
        assert forall|i: int, j: int| 0 <= i < j < before.len() implies precedes(
            #[trigger] before[i].key,
            #[trigger] before[j].key,
        ) by {
            assert(before[i] == entries[i] && before[j] == entries[j]);
        }
        lemma_rank_splits(before, key);
        if precedes(entries.last().key, key) {
            assert forall|i: int| 0 <= i < before.len() implies precedes(
                #[trigger] before[i].key,
                key,
            ) by {
                assert(before[i] == entries[i]);
                lemma_precedes_transitive(entries[i].key, entries.last().key, key);
            }
            lemma_rank_is(before, key, before.len() as int);
            assert forall|i: int| 0 <= i < entries.len() implies precedes(
                #[trigger] entries[i].key,
                key,
            ) by {
                if i < before.len() {
                    assert(before[i] == entries[i]);
                }
            }
        } else {
            assert forall|i: int| 0 <= i < rank(entries, key) implies precedes(
                #[trigger] entries[i].key,
                key,
            ) by {
                assert(before[i] == entries[i]);
            }
            assert forall|i: int| rank(entries, key) <= i < entries.len() implies !precedes(
                #[trigger] entries[i].key,
                key,
            ) by {
                if i < before.len() {
                    assert(before[i] == entries[i]);
                }
            }
        }
    }
}

/// In a vocabulary a key stands at one place at most, the one that
/// `position` names.
pub proof fn lemma_position_unique(entries: Seq<EntryView>, key: Seq<char>, i: int)
    requires
        sorted(entries),
        0 <= i < entries.len(),
        entries[i].key == key,
    ensures
        position(entries, key) == Some(i),
{
    lemma_rank_splits(entries, key);
    lemma_precedes_irreflexive(key);
    let r = rank(entries, key);
    if r < i {
        lemma_precedes_asymmetric(entries[r].key, entries[i].key);
        lemma_precedes_total(entries[r].key, key);
    }
}

/// Filing a translation keeps the vocabulary in order, and a vocabulary that
/// was normalized stays so when the headword is free of marks and the key
/// is its own.
pub proof fn lemma_put_well_formed(
    entries: Seq<EntryView>,
    key: Seq<char>,
    word: Seq<char>,
    translation: Seq<char>,
    accumulate: bool,
)
    requires
        well_formed(entries),
    ensures
        well_formed(put_spec(entries, key, word, translation, accumulate)),
        position(put_spec(entries, key, word, translation, accumulate), key) is Some,
        normalized(entries) && key == key_of(word) && !word.contains(STRESS_MARK) ==> normalized(
            put_spec(entries, key, word, translation, accumulate),
        ),
{
    let after = put_spec(entries, key, word, translation, accumulate);
    let r = rank(entries, key);
    lemma_rank_splits(entries, key);
    match position(entries, key) {
        Some(i) => {
            assert forall|a: int, b: int| 0 <= a < b < after.len() implies precedes(
                #[trigger] after[a].key,
                #[trigger] after[b].key,
            ) by {
                assert(after[a].key == entries[a].key);
                assert(after[b].key == entries[b].key);
            }
            assert forall|a: int| 0 <= a < after.len() implies (
            #[trigger] after[a]).translations.len() > 0 by {
                if a != i {
                    assert(after[a] == entries[a]);
                }
            }
            if normalized(entries) {
                assert forall|a: int| 0 <= a < after.len() implies {
                    &&& (#[trigger] after[a]).key == key_of(after[a].word)
                    &&& !after[a].key.contains(STRESS_MARK)
                    &&& !after[a].word.contains(STRESS_MARK)
                } by {
                    if a != i {
                        assert(after[a] == entries[a]);
                    } else {
                        assert(after[a].word == entries[a].word);
                        assert(after[a].key == entries[a].key);
                    }
                }
            }
            lemma_position_unique(after, key, i);
        },
        None => {
            assert forall|b: int| r <= b < entries.len() implies precedes(
                key,
                #[trigger] entries[b].key,
            ) by {
                lemma_precedes_total(key, entries[b].key);
                if entries[b].key == key {
                    if b > r {
                        lemma_precedes_asymmetric(entries[r].key, entries[b].key);
                        lemma_precedes_total(entries[r].key, key);
                    }
                }
            }
            assert forall|a: int, b: int| 0 <= a < b < after.len() implies precedes(
                #[trigger] after[a].key,
                #[trigger] after[b].key,
            ) by {
                if b < r {
                    assert(after[a] == entries[a] && after[b] == entries[b]);
                } else if b == r {
                    assert(after[a] == entries[a]);
                } else if a < r {
                    assert(after[a] == entries[a] && after[b] == entries[b - 1]);
                    if b - 1 == a {
                    }
                    lemma_precedes_transitive(entries[a].key, key, entries[b - 1].key);
                } else if a == r {
                    assert(after[b] == entries[b - 1]);
                } else {
                    assert(after[a] == entries[a - 1] && after[b] == entries[b - 1]);
                }
            }
            assert forall|a: int| 0 <= a < after.len() implies (
            #[trigger] after[a]).translations.len() > 0 by {
                if a < r {
                    assert(after[a] == entries[a]);
                } else if a > r {
                    assert(after[a] == entries[a - 1]);
                }
            }
            if normalized(entries) && key == key_of(word) && !word.contains(STRESS_MARK) {
                lemma_stripped_is_unmarked(lowercase(word));
                assert forall|a: int| 0 <= a < after.len() implies {
                    &&& (#[trigger] after[a]).key == key_of(after[a].word)
                    &&& !after[a].key.contains(STRESS_MARK)
                    &&& !after[a].word.contains(STRESS_MARK)
                } by {
                    if a < r {
                        assert(after[a] == entries[a]);
                    } else if a > r {
                        assert(after[a] == entries[a - 1]);
                    }
                }
            }
            lemma_position_unique(after, key, r);
        },
    }
}

/// The vocabulary as a mapping from keys to entries. Filing a translation
/// under a key changes what that key leads to and nothing else: a new key
/// leads to an entry with the given headword and the one translation; a key
/// that was there keeps its headword and gains the translation behind those
/// it had, or keeps the new one alone when translations do not accumulate.
pub proof fn lemma_put_lookup(
    entries: Seq<EntryView>,
    key: Seq<char>,
    word: Seq<char>,
    translation: Seq<char>,
    accumulate: bool,
    other: Seq<char>,
)
    requires
        well_formed(entries),
    ensures
        lookup(put_spec(entries, key, word, translation, accumulate), key) == Some(
            match lookup(entries, key) {
                Some(e) => EntryView {
                    key,
                    word: e.word,
                    translations: if accumulate {
                        e.translations.push(translation)
                    } else {
                        seq![translation]
                    },
                },
                None => EntryView { key, word, translations: seq![translation] },
            },
        ),
        other != key ==> lookup(put_spec(entries, key, word, translation, accumulate), other)
            == lookup(entries, other),
        put_spec(entries, key, word, translation, accumulate).len() == entries.len() + if lookup(
            entries,
            key,
        ) is None {
            1int
        } else {
            0int
        },
{
    let after = put_spec(entries, key, word, translation, accumulate);
    let r = rank(entries, key);
    let q = rank(entries, other);
    lemma_rank_splits(entries, key);
    lemma_rank_splits(entries, other);
    lemma_put_well_formed(entries, key, word, translation, accumulate);
    lemma_rank_splits(after, key);
    if other != key {
        lemma_precedes_total(key, other);
        match position(entries, key) {
            Some(_) => {
                assert forall|i: int| 0 <= i < after.len() implies (#[trigger] after[i]).key
                    == entries[i].key by {
                    if i != r {
                        assert(after[i] == entries[i]);
                    }
                }
                lemma_rank_is(after, other, q);
                if q < entries.len() && q != r {
                    assert(after[q] == entries[q]);
                }
            },
            None => {
                if precedes(key, other) {
                    assert(r <= q) by {
                        if r > q {
                            lemma_precedes_transitive(entries[q].key, key, other);
                        }
                    }
                    assert forall|i: int| 0 <= i < q + 1 implies precedes(
                        #[trigger] after[i].key,
                        other,
                    ) by {
                        if i < r {
                            assert(after[i] == entries[i]);
                        } else if i > r {
                            assert(after[i] == entries[i - 1]);
                        }
                    }
                    assert forall|i: int| q + 1 <= i < after.len() implies !precedes(
                        #[trigger] after[i].key,
                        other,
                    ) by {
                        assert(after[i] == entries[i - 1]);
                    }
                    lemma_rank_is(after, other, q + 1);
                    if q < entries.len() {
                        assert(after[q + 1] == entries[q]);
                    }
                } else {
                    assert forall|i: int| r <= i < entries.len() implies !precedes(
                        #[trigger] entries[i].key,
                        other,
                    ) by {
                        if precedes(entries[i].key, other) {
                            lemma_precedes_transitive(entries[i].key, other, key);
                        }
                    }
                    assert(q <= r) by {
                        if q > r {
                            assert(precedes(entries[r].key, other));
                        }
                    }
                    assert forall|i: int| 0 <= i < q implies precedes(
                        #[trigger] after[i].key,
                        other,
                    ) by {
                        assert(after[i] == entries[i]);
                    }
                    assert forall|i: int| q <= i < after.len() implies !precedes(
                        #[trigger] after[i].key,
                        other,
                    ) by {
                        if i < r {
                            assert(after[i] == entries[i]);
                        } else if i > r {
                            assert(after[i] == entries[i - 1]);
                        }
                    }
                    lemma_rank_is(after, other, q);
                    if q < r {
                        assert(after[q] == entries[q]);
                    } else if q < entries.len() {
                        if entries[q].key == other {
                            assert(precedes(entries[r].key, key));
                        }
                    }
                }
            },
        }
    }
}

/// Any stretch of a vocabulary is a vocabulary.
pub proof fn lemma_subrange_well_formed(entries: Seq<EntryView>, from: int, to: int)
    requires
        well_formed(entries),
        0 <= from <= to <= entries.len(),
    ensures
        well_formed(entries.subrange(from, to)),
        normalized(entries) ==> normalized(entries.subrange(from, to)),
{
    let part = entries.subrange(from, to);
    assert forall|i: int, j: int| 0 <= i < j < part.len() implies precedes(
        #[trigger] part[i].key,
        #[trigger] part[j].key,
    ) by {
        assert(part[i] == entries[from + i] && part[j] == entries[from + j]);
    }
    assert forall|i: int| 0 <= i < part.len() implies (#[trigger] part[i]).translations.len()
        > 0 by {
        assert(part[i] == entries[from + i]);
    }
    if normalized(entries) {
        assert forall|i: int| 0 <= i < part.len() implies {
            &&& (#[trigger] part[i]).key == key_of(part[i].word)
            &&& !part[i].key.contains(STRESS_MARK)
            &&& !part[i].word.contains(STRESS_MARK)
        } by {
            assert(part[i] == entries[from + i]);
        }
    }
}

/// The vocabulary: its entries in ascending key order.
#[derive(Debug, PartialEq, Eq)]
pub struct Vocab {
    entries: Vec<Entry>,
}

impl Clone for Vocab {
    fn clone(&self) -> (copy: Vocab) {
        self.duplicate()
    }
}

impl View for Vocab {
    type V = Seq<EntryView>;

    closed spec fn view(&self) -> Seq<EntryView> {
        self.entries@.map_values(|e: Entry| e@)
    }
}

impl Vocab {
    /// Every vocabulary is well formed.
    #[verifier::type_invariant]
    pub open spec fn is_well_formed(&self) -> bool {
        well_formed(self@)
    }

    /// A vocabulary without entries.
    pub fn new() -> (vocab: Vocab)
        ensures
            vocab@ == Seq::<EntryView>::empty(),
            well_formed(vocab@),
    {
        let vocab = Vocab { entries: Vec::new() };
        assert(vocab@ =~= Seq::<EntryView>::empty());
        vocab
    }

    /// A vocabulary that holds the same as this one.
    pub fn duplicate(&self) -> (copy: Vocab)
        ensures
            copy@ == self@,
            well_formed(copy@),
    {
        proof {
            use_type_invariant(self);
        }
        let mut entries: Vec<Entry> = Vec::new();
        let mut i: usize = 0;
        while i < self.entries.len()
            invariant
                i <= self.entries.len(),
                entries@.map_values(|e: Entry| e@) == self@.take(i as int),
            decreases self.entries.len() - i,
        {
            let ghost before = entries@;
            let entry = self.entries[i].duplicate();
            entries.push(entry);
            assert(entries@.map_values(|e: Entry| e@) =~= before.map_values(|e: Entry| e@).push(
                entry@,
            ));
            assert(self@.take(i + 1) =~= self@.take(i as int).push(self.entries@[i as int]@));
            i += 1;
        }
        assert(entries@.map_values(|e: Entry| e@) =~= self@);
        Vocab { entries }
    }

    /// The number of entries.
    pub fn len(&self) -> (len: usize)
        ensures
            len == self@.len(),
    {
        self.entries.len()
    }

    /// Whether there is no entry at all.
    pub fn is_empty(&self) -> (empty: bool)
        ensures
            empty == (self@.len() == 0),
    {
        self.entries.len() == 0
    }

    /// The entry at place `index`, counted from zero in key order.
    pub fn get(&self, index: usize) -> (entry: Option<&Entry>)
        ensures
            index < self@.len() ==> entry is Some && entry->0@ == self@[index as int],
            index >= self@.len() ==> entry is None,
    {
        if index < self.entries.len() {
            Some(&self.entries[index])
        } else {
            None
        }
    }

    /// The number of entries whose key comes before `key`.
    pub fn rank(&self, key: &Vec<char>) -> (r: usize)
        ensures
            r == rank(self@, key@),
            r <= self@.len(),
    {
        proof {
            use_type_invariant(self);
        }
        let mut low: usize = 0;
        let mut high: usize = self.entries.len();
        while low < high
            invariant
                low <= high <= self.entries.len(),
                self@.len() == self.entries.len(),
                sorted(self@),
                forall|i: int|
                    0 <= i < self@.len() ==> (#[trigger] self@[i]).key == self.entries@[i].key@,
                forall|i: int| 0 <= i < low ==> precedes(#[trigger] self@[i].key, key@),
                forall|i: int| high <= i < self@.len() ==> !precedes(#[trigger] self@[i].key, key@),
            decreases high - low,
        {
            let middle = low + (high - low) / 2;
            match compare(&self.entries[middle].key, key) {
                Order::Before => {
                    proof {
                        assert forall|i: int| 0 <= i < middle + 1 implies precedes(
                            #[trigger] self@[i].key,
                            key@,
                        ) by {
                            if i < middle {
                                lemma_precedes_transitive(
                                    self@[i].key,
                                    self@[middle as int].key,
                                    key@,
                                );
                            }
                        }
                    }
                    low = middle + 1;
                },
                _ => {
                    proof {
                        assert forall|i: int| middle <= i < self@.len() implies !precedes(
                            #[trigger] self@[i].key,
                            key@,
                        ) by {
                            if i > middle && precedes(self@[i].key, key@) {
                                lemma_precedes_transitive(
                                    self@[middle as int].key,
                                    self@[i].key,
                                    key@,
                                );
                            }
                        }
                    }
                    high = middle;
                },
            }
        }
        proof {
            lemma_rank_is(self@, key@, low as int);
        }
        low
    }

    /// The place of the entry with the given key, if there is one.
    pub fn find(&self, key: &Vec<char>) -> (place: Option<usize>)
        ensures
            place is Some == position(self@, key@) is Some,
            place matches Some(i) ==> position(self@, key@) == Some(i as int),
    {
        let r = self.rank(key);
        if r < self.entries.len() {
            match compare(&self.entries[r].key, key) {
                Order::Same => Some(r),
                _ => None,
            }
        } else {
            None
        }
    }

    /// The entry filed under the key of `word`, if there is one.
    pub fn entry_of(&self, word: &VocabWord) -> (entry: Option<&Entry>)
        ensures
            match entry {
                Some(e) => lookup(self@, key_of(word@)) == Some(e@),
                None => lookup(self@, key_of(word@)) is None,
            },
    {
        let key = word.key();
        match self.find(&key) {
            Some(i) => Some(&self.entries[i]),
            None => None,
        }
    }

    /// Files one translation under `key`. A new key gets an entry of its own,
    /// with `word` as its headword. An entry that is there already keeps its
    /// headword; its translations grow by the new one when `accumulate` is
    /// set, and are replaced by the new one alone when not.
    pub fn put(&mut self, key: Vec<char>, word: VocabWord, translation: String, accumulate: bool)
        ensures
            final(self)@ == put_spec(old(self)@, key@, word@, translation@, accumulate),
            well_formed(final(self)@),
    {
        proof {
            use_type_invariant(&*self);
            lemma_put_well_formed(self@, key@, word@, translation@, accumulate);
        }
        let ghost before = self@;
        let ghost after = put_spec(before, key@, word@, translation@, accumulate);
        let place = self.find(&key);
        let r = self.rank(&key);
        let mut entries: Vec<Entry> = Vec::new();
        core::mem::swap(&mut self.entries, &mut entries);
        match place {
            Some(i) => {
                if accumulate {
                    entries[i].translations.push(translation);
                } else {
                    let mut only: Vec<String> = Vec::new();
                    only.push(translation);
                    entries[i].translations = only;
                }
            },
            None => {
                let mut only: Vec<String> = Vec::new();
                only.push(translation);
                entries.insert(r, Entry { key, word, translations: only });
            },
        }
        proof {
            let now = entries@.map_values(|e: Entry| e@);
            assert(now =~= after) by {
                assert(now[r as int].translations =~= after[r as int].translations);
            }
        }
        core::mem::swap(&mut self.entries, &mut entries);
    }

    /// Files a translation under the headword `word`, which is first freed of
    /// its stress marks. A headword that is there already gains the
    /// translation behind those it has.
    pub fn accumulate(&mut self, word: &str, translation: String)
        ensures
            final(self)@ == put_spec(
                old(self)@,
                key_of(strip_spec(word@)),
                strip_spec(word@),
                translation@,
                true,
            ),
            well_formed(final(self)@),
    {
        let headword = VocabWord::new(word);
        let key = headword.key();
        self.put(key, headword, translation, true);
    }

    /// Files a translation under the headword `word`, which is first freed of
    /// its stress marks. A headword that is there already loses the
    /// translations it had and keeps this one.
    pub fn replace(&mut self, word: &str, translation: String)
        ensures
            final(self)@ == put_spec(
                old(self)@,
                key_of(strip_spec(word@)),
                strip_spec(word@),
                translation@,
                false,
            ),
            well_formed(final(self)@),
    {
        let headword = VocabWord::new(word);
        let key = headword.key();
        self.put(key, headword, translation, false);
    }

    /// The vocabulary without its first `count` entries; empty when it has
    /// no more than that.
    pub fn without_leading(self, count: usize) -> (rest: Vocab)
        ensures
            rest@ == without_leading_spec(self@, count as nat),
            well_formed(rest@),
            normalized(self@) ==> normalized(rest@),
    {
        proof {
            use_type_invariant(&self);
        }
        let ghost before = self@;
        let mut entries = self.entries;
        if count <= entries.len() {
            let kept = entries.split_off(count);
            proof {
                lemma_subrange_well_formed(before, count as int, before.len() as int);
                assert(kept@.map_values(|e: Entry| e@) =~= before.skip(count as int));
            }
            Vocab { entries: kept }
        } else {
            Vocab::new()
        }
    }

    /// Batch `number` of the vocabulary cut into batches of `size` entries:
    /// the entries from place `number * size` on, `size` of them or as many
    /// as are left. The batch is empty when the vocabulary ends before it
    /// begins.
    pub fn batch(self, number: usize, size: usize) -> (batch: Vocab)
        ensures
            batch@ == batch_spec(self@, number as nat, size as nat),
            well_formed(batch@),
            normalized(self@) ==> normalized(batch@),
    {
        proof {
            use_type_invariant(&self);
        }
        let ghost before = self@;
        let mut entries = self.entries;
        let (start, end) = batch_bounds(entries.len(), number, size);
        entries.truncate(end);
        let kept = entries.split_off(start);
        proof {
            lemma_subrange_well_formed(before, start as int, end as int);
            assert(kept@.map_values(|e: Entry| e@) =~= before.subrange(start as int, end as int));
        }
        Vocab { entries: kept }
    }

    /// The batch that `request` chooses, or the report that the vocabulary
    /// ends before that batch begins.
    pub fn select(self, request: &BatchRequest) -> (chosen: Result<Vocab, VocabError>)
        ensures
            match chosen {
                Ok(batch) => {
                    &&& batch@ == batch_spec(
                        self@,
                        request.number_spec() as nat,
                        request.size_spec() as nat,
                    )
                    &&& batch@.len() > 0
                    &&& well_formed(batch@)
                    &&& normalized(self@) ==> normalized(batch@)
                },
                Err(e) => {
                    &&& e == VocabError::EmptyBatchSelection
                    &&& batch_spec(
                        self@,
                        request.number_spec() as nat,
                        request.size_spec() as nat,
                    ).len() == 0
                },
            },
    {
        let batch = self.batch(request.number(), request.size());
        if batch.is_empty() {
            Err(VocabError::EmptyBatchSelection)
        } else {
            Ok(batch)
        }
    }
}

} // verus!
