//! Building a vocabulary from the lines of a word list.
//!
//! Two formats are read. The tagged format holds one entry per line, wrapped
//! in markup of fixed width; a headword that occurs again gains a further
//! translation. The paired format holds a headword line, a translation line
//! and a separator line in turn; a headword that occurs again keeps its last
//! translation.
//!
//! A line of the tagged format that does not have the layout ends the load,
//! unless the caller asks for such lines to be passed over and reported. A
//! paired list that ends on a headword without its translation is an error,
//! unless the caller asks for the load to stop in front of that headword.
//!
//! What a loader returns depends on the text of the lines alone: the same
//! source always gives the same vocabulary.

use vstd::prelude::*;
use crate::error::VocabError;
use crate::record::{parse_tagged, tagged_fields};
use crate::seqs::{lemma_filter_keeps_all, lemma_filter_push, lemma_places_push, places};
use crate::stress::{lemma_stripped_is_unmarked, strip_spec};
use crate::vocab::{
    key_of, lemma_put_lookup, lemma_put_well_formed, lemma_subrange_well_formed, lookup,
    normalized, put_spec, texts, well_formed, without_leading_spec, EntryView, Vocab,
};

verus! {

/// The number of entries at the head of the Bulgarian–English list that are
/// proper names. It belongs to that one list: with another source it has to
/// be counted anew.
pub const LEADING_NAME_ENTRIES: usize = 2287;

/// The number of lines that one record of the paired format takes.
pub const RECORD_LINES: usize = 3;

/// The vocabulary after one more headword of the tagged format: the
/// headword is freed of its stress marks and gains the translation.
pub open spec fn tagged_put(
    entries: Seq<EntryView>,
    word: Seq<char>,
    translation: Seq<char>,
) -> Seq<EntryView> {
    put_spec(entries, key_of(strip_spec(word)), strip_spec(word), translation, true)
}

/// The vocabulary after one more record of the paired format: the headword
/// is freed of its stress marks and keeps this translation alone.
pub open spec fn paired_put(
    entries: Seq<EntryView>,
    word: Seq<char>,
    translation: Seq<char>,
) -> Seq<EntryView> {
    put_spec(entries, key_of(strip_spec(word)), strip_spec(word), translation, false)
}

/// The vocabulary that the lines of the tagged format give, taken in order,
/// or `None` where one of them does not have the layout.
pub open spec fn tagged_vocab(lines: Seq<Seq<char>>) -> Option<Seq<EntryView>>
    decreases lines.len(),
{
    if lines.len() == 0 {
        Some(Seq::empty())
    } else {
        match (tagged_vocab(lines.drop_last()), tagged_fields(lines.last())) {
            (Some(entries), Some((word, translation))) => Some(
                tagged_put(entries, word, translation),
            ),
            _ => None,
        }
    }
}

/// What loading the tagged format comes to: the vocabulary of all lines
/// without its first `skip` entries, or the error of a malformed line.
pub open spec fn tagged_outcome(lines: Seq<Seq<char>>, skip: nat) -> Result<
    Seq<EntryView>,
    VocabError,
> {
    match tagged_vocab(lines) {
        Some(entries) => Ok(without_leading_spec(entries, skip)),
        None => Err(VocabError::MalformedRecord),
    }
}

/// What a load does with a line that does not have the layout.
#[derive(Clone, Copy, Debug, PartialEq, Eq, Structural)]
pub enum OnMalformed {
    /// The load ends with an error.
    Abort,
    /// The line is passed over and its number reported.
    Skip,
}

/// Whether a line has the layout of the tagged format.
pub open spec fn has_layout(line: Seq<char>) -> bool {
    tagged_fields(line) is Some
}

/// The lines that have the layout, in order.
pub open spec fn lines_with_layout(lines: Seq<Seq<char>>) -> Seq<Seq<char>> {
    lines.filter(|line: Seq<char>| has_layout(line))
}

/// The numbers of the lines that do not have the layout, counted from zero,
/// in ascending order.
pub open spec fn lines_without_layout(lines: Seq<Seq<char>>) -> Seq<usize> {
    places(lines, |line: Seq<char>| !has_layout(line))
}

/// What loading the tagged format under a policy comes to: the vocabulary
/// without its first `skip` entries, together with the numbers of the lines
/// that were passed over. Under `Abort` no line is passed over and a line
/// without the layout is an error; under `Skip` the vocabulary is that of
/// the lines that have the layout.
pub open spec fn tagged_load(lines: Seq<Seq<char>>, skip: nat, policy: OnMalformed) -> Result<
    (Seq<EntryView>, Seq<usize>),
    VocabError,
> {
    match policy {
        OnMalformed::Abort => match tagged_vocab(lines) {
            Some(entries) => Ok((without_leading_spec(entries, skip), Seq::empty())),
            None => Err(VocabError::MalformedRecord),
        },
        OnMalformed::Skip => match tagged_vocab(lines_with_layout(lines)) {
            Some(entries) => Ok((without_leading_spec(entries, skip), lines_without_layout(lines))),
            None => Err(VocabError::MalformedRecord),
        },
    }
}

/// The vocabulary that the first `records` records of the paired format
/// give. Record `r` has its headword on line `3 * r` and its translation on
/// the line behind it; the third line of a record is passed over.
pub open spec fn paired_vocab(lines: Seq<Seq<char>>, records: nat) -> Seq<EntryView>
    decreases records,
{
    if records == 0 {
        Seq::empty()
    } else {
        let r = (records - 1) as nat;
        paired_put(paired_vocab(lines, r), lines[RECORD_LINES * r], lines[RECORD_LINES * r + 1])
    }
}

/// What a load does with a last headword that has no translation line
/// behind it.
#[derive(Clone, Copy, Debug, PartialEq, Eq, Structural)]
pub enum OnTruncated {
    /// The load ends with an error.
    Fail,
    /// The load ends in front of that headword, with the records read so
    /// far.
    Stop,
}

/// What loading the paired format under a policy comes to: the vocabulary
/// of all records, unless the last headword has no translation line behind
/// it; then an error under `Fail`, and the vocabulary of the records in
/// front of that headword under `Stop`.
pub open spec fn paired_load(lines: Seq<Seq<char>>, policy: OnTruncated) -> Result<
    Seq<EntryView>,
    VocabError,
> {
    if lines.len() % 3 == 1 {
        match policy {
            OnTruncated::Fail => Err(VocabError::TruncatedRecord),
            OnTruncated::Stop => Ok(paired_vocab(lines, lines.len() / 3)),
        }
    } else {
        Ok(paired_vocab(lines, (lines.len() + 1) / 3))
    }
}

/// What loading the paired format comes to: an error where the last
/// headword has no translation line behind it, else the vocabulary of all
/// records.
pub open spec fn paired_outcome(lines: Seq<Seq<char>>) -> Result<Seq<EntryView>, VocabError> {
    paired_load(lines, OnTruncated::Fail)
}

/// Filing a headword as a loader does keeps the vocabulary well formed and
/// normalized.
pub proof fn lemma_loader_put(entries: Seq<EntryView>, word: Seq<char>, translation: Seq<char>)
    requires
        well_formed(entries),
        normalized(entries),
    ensures
        well_formed(tagged_put(entries, word, translation)),
        normalized(tagged_put(entries, word, translation)),
        well_formed(paired_put(entries, word, translation)),
        normalized(paired_put(entries, word, translation)),
{
    lemma_stripped_is_unmarked(word);
    lemma_put_well_formed(
        entries,
        key_of(strip_spec(word)),
        strip_spec(word),
        translation,
        true,
    );
    lemma_put_well_formed(
        entries,
        key_of(strip_spec(word)),
        strip_spec(word),
        translation,
        false,
    );
}

/// One malformed line spoils the whole load, and only a malformed line does.
pub proof fn lemma_tagged_vocab_fails(lines: Seq<Seq<char>>)
    ensures
        tagged_vocab(lines) is None <==> exists|i: int|
            0 <= i < lines.len() && tagged_fields(#[trigger] lines[i]) is None,
    decreases lines.len(),
{
    if lines.len() > 0 {
        let before = lines.drop_last();
        lemma_tagged_vocab_fails(before);
        if tagged_vocab(before) is None {
            let i = choose|i: int|
                0 <= i < before.len() && tagged_fields(#[trigger] before[i]) is None;
            assert(lines[i] == before[i]);
        } else if tagged_fields(lines.last()) is None {
            assert(lines[lines.len() - 1] == lines.last());
        } else {
            assert forall|i: int| 0 <= i < lines.len() implies tagged_fields(
                #[trigger] lines[i],
            ) is Some by {
                if i < before.len() {
                    assert(lines[i] == before[i]);
                }
            }
        }
    }
}

/// The vocabulary of the tagged format is well formed and normalized.
pub proof fn lemma_tagged_vocab_well_formed(lines: Seq<Seq<char>>)
    ensures
        tagged_vocab(lines) matches Some(entries) ==> well_formed(entries) && normalized(entries),
    decreases lines.len(),
{
    if lines.len() > 0 {
        lemma_tagged_vocab_well_formed(lines.drop_last());
        match (tagged_vocab(lines.drop_last()), tagged_fields(lines.last())) {
            (Some(entries), Some((word, translation))) => {
                lemma_loader_put(entries, word, translation);
            },
            _ => {},
        }
    }
}

/// The vocabulary of the paired format is well formed and normalized.
pub proof fn lemma_paired_vocab_well_formed(lines: Seq<Seq<char>>, records: nat)
    ensures
        well_formed(paired_vocab(lines, records)),
        normalized(paired_vocab(lines, records)),
    decreases records,
{
    if records > 0 {
        let r = (records - 1) as nat;
        lemma_paired_vocab_well_formed(lines, r);
        lemma_loader_put(
            paired_vocab(lines, r),
            lines[RECORD_LINES * r],
            lines[RECORD_LINES * r + 1],
        );
    }
}

/// The key under which record `r` of the paired format is filed.
pub open spec fn record_key(lines: Seq<Seq<char>>, r: int) -> Seq<char> {
    key_of(strip_spec(lines[RECORD_LINES * r]))
}

/// The entry that record `r` of the paired format makes when its headword
/// is new: the stripped headword with the one translation.
pub open spec fn record_entry(lines: Seq<Seq<char>>, r: int) -> EntryView {
    EntryView {
        key: record_key(lines, r),
        word: strip_spec(lines[RECORD_LINES * r]),
        translations: seq![lines[RECORD_LINES * r + 1]],
    }
}

/// Whether the first `records` records are filed under keys that all
/// differ.
pub open spec fn keys_differ(lines: Seq<Seq<char>>, records: nat) -> bool {
    forall|i: int, j: int|
        0 <= i < j < records ==> #[trigger] record_key(lines, i) != #[trigger] record_key(lines, j)
}

/// The paired format holds no key but those of its records, and records
/// whose keys all differ give one entry each: as many entries as records,
/// and under the key of each record its headword with its translation.
pub proof fn lemma_paired_records(lines: Seq<Seq<char>>, records: nat)
    ensures
        forall|key: Seq<char>|
            (forall|i: int| 0 <= i < records ==> key != #[trigger] record_key(lines, i)) ==> (
            #[trigger] lookup(paired_vocab(lines, records), key)) is None,
        keys_differ(lines, records) ==> paired_vocab(lines, records).len() == records,
        keys_differ(lines, records) ==> forall|i: int|
            0 <= i < records ==> lookup(
                paired_vocab(lines, records),
                #[trigger] record_key(lines, i),
            ) == Some(record_entry(lines, i)),
    decreases records,
{
    let now = paired_vocab(lines, records);
    if records == 0 {
        assert forall|key: Seq<char>| (#[trigger] lookup(now, key)) is None by {
            reveal(Seq::filter);
        }
    } else {
        let r = (records - 1) as nat;
        let before = paired_vocab(lines, r);
        let word = strip_spec(lines[RECORD_LINES * r]);
        let translation = lines[RECORD_LINES * r + 1];
        let last = record_key(lines, r as int);
        lemma_paired_records(lines, r);
        lemma_paired_vocab_well_formed(lines, r);
        assert forall|key: Seq<char>|
            (forall|i: int| 0 <= i < records ==> key != #[trigger] record_key(lines, i)) implies (
        #[trigger] lookup(now, key)) is None by {
            assert(key != record_key(lines, r as int));
            lemma_put_lookup(before, last, word, translation, false, key);
        }
        if keys_differ(lines, records) {
            assert(keys_differ(lines, r));
            assert(lookup(before, last) is None) by {
                assert forall|i: int| 0 <= i < r implies last != #[trigger] record_key(lines, i) by {
                    assert(record_key(lines, i) != record_key(lines, r as int));
                }
            }
            lemma_put_lookup(before, last, word, translation, false, last);
            assert forall|i: int| 0 <= i < records implies lookup(
                now,
                #[trigger] record_key(lines, i),
            ) == Some(record_entry(lines, i)) by {
                if i < r {
                    assert(record_key(lines, i) != record_key(lines, r as int));
                    lemma_put_lookup(before, last, word, translation, false, record_key(lines, i));
                }
            }
        }
    }
}

/// Passing over the lines without the layout, a load never fails.
pub proof fn lemma_skip_never_fails(lines: Seq<Seq<char>>, skip: nat)
    ensures
        tagged_vocab(lines_with_layout(lines)) is Some,
        tagged_load(lines, skip, OnMalformed::Skip) is Ok,
{
    broadcast use vstd::seq_lib::group_filter_ensures;

    let kept = lines_with_layout(lines);
    lemma_tagged_vocab_fails(kept);
    assert forall|i: int| 0 <= i < kept.len() implies tagged_fields(#[trigger] kept[i]) is Some by {
        assert(has_layout(kept[i]));
    }
}

/// Where every line has the layout, both policies load the same and pass
/// over nothing.
pub proof fn lemma_policies_agree(lines: Seq<Seq<char>>, skip: nat)
    requires
        forall|i: int| 0 <= i < lines.len() ==> has_layout(#[trigger] lines[i]),
        lines.len() <= usize::MAX,
    ensures
        tagged_load(lines, skip, OnMalformed::Skip) == tagged_load(
            lines,
            skip,
            OnMalformed::Abort,
        ),
        tagged_load(lines, skip, OnMalformed::Abort) is Ok,
{
    lemma_filter_keeps_all(lines, |line: Seq<char>| has_layout(line));
    lemma_tagged_vocab_fails(lines);
    lemma_no_places(lines);
}

/// Where every line has the layout, no line is without it.
proof fn lemma_no_places(lines: Seq<Seq<char>>)
    requires
        forall|i: int| 0 <= i < lines.len() ==> has_layout(#[trigger] lines[i]),
        lines.len() <= usize::MAX,
    ensures
        lines_without_layout(lines) == Seq::<usize>::empty(),
    decreases lines.len(),
{
    if lines.len() == 0 {
        assert(lines_without_layout(lines) =~= Seq::<usize>::empty()) by {
            reveal(Seq::filter);
        }
    } else {
        let before = lines.drop_last();
        assert forall|i: int| 0 <= i < before.len() implies has_layout(#[trigger] before[i]) by {
            assert(before[i] == lines[i]);
        }
        lemma_no_places(before);
        lemma_places_push(before, lines.last(), |line: Seq<char>| !has_layout(line));
        assert(before.push(lines.last()) =~= lines);
        assert(has_layout(lines[lines.len() - 1]));
    }
}

/// Loading is a function of the text of the source: two sources that hold
/// the same lines load into the same vocabulary, or fail in the same way.
pub proof fn lemma_same_source_same_vocabulary(
    first: Seq<String>,
    second: Seq<String>,
    skip: nat,
    malformed: OnMalformed,
    truncated: OnTruncated,
)
    requires
        texts(first) == texts(second),
    ensures
        tagged_outcome(texts(first), skip) == tagged_outcome(texts(second), skip),
        tagged_load(texts(first), skip, malformed) == tagged_load(texts(second), skip, malformed),
        paired_outcome(texts(first)) == paired_outcome(texts(second)),
        paired_load(texts(first), truncated) == paired_load(texts(second), truncated),
{
}

/// Reads one line of the tagged format into the vocabulary: the headword,
/// freed of its stress marks, gains the translation of the line. A line
/// without the layout is refused and leaves the vocabulary as it was.
pub fn add_to_vocabulary(vocab: &mut Vocab, line: &String) -> (done: Result<(), VocabError>)
    ensures
        match done {
            Ok(()) => {
                &&& tagged_fields(line@) matches Some((word, translation))
                &&& final(vocab)@ == tagged_put(old(vocab)@, word, translation)
            },
            Err(e) => {
                &&& e == VocabError::MalformedRecord
                &&& tagged_fields(line@) is None
                &&& final(vocab)@ == old(vocab)@
            },
        },
        well_formed(old(vocab)@),
        well_formed(final(vocab)@),
        normalized(old(vocab)@) ==> normalized(final(vocab)@),
{
    let ghost before = vocab@;
    proof {
        use_type_invariant(&*vocab);
    }
    match parse_tagged(line.as_str()) {
        Ok((word, translation)) => {
            proof {
                if normalized(before) {
                    lemma_loader_put(before, word@, translation@);
                }
            }
            vocab.accumulate(word.as_str(), translation);
            Ok(())
        },
        Err(e) => Err(e),
    }
}

/// What a load of the tagged format gave.
#[derive(Debug, PartialEq, Eq)]
pub struct TaggedLoad {
    /// The vocabulary.
    pub vocab: Vocab,
    /// The numbers of the lines that were passed over, counted from zero.
    pub skipped: Vec<usize>,
}

impl Clone for TaggedLoad {
    fn clone(&self) -> (copy: TaggedLoad) {
        TaggedLoad { vocab: self.vocab.duplicate(), skipped: self.skipped.clone() }
    }
}

/// Loads the tagged format under a policy: reads every line into a
/// vocabulary and then drops the first `skip` entries. Under `Abort` the
/// first line without the layout ends the load with its error; under `Skip`
/// such lines are passed over and their numbers handed back.
pub fn load_tagged(lines: &Vec<String>, skip: usize, policy: OnMalformed) -> (loaded: Result<
    TaggedLoad,
    VocabError,
>)
    ensures
        match loaded {
            Ok(load) => {
                &&& tagged_load(texts(lines@), skip as nat, policy) == Ok::<
                    (Seq<EntryView>, Seq<usize>),
                    VocabError,
                >((load.vocab@, load.skipped@))
                &&& well_formed(load.vocab@)
                &&& normalized(load.vocab@)
            },
            Err(e) => {
                &&& policy == OnMalformed::Abort
                &&& tagged_load(texts(lines@), skip as nat, policy) == Err::<
                    (Seq<EntryView>, Seq<usize>),
                    VocabError,
                >(e)
            },
        },
{
    let ghost source = texts(lines@);
    let mut vocab = Vocab::new();
    let mut skipped: Vec<usize> = Vec::new();
    let mut i: usize = 0;
    proof {
        reveal(Seq::filter);
        assert(source.take(0) =~= Seq::<Seq<char>>::empty());
        assert(lines_without_layout(source.take(0)) =~= Seq::<usize>::empty());
        assert(lines_with_layout(source.take(0)) =~= Seq::<Seq<char>>::empty());
    }
    while i < lines.len()
        invariant
            i <= lines.len(),
            source == texts(lines@),
            tagged_vocab(lines_with_layout(source.take(i as int))) == Some(vocab@),
            skipped@ == lines_without_layout(source.take(i as int)),
            policy == OnMalformed::Abort ==> lines_with_layout(source.take(i as int))
                == source.take(i as int) && skipped@.len() == 0,
            well_formed(vocab@),
            normalized(vocab@),
        decreases lines.len() - i,
    {
        let ghost seen = source.take(i as int);
        let ghost line = lines@[i as int]@;
        proof {
            assert(source.take(i + 1) =~= seen.push(line));
            lemma_filter_push(seen, line, |line: Seq<char>| has_layout(line));
            lemma_places_push(seen, line, |line: Seq<char>| !has_layout(line));
            assert(lines_with_layout(seen).push(line).drop_last() =~= lines_with_layout(seen));
        }
        match add_to_vocabulary(&mut vocab, &lines[i]) {
            Ok(()) => {},
            Err(e) => {
                match policy {
                    OnMalformed::Abort => {
                        proof {
                            lemma_tagged_vocab_fails(source);
                            assert(source[i as int] == line);
                        }
                        return Err(e);
                    },
                    OnMalformed::Skip => {
                        skipped.push(i);
                    },
                }
            },
        }
        i += 1;
    }
    proof {
        assert(source.take(lines.len() as int) =~= source);
        if skip <= vocab@.len() {
            lemma_subrange_well_formed(vocab@, skip as int, vocab@.len() as int);
        }
        if policy == OnMalformed::Abort {
            assert(skipped@ =~= Seq::<usize>::empty());
        }
    }
    Ok(TaggedLoad { vocab: vocab.without_leading(skip), skipped })
}

/// Loads the tagged format: reads every line into a vocabulary and then
/// drops the first `skip` entries. The first line without the layout ends
/// the load with its error.
pub fn get_en_vocabulary(lines: &Vec<String>, skip: usize) -> (loaded: Result<Vocab, VocabError>)
    ensures
        match loaded {
            Ok(vocab) => tagged_outcome(texts(lines@), skip as nat) == Ok::<
                Seq<EntryView>,
                VocabError,
            >(vocab@) && well_formed(vocab@) && normalized(vocab@),
            Err(e) => tagged_outcome(texts(lines@), skip as nat) == Err::<
                Seq<EntryView>,
                VocabError,
            >(e),
        },
{
    match load_tagged(lines, skip, OnMalformed::Abort) {
        Ok(load) => Ok(load.vocab),
        Err(e) => Err(e),
    }
}

/// Loads the paired format under a policy: each record gives a headword,
/// freed of its stress marks, and its translation; a headword that was read
/// before keeps the later translation. A last headword without a
/// translation line ends the load, with an error under `Fail` and with the
/// records in front of it under `Stop`.
pub fn load_paired(lines: &Vec<String>, policy: OnTruncated) -> (loaded: Result<Vocab, VocabError>)
    ensures
        match loaded {
            Ok(vocab) => paired_load(texts(lines@), policy) == Ok::<Seq<EntryView>, VocabError>(
                vocab@,
            ) && well_formed(vocab@) && normalized(vocab@),
            Err(e) => paired_load(texts(lines@), policy) == Err::<Seq<EntryView>, VocabError>(e),
        },
{
    let ghost source = texts(lines@);
    let count = lines.len();
    let mut vocab = Vocab::new();
    let mut at: usize = 0;
    let ghost mut records: nat = 0;
    while count - at >= 2
        invariant
            at <= count,
            count == lines.len(),
            source == texts(lines@),
            RECORD_LINES * records <= count + 1,
            at == if RECORD_LINES * records <= count {
                RECORD_LINES * records
            } else {
                count as int
            },
            vocab@ == paired_vocab(source, records),
        decreases count - at,
    {
        proof {
            assert(source[at as int] == lines@[at as int]@);
            assert(source[at + 1] == lines@[at + 1]@);
        }
        vocab.replace(lines[at].as_str(), lines[at + 1].clone());
        proof {
            records = records + 1;
        }
        at = if count - at >= RECORD_LINES {
            at + RECORD_LINES
        } else {
            count
        };
    }
    proof {
        lemma_paired_vocab_well_formed(source, records);
    }
    if count - at == 1 {
        match policy {
            OnTruncated::Fail => Err(VocabError::TruncatedRecord),
            OnTruncated::Stop => Ok(vocab),
        }
    } else {
        Ok(vocab)
    }
}

/// Loads the paired format: each record gives a headword, freed of its
/// stress marks, and its translation; a headword that was read before keeps
/// the later translation. A last headword without a translation line ends
/// the load with an error.
pub fn get_ru_vocabulary(lines: &Vec<String>) -> (loaded: Result<Vocab, VocabError>)
    ensures
        match loaded {
            Ok(vocab) => paired_outcome(texts(lines@)) == Ok::<Seq<EntryView>, VocabError>(vocab@)
                && well_formed(vocab@) && normalized(vocab@),
            Err(e) => paired_outcome(texts(lines@)) == Err::<Seq<EntryView>, VocabError>(e),
        },
{
    load_paired(lines, OnTruncated::Fail)
}

} // verus!
