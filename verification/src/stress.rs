//! The stress codec: drawing the combining acute accent onto a word and
//! stripping it off again.
//!
//! A word list marks the stressed letter of a word by writing it in upper
//! case. For display the word is shown in lower case with a combining acute
//! accent after that letter; for lookup the accent is removed again.

use vstd::prelude::*;
use crate::seqs::{
    lemma_filter_insert, lemma_filter_keeps_all, lemma_filter_push, lemma_places,
    lemma_places_push, places,
};
use crate::text::{chars_of, string_of};
use crate::unicode::{is_uppercase, is_uppercase_letter, lowercase, to_lowercase};

verus! {

/// The combining acute accent, written directly after the stressed letter.
pub const STRESS_MARK: char = '\u{301}';

/// `word` without any stress mark.
pub open spec fn strip_spec(word: Seq<char>) -> Seq<char> {
    word.filter(|c: char| c != STRESS_MARK)
}

/// How many stress marks `word` holds.
pub open spec fn mark_count(word: Seq<char>) -> nat {
    word.filter(|c: char| c == STRESS_MARK).len()
}

/// The positions of the upper-case letters of `word`, counted in characters
/// from zero, in ascending order.
pub open spec fn stress_positions_spec(word: Seq<char>) -> Seq<usize> {
    places(word, |c: char| is_uppercase_letter(c))
}

/// Where the mark for the letter at `position` goes in a word of `len`
/// characters: directly behind that letter, or at the end of the word when
/// the position is the last one or lies beyond it.
pub open spec fn mark_slot(len: nat, position: usize) -> int {
    if position < len {
        position + 1
    } else {
        len as int
    }
}

/// `word` with a stress mark inserted for each of `positions`. The positions
/// are taken from the last to the first, so with ascending positions no
/// insertion moves a letter that is still waiting for its mark.
pub open spec fn with_marks(word: Seq<char>, positions: Seq<usize>) -> Seq<char>
    decreases positions.len(),
{
    if positions.len() == 0 {
        word
    } else {
        with_marks(
            word.insert(mark_slot(word.len(), positions.last()), STRESS_MARK),
            positions.drop_last(),
        )
    }
}

/// The drawn form of `word`: unchanged when no letter is upper case, else
/// the lower-case word with a mark behind each letter that was upper case.
/// The letters are counted in the word as written and found again by their
/// number in the lower-case word.
pub open spec fn draw_spec(word: Seq<char>) -> Seq<char> {
    if stress_positions_spec(word).len() == 0 {
        word
    } else {
        with_marks(lowercase(word), stress_positions_spec(word))
    }
}

/// Removes every stress mark from `word`.
pub fn strip(word: &str) -> (plain: String)
    ensures
        plain@ == strip_spec(word@),
{
    let letters = chars_of(word);
    let mut kept: Vec<char> = Vec::new();
    let mut i: usize = 0;
    proof {
        reveal(Seq::filter);
    }
    while i < letters.len()
        invariant
            i <= letters.len(),
            kept@ == strip_spec(letters@.take(i as int)),
        decreases letters.len() - i,
    {
        proof {
            lemma_filter_push(
                letters@.take(i as int),
                letters@[i as int],
                |c: char| c != STRESS_MARK,
            );
            assert(letters@.take(i + 1) =~= letters@.take(i as int).push(letters@[i as int]));
        }
        if letters[i] != STRESS_MARK {
            kept.push(letters[i]);
        }
        i += 1;
    }
    proof {
        assert(letters@.take(letters@.len() as int) =~= letters@);
    }
    string_of(&kept)
}

/// Finds the letters of `word` that are written in upper case.
pub fn stress_positions(word: &str) -> (positions: Vec<usize>)
    ensures
        positions@ == stress_positions_spec(word@),
{
    let letters = chars_of(word);
    let mut positions: Vec<usize> = Vec::new();
    let mut i: usize = 0;
    proof {
        reveal(Seq::filter);
    }
    while i < letters.len()
        invariant
            i <= letters.len(),
            positions@ == stress_positions_spec(letters@.take(i as int)),
        decreases letters.len() - i,
    {
        proof {
            lemma_places_push(
                letters@.take(i as int),
                letters@[i as int],
                |c: char| is_uppercase_letter(c),
            );
            assert(letters@.take(i + 1) =~= letters@.take(i as int).push(letters@[i as int]));
        }
        if is_uppercase(letters[i]) {
            positions.push(i);
        }
        i += 1;
    }
    proof {
        assert(letters@.take(letters@.len() as int) =~= letters@);
    }
    positions
}

/// Inserts a stress mark behind the letter at each of `positions`, working
/// from the last position to the first. A position at or beyond the last
/// letter puts its mark at the end of the word.
pub fn place_marks(word: &str, positions: &Vec<usize>) -> (marked: String)
    ensures
        marked@ == with_marks(word@, positions@),
{
    let mut letters = chars_of(word);
    let mut k: usize = positions.len();
    proof {
        assert(positions@.take(k as int) =~= positions@);
    }
    while k > 0
        invariant
            k <= positions.len(),
            with_marks(word@, positions@) == with_marks(letters@, positions@.take(k as int)),
        decreases k,
    {
        k -= 1;
        let position = positions[k];
        let slot = if position < letters.len() {
            position + 1
        } else {
            letters.len()
        };
        proof {
            assert(positions@.take(k + 1).drop_last() =~= positions@.take(k as int));
        }
        letters.insert(slot, STRESS_MARK);
    }
    string_of(&letters)
}

/// Draws the stress of `word`: a word without an upper-case letter comes
/// back unchanged; any other comes back in lower case, with a stress mark
/// behind each letter that was upper case.
pub fn draw_stress(word: &String) -> (drawn: String)
    ensures
        drawn@ == draw_spec(word@),
{
    let positions = stress_positions(word.as_str());
    if positions.len() == 0 {
        word.clone()
    } else {
        let lowered = to_lowercase(word.as_str());
        place_marks(lowered.as_str(), &positions)
    }
}

/// Stripping twice gives what stripping once gives.
pub proof fn lemma_strip_idempotent(word: Seq<char>)
    ensures
        strip_spec(strip_spec(word)) == strip_spec(word),
{
    broadcast use vstd::seq_lib::group_filter_ensures;

    let unmarked = |c: char| c != STRESS_MARK;
    lemma_filter_keeps_all(word.filter(unmarked), unmarked);
}

/// A word is already stripped exactly when it holds no stress mark.
pub proof fn lemma_strip_fixes_unmarked(word: Seq<char>)
    ensures
        strip_spec(word) == word <==> !word.contains(STRESS_MARK),
        strip_spec(word) == word <==> mark_count(word) == 0,
{
    broadcast use vstd::seq_lib::group_filter_ensures;

    let unmarked = |c: char| c != STRESS_MARK;
    let marked = |c: char| c == STRESS_MARK;
    if !word.contains(STRESS_MARK) {
        lemma_filter_keeps_all(word, unmarked);
        if word.filter(marked).len() > 0 {
            word.lemma_filter_contains_rev(marked, word.filter(marked)[0]);
        }
    } else {
        let i = choose|i: int| 0 <= i < word.len() && word[i] == STRESS_MARK;
        assert(word.filter(marked).contains(word[i]));
        if strip_spec(word) == word {
            assert(unmarked(word.filter(unmarked)[i]));
        }
    }
}

/// A stripped word holds no stress mark.
pub proof fn lemma_stripped_is_unmarked(word: Seq<char>)
    ensures
        !strip_spec(word).contains(STRESS_MARK),
        mark_count(strip_spec(word)) == 0,
{
    lemma_strip_idempotent(word);
    lemma_strip_fixes_unmarked(strip_spec(word));
}

/// Placing marks adds one character per position, each of them a stress
/// mark, and changes nothing else: stripping the result gives the stripped
/// word.
pub proof fn lemma_with_marks(word: Seq<char>, positions: Seq<usize>)
    ensures
        with_marks(word, positions).len() == word.len() + positions.len(),
        mark_count(with_marks(word, positions)) == mark_count(word) + positions.len(),
        strip_spec(with_marks(word, positions)) == strip_spec(word),
    decreases positions.len(),
{
    if positions.len() > 0 {
        let slot = mark_slot(word.len(), positions.last());
        let next = word.insert(slot, STRESS_MARK);
        lemma_filter_insert(word, slot, STRESS_MARK, |c: char| c != STRESS_MARK);
        lemma_filter_insert(word, slot, STRESS_MARK, |c: char| c == STRESS_MARK);
        lemma_with_marks(next, positions.drop_last());
    }
}

/// Marks that all belong to letters of the front part of a word leave the
/// rest of the word as it is.
pub proof fn lemma_marks_leave_the_rest(front: Seq<char>, rest: Seq<char>, positions: Seq<usize>)
    requires
        forall|k: int| 0 <= k < positions.len() ==> (#[trigger] positions[k]) < front.len(),
    ensures
        with_marks(front + rest, positions) == with_marks(front, positions) + rest,
    decreases positions.len(),
{
    if positions.len() > 0 {
        let slot = positions.last() + 1;
        let earlier = positions.drop_last();
        assert((front + rest).insert(slot, STRESS_MARK) =~= front.insert(slot, STRESS_MARK) + rest);
        assert forall|k: int| 0 <= k < earlier.len() implies (#[trigger] earlier[k])
            < front.insert(slot, STRESS_MARK).len() by {
            assert(earlier[k] == positions[k]);
        }
        lemma_marks_leave_the_rest(front.insert(slot, STRESS_MARK), rest, earlier);
    }
}

/// Where the marked letters are given in ascending order, the mark of the
/// last one stands directly behind its letter: in front of it stands the
/// word up to that letter, with the marks of the letters before, and behind
/// it the rest of the word, unchanged.
pub proof fn lemma_mark_stands_behind_letter(word: Seq<char>, positions: Seq<usize>)
    requires
        positions.len() > 0,
        positions.last() < word.len(),
        forall|k: int|
            0 <= k < positions.len() - 1 ==> (#[trigger] positions[k]) < positions.last(),
    ensures
        with_marks(word, positions) == with_marks(
            word.take(positions.last() + 1),
            positions.drop_last(),
        ).push(STRESS_MARK) + word.skip(positions.last() + 1),
{
    let last = positions.last() as int;
    let earlier = positions.drop_last();
    let front = word.take(last + 1);
    let rest = seq![STRESS_MARK] + word.skip(last + 1);
    assert(word.insert(last + 1, STRESS_MARK) =~= front + rest);
    assert forall|k: int| 0 <= k < earlier.len() implies (#[trigger] earlier[k]) < front.len() by {
        assert(earlier[k] == positions[k]);
    }
    lemma_marks_leave_the_rest(front, rest, earlier);
    assert(with_marks(front, earlier) + rest =~= with_marks(front, earlier).push(STRESS_MARK)
        + word.skip(last + 1));
}

/// A single mark stands directly behind its letter.
pub proof fn lemma_single_mark(word: Seq<char>, position: usize)
    requires
        position < word.len(),
    ensures
        with_marks(word, seq![position]) == word.take(position + 1).push(STRESS_MARK) + word.skip(
            position + 1,
        ),
{
    let positions = seq![position];
    assert(positions.drop_last() =~= Seq::<usize>::empty());
    lemma_mark_stands_behind_letter(word, positions);
}

/// A word with one upper-case letter is drawn in lower case with one mark,
/// directly behind that letter.
pub proof fn lemma_draw_single(word: Seq<char>, position: usize)
    ensures
        stress_positions_spec(word) == seq![position] && position < lowercase(word).len()
            ==> draw_spec(word) == lowercase(word).take(position + 1).push(STRESS_MARK)
            + lowercase(word).skip(position + 1),
{
    if stress_positions_spec(word) == seq![position] && position < lowercase(word).len() {
        lemma_single_mark(lowercase(word), position);
    }
}

/// The upper-case letters of a word are found in ascending order, each
/// within the word, and all of them.
pub proof fn lemma_stress_positions(word: Seq<char>)
    requires
        word.len() <= usize::MAX,
    ensures
        stress_positions_spec(word).len() <= word.len(),
        forall|k: int|
            0 <= k < stress_positions_spec(word).len() ==> (#[trigger] stress_positions_spec(
                word,
            )[k]) < word.len() && is_uppercase_letter(
                word[stress_positions_spec(word)[k] as int],
            ),
        forall|j: int, k: int|
            0 <= j < k < stress_positions_spec(word).len() ==> (#[trigger] stress_positions_spec(
                word,
            )[j]) < (#[trigger] stress_positions_spec(word)[k]),
        forall|i: int|
            0 <= i < word.len() && is_uppercase_letter(#[trigger] word[i])
                ==> stress_positions_spec(word).contains(i as usize),
{
    lemma_places(word, |c: char| is_uppercase_letter(c));
}

/// The round trip of the codec. Stripping a drawn word gives the stripped
/// lower-case word, and drawing adds exactly one mark per upper-case letter.
/// So for a word whose lower-case form holds no mark of its own, stripping
/// the drawn word gives the lower-case word, and the drawn word holds one
/// mark per upper-case letter and no other. A word without an upper-case
/// letter is drawn as it stands, so there the same holds of the word itself.
pub proof fn lemma_draw_round_trip(word: Seq<char>)
    ensures
        stress_positions_spec(word).len() > 0 ==> {
            &&& strip_spec(draw_spec(word)) == strip_spec(lowercase(word))
            &&& mark_count(draw_spec(word)) == mark_count(lowercase(word))
                + stress_positions_spec(word).len()
        },
        stress_positions_spec(word).len() > 0 && !lowercase(word).contains(STRESS_MARK) ==> {
            &&& strip_spec(draw_spec(word)) == lowercase(word)
            &&& mark_count(draw_spec(word)) == stress_positions_spec(word).len()
        },
        stress_positions_spec(word).len() == 0 ==> draw_spec(word) == word,
        stress_positions_spec(word).len() == 0 && !word.contains(STRESS_MARK) && lowercase(word)
            == word ==> {
            &&& strip_spec(draw_spec(word)) == lowercase(word)
            &&& mark_count(draw_spec(word)) == 0
        },
{
    lemma_with_marks(lowercase(word), stress_positions_spec(word));
    lemma_strip_fixes_unmarked(lowercase(word));
    lemma_strip_fixes_unmarked(word);
}

} // verus!
