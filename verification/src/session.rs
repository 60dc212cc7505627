//! A sitting with the flashcards: which card is up, whether its translation
//! shows, and where a key press leads.
//!
//! Every card has two faces, the word alone and the word with its
//! translation. A plain sitting only visits the second face of each card; a
//! quiz visits both, so the translation appears on the second press.
//!
//! A translation is handed out with its markup; the program that shows the
//! card lays it out as text.

use vstd::prelude::*;
use crate::error::VocabError;
use crate::stress::{draw_spec, draw_stress};
use crate::vocab::{Entry, EntryView};

verus! {

/// What the user did.
#[derive(Clone, Copy, Debug, PartialEq, Eq, Structural)]
pub enum Event {
    /// Asked to end the sitting.
    Quit,
    /// Asked for the next face.
    Forward,
    /// Asked for the face before.
    Back,
    /// Anything else, the passing of time included.
    Idle,
}

/// What the program does next.
#[derive(Clone, Copy, Debug, PartialEq, Eq, Structural)]
pub enum Action {
    /// Draw the card that is up and wait for the next event.
    Show,
    /// Restore the terminal and end.
    Leave,
}

/// How far one press moves: a quiz goes face by face, a plain sitting card
/// by card.
pub open spec fn stride(quiz: bool) -> int {
    if quiz {
        1
    } else {
        2
    }
}

/// The face that follows face `index` in a sitting of `cards` cards. After
/// the last face the first one comes again.
pub open spec fn face_after(index: int, cards: int, quiz: bool) -> int {
    (index + stride(quiz)) % (2 * cards)
}

/// The face that precedes face `index` in a sitting of `cards` cards. Before
/// the first face comes the last one.
pub open spec fn face_before(index: int, cards: int, quiz: bool) -> int {
    if index == 0 {
        2 * cards - stride(quiz)
    } else {
        (index - stride(quiz)) % (2 * cards)
    }
}

/// A face that a sitting can be at: within the deck, and on a second face
/// unless the sitting is a quiz.
pub open spec fn valid_face(index: int, cards: int, quiz: bool) -> bool {
    &&& 0 <= index < 2 * cards
    &&& !quiz ==> index % 2 == 0
}

/// The number of cards in a deck that shows a batch of `entries` entries
/// `repeat` times over; a `repeat` of zero shows it once.
pub open spec fn deck_cards(entries: int, repeat: int) -> int {
    if repeat == 0 {
        entries
    } else {
        entries * repeat
    }
}

/// Going forward and going back lead to valid faces and undo each other.
pub proof fn lemma_faces_turn(index: int, cards: int, quiz: bool)
    requires
        valid_face(index, cards, quiz),
    ensures
        valid_face(face_after(index, cards, quiz), cards, quiz),
        valid_face(face_before(index, cards, quiz), cards, quiz),
        face_before(face_after(index, cards, quiz), cards, quiz) == index,
        face_after(face_before(index, cards, quiz), cards, quiz) == index,
        face_after(index, cards, quiz) == if index + stride(quiz) < 2 * cards {
            index + stride(quiz)
        } else {
            index + stride(quiz) - 2 * cards
        },
        face_before(index, cards, quiz) == if index == 0 {
            2 * cards - stride(quiz)
        } else {
            index - stride(quiz)
        },
{
    let faces = 2 * cards;
    let step = stride(quiz);
    let forward = if index + step < faces {
        index + step
    } else {
        index + step - faces
    };
    let back = if index == 0 {
        faces - step
    } else {
        index - step
    };
    vstd::arithmetic::div_mod::lemma_small_mod(back as nat, faces as nat);
    if index + step < faces {
        vstd::arithmetic::div_mod::lemma_small_mod((index + step) as nat, faces as nat);
    } else {
        vstd::arithmetic::div_mod::lemma_mod_sub_multiples_vanish(index + step, faces);
        vstd::arithmetic::div_mod::lemma_small_mod((index + step - faces) as nat, faces as nat);
    }
    assert(face_after(index, cards, quiz) == forward);
    assert(face_before(index, cards, quiz) == back);
    if forward != 0 {
        vstd::arithmetic::div_mod::lemma_small_mod((forward - step) as nat, faces as nat);
    }
    if back + step < faces {
        vstd::arithmetic::div_mod::lemma_small_mod((back + step) as nat, faces as nat);
    } else {
        vstd::arithmetic::div_mod::lemma_mod_sub_multiples_vanish(back + step, faces);
        vstd::arithmetic::div_mod::lemma_small_mod((back + step - faces) as nat, faces as nat);
    }
}

/// The state of a sitting.
#[derive(Clone, Copy, Debug, PartialEq, Eq)]
pub struct Session {
    entries: usize,
    cards: usize,
    quiz: bool,
    index: usize,
}

impl Session {
    #[verifier::type_invariant]
    closed spec fn inv(&self) -> bool {
        &&& self.entries > 0
        &&& 2 * self.cards <= usize::MAX
        &&& valid_face(self.index as int, self.cards as int, self.quiz)
    }

    /// The number of entries in the batch that the deck shows.
    pub closed spec fn entries_spec(&self) -> usize {
        self.entries
    }

    /// The number of cards in the deck.
    pub closed spec fn cards_spec(&self) -> usize {
        self.cards
    }

    /// Whether the sitting is a quiz.
    pub closed spec fn quiz_spec(&self) -> bool {
        self.quiz
    }

    /// The face that is up: face `2 * c` is the word of card `c` alone, face
    /// `2 * c + 1` the word with its translation.
    pub closed spec fn index_spec(&self) -> usize {
        self.index
    }

    /// Begins a sitting on the first card of a deck that shows a batch of
    /// `entries` entries `repeat` times over. There is no sitting on an
    /// empty batch, nor on a deck with more faces than can be counted.
    pub fn start(entries: usize, repeat: usize, quiz: bool) -> (session: Option<Session>)
        ensures
            match session {
                Some(s) => {
                    &&& entries > 0
                    &&& s.entries_spec() == entries
                    &&& s.cards_spec() == deck_cards(entries as int, repeat as int)
                    &&& 2 * s.cards_spec() <= usize::MAX
                    &&& s.quiz_spec() == quiz
                    &&& s.index_spec() == 0
                    &&& valid_face(0, s.cards_spec() as int, quiz)
                },
                None => entries == 0 || 2 * deck_cards(entries as int, repeat as int) > usize::MAX,
            },
    {
        if entries == 0 {
            return None;
        }
        let copies = if repeat == 0 {
            1
        } else {
            repeat
        };
        proof {
            assert(entries * copies == deck_cards(entries as int, repeat as int)) by (
                nonlinear_arith)
                requires
                    copies == if repeat == 0 {
                        1
                    } else {
                        repeat as int
                    },
            ;
            assert(entries * copies > 0) by (nonlinear_arith)
                requires
                    entries > 0,
                    copies > 0,
            ;
        }
        match entries.checked_mul(copies) {
            Some(cards) => match cards.checked_mul(2) {
                Some(_) => Some(Session { entries, cards, quiz, index: 0 }),
                None => None,
            },
            None => None,
        }
    }

    /// The number of cards in the deck.
    #[verifier::when_used_as_spec(cards_spec)]
    pub fn cards(&self) -> (cards: usize)
        ensures
            cards == self.cards_spec(),
            cards > 0,
    {
        proof {
            use_type_invariant(self);
        }
        self.cards
    }

    /// Whether the sitting is a quiz.
    #[verifier::when_used_as_spec(quiz_spec)]
    pub fn quiz(&self) -> (quiz: bool)
        ensures
            quiz == self.quiz_spec(),
    {
        self.quiz
    }

    /// The face that is up.
    #[verifier::when_used_as_spec(index_spec)]
    pub fn index(&self) -> (index: usize)
        ensures
            index == self.index_spec(),
            valid_face(index as int, self.cards_spec() as int, self.quiz_spec()),
    {
        proof {
            use_type_invariant(self);
        }
        self.index
    }

    /// The card that is up, counted from zero.
    pub fn card(&self) -> (card: usize)
        ensures
            card == self.index_spec() / 2,
            card < self.cards_spec(),
    {
        proof {
            use_type_invariant(self);
        }
        self.index / 2
    }

    /// The place in the batch of the entry that the card shows: the deck goes
    /// through the batch again and again.
    pub fn entry(&self) -> (place: usize)
        ensures
            place == (self.index_spec() as int / 2) % (self.entries_spec() as int),
            place < self.entries_spec(),
    {
        proof {
            use_type_invariant(self);
        }
        (self.index / 2) % self.entries
    }

    /// Whether the face that is up shows the translation. A quiz hides it on
    /// the first face of each card.
    pub fn shows_translation(&self) -> (shown: bool)
        ensures
            shown == !(self.quiz_spec() && self.index_spec() % 2 == 0),
    {
        !(self.quiz && self.index % 2 == 0)
    }

    /// Takes one event and says what to do next. Going forward or back
    /// turns to the face after or before the one that is up; nothing else
    /// changes the sitting.
    pub fn handle(&mut self, event: Event) -> (action: Action)
        ensures
            final(self).entries_spec() == old(self).entries_spec(),
            final(self).cards_spec() == old(self).cards_spec(),
            final(self).quiz_spec() == old(self).quiz_spec(),
            final(self).index_spec() == match event {
                Event::Forward => face_after(
                    old(self).index_spec() as int,
                    old(self).cards_spec() as int,
                    old(self).quiz_spec(),
                ),
                Event::Back => face_before(
                    old(self).index_spec() as int,
                    old(self).cards_spec() as int,
                    old(self).quiz_spec(),
                ),
                _ => old(self).index_spec() as int,
            },
            action == match event {
                Event::Quit => Action::Leave,
                _ => Action::Show,
            },
    {
        proof {
            use_type_invariant(&*self);
            lemma_faces_turn(self.index as int, self.cards as int, self.quiz);
        }
        let faces = 2 * self.cards;
        let step: usize = if self.quiz {
            1
        } else {
            2
        };
        match event {
            Event::Quit => Action::Leave,
            Event::Forward => {
                let room = faces - self.index;
                self.index = if step < room {
                    self.index + step
                } else {
                    step - room
                };
                Action::Show
            },
            Event::Back => {
                self.index = if self.index == 0 {
                    faces - step
                } else {
                    self.index - step
                };
                Action::Show
            },
            Event::Idle => Action::Show,
        }
    }
}

/// The two texts of a flashcard.
#[derive(Debug, PartialEq, Eq)]
pub struct Face {
    /// The headword with its stress drawn.
    pub word: String,
    /// The translation as the word list wrote it, markup included; empty
    /// while it is hidden.
    pub translation: String,
}

impl Clone for Face {
    fn clone(&self) -> (copy: Face) {
        Face { word: self.word.clone(), translation: self.translation.clone() }
    }
}

/// The texts that a flashcard of the given entry shows: the headword with
/// its stress drawn and, where the translation is revealed, the first
/// translation of the entry.
pub open spec fn face_spec(entry: EntryView, reveal: bool) -> (Seq<char>, Seq<char>) {
    (
        draw_spec(entry.word),
        if reveal {
            entry.translations[0]
        } else {
            Seq::empty()
        },
    )
}

/// Makes the texts of a flashcard from an entry: the headword with its
/// stress drawn and, where the translation is to show, the first translation
/// as the word list wrote it. An entry without translation has none to
/// show.
pub fn face(entry: &Entry, reveal: bool) -> (made: Result<Face, VocabError>)
    ensures
        match made {
            Ok(f) => {
                &&& !reveal || entry@.translations.len() > 0
                &&& (f.word@, f.translation@) == face_spec(entry@, reveal)
            },
            Err(e) => {
                &&& reveal
                &&& entry@.translations.len() == 0
                &&& e == VocabError::NotInVocabulary
            },
        },
{
    let word = draw_stress(&entry.word.0);
    if !reveal {
        return Ok(Face { word, translation: String::new() });
    }
    if entry.translations.len() == 0 {
        return Err(VocabError::NotInVocabulary);
    }
    Ok(Face { word, translation: entry.translations[0].clone() })
}

} // verus!
