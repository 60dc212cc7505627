//! Vocabulary flashcards: a loader for bilingual word lists and a codec for
//! the stress mark that shows which vowel of a word is emphasised.
//!
//! A word list is read into a [`Vocab`], which keeps each headword with its
//! translations in the order of the lower-case headwords. A batch is a window
//! of fixed size over that order. For display a headword has its stress
//! drawn as a combining accent; for lookup the accent is stripped. A
//! translation is handed out as the word list wrote it, markup included:
//! laying the markup out as text is the work of the program that shows it.

pub mod batch;
pub mod error;
pub mod loader;
pub mod order;
pub mod record;
pub mod seqs;
pub mod session;
pub mod stress;
pub mod text;
pub mod unicode;
pub mod vocab;

pub use crate::error::VocabError;
pub use crate::loader::{add_to_vocabulary, get_en_vocabulary, get_ru_vocabulary};
pub use crate::stress::draw_stress;
pub use crate::vocab::{Vocab, VocabWord};
