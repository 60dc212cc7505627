//! What can go wrong while a vocabulary is loaded or a batch is chosen.

use vstd::prelude::*;
use vstd::string::StringExecFns;

verus! {

/// The conditions that end a load, a batch selection or the showing of a
/// card.
#[derive(Clone, Copy, Debug, PartialEq, Eq, Structural)]
pub enum VocabError {
    /// A line of the tagged format does not have the fixed layout.
    MalformedRecord,
    /// The paired format ends on a headword without its translation.
    TruncatedRecord,
    /// The batch size is too small to make a set of flashcards.
    BatchSizeRejected,
    /// The chosen batch lies beyond the end of the vocabulary.
    EmptyBatchSelection,
    /// A card was asked for that the vocabulary does not hold.
    NotInVocabulary,
}

impl VocabError {
    /// A sentence for the user.
    pub fn message(&self) -> (text: String)
        ensures
            text@ == match *self {
                VocabError::MalformedRecord => "Unparseable line"@,
                VocabError::TruncatedRecord => "translation must be present"@,
                VocabError::BatchSizeRejected => "A batch needs at least three words."@,
                VocabError::EmptyBatchSelection => "Sorry, no words in vocabulary in this range. Try batches of smaller size or batches with smaller indices."@,
                VocabError::NotInVocabulary => "must be in vocab"@,
            },
    {
        match self {
            VocabError::MalformedRecord => String::from_str("Unparseable line"),
            VocabError::TruncatedRecord => String::from_str("translation must be present"),
            VocabError::BatchSizeRejected => String::from_str(
                "A batch needs at least three words.",
            ),
            VocabError::EmptyBatchSelection => String::from_str(
                "Sorry, no words in vocabulary in this range. Try batches of smaller size or batches with smaller indices.",
            ),
            VocabError::NotInVocabulary => String::from_str("must be in vocab"),
        }
    }
}

} // verus!
