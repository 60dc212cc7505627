use vocab_lib::batch::{batch_bounds, BatchRequest, MIN_BATCH_SIZE};
use vocab_lib::error::VocabError;
use vocab_lib::vocab::Vocab;

fn alphabet(count: usize) -> Vocab {
    let mut vocab = Vocab::new();
    for letter in "abcdefghijklmnopqrstuvwxyz".chars().take(count) {
        vocab.accumulate(&letter.to_string(), letter.to_string().to_uppercase());
    }
    vocab
}

fn keys(vocab: &Vocab) -> Vec<String> {
    let mut all = Vec::new();
    for i in 0..vocab.len() {
        all.push(vocab.get(i).unwrap().key_text());
    }
    all
}

#[test]
fn the_first_batch_is_the_first_keys() {
    let vocab = alphabet(26);
    let batch = vocab.batch(0, 10);
    assert_eq!(keys(&batch), vec!["a", "b", "c", "d", "e", "f", "g", "h", "i", "j"]);
}

#[test]
fn the_first_batch_of_a_short_list_is_the_list() {
    assert_eq!(keys(&alphabet(4).batch(0, 10)), vec!["a", "b", "c", "d"]);
}

#[test]
fn a_batch_beyond_the_end_is_empty() {
    assert!(alphabet(26).batch(3, 10).is_empty());
    assert!(alphabet(26).batch(4, 10).is_empty());
    assert!(alphabet(20).batch(2, 10).is_empty());
    assert!(alphabet(0).batch(0, 10).is_empty());
    assert!(alphabet(5).batch(usize::MAX, 2).is_empty());
    assert!(alphabet(5).batch(usize::MAX, usize::MAX).is_empty());
}

#[test]
fn a_batch_of_size_zero_is_empty() {
    assert!(alphabet(5).batch(0, 0).is_empty());
    assert!(alphabet(5).batch(3, 0).is_empty());
}

#[test]
fn the_last_batch_may_be_partial() {
    let batch = alphabet(5).batch(2, 2);
    assert_eq!(keys(&batch), vec!["e"]);
    assert_eq!(batch.len(), 1);
    assert_eq!(keys(&alphabet(26).batch(2, 10)), vec!["u", "v", "w", "x", "y", "z"]);
}

#[test]
fn a_batch_keeps_the_translations() {
    let batch = alphabet(5).batch(1, 2);
    assert_eq!(keys(&batch), vec!["c", "d"]);
    assert_eq!(batch.get(0).unwrap().translations, vec![String::from("C")]);
    assert_eq!(batch.get(1).unwrap().translations, vec![String::from("D")]);
}

#[test]
fn the_same_choice_gives_the_same_batch() {
    let vocab = alphabet(12);
    assert_eq!(vocab.clone().batch(1, 5), vocab.clone().batch(1, 5));
}

#[test]
fn bounds_are_offset_and_offset_plus_size() {
    assert_eq!(batch_bounds(26, 0, 10), (0, 10));
    assert_eq!(batch_bounds(26, 1, 10), (10, 20));
    assert_eq!(batch_bounds(26, 2, 10), (20, 26));
    assert_eq!(batch_bounds(26, 3, 10), (26, 26));
    assert_eq!(batch_bounds(5, 2, 2), (4, 5));
    assert_eq!(batch_bounds(0, 0, 3), (0, 0));
    assert_eq!(batch_bounds(7, 1, usize::MAX), (7, 7));
    assert_eq!(batch_bounds(7, 0, usize::MAX), (0, 7));
    assert_eq!(batch_bounds(7, usize::MAX, 3), (7, 7));
}

#[test]
fn batch_sizes_below_three_are_rejected() {
    assert_eq!(MIN_BATCH_SIZE, 3);
    for size in 0..3 {
        assert_eq!(BatchRequest::new(0, size), Err(VocabError::BatchSizeRejected));
        assert_eq!(BatchRequest::new(7, size), Err(VocabError::BatchSizeRejected));
    }
    let request = BatchRequest::new(4, 3).unwrap();
    assert_eq!(request.number(), 4);
    assert_eq!(request.size(), 3);
}

#[test]
fn a_request_counts_the_whole_batches() {
    let request = BatchRequest::new(0, 10).unwrap();
    assert_eq!(request.whole_batches(26), 2);
    assert_eq!(request.whole_batches(30), 3);
    assert_eq!(request.whole_batches(9), 0);
    assert_eq!(request.whole_batches(0), 0);
}

#[test]
fn a_request_finds_its_window() {
    assert_eq!(BatchRequest::new(1, 10).unwrap().window(26), Ok((10, 20)));
    assert_eq!(BatchRequest::new(2, 10).unwrap().window(26), Ok((20, 26)));
    assert_eq!(
        BatchRequest::new(3, 10).unwrap().window(26),
        Err(VocabError::EmptyBatchSelection)
    );
    assert_eq!(
        BatchRequest::new(0, 10).unwrap().window(0),
        Err(VocabError::EmptyBatchSelection)
    );
}

#[test]
fn selecting_beyond_the_end_is_reported() {
    let request = BatchRequest::new(1, 5).unwrap();
    assert_eq!(keys(&alphabet(8).select(&request).unwrap()), vec!["f", "g", "h"]);
    assert_eq!(alphabet(5).select(&request), Err(VocabError::EmptyBatchSelection));
    assert_eq!(alphabet(0).select(&request), Err(VocabError::EmptyBatchSelection));
}
