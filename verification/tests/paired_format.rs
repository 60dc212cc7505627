use vocab_lib::error::VocabError;
use vocab_lib::loader::{get_ru_vocabulary, load_paired, OnTruncated};
use vocab_lib::vocab::Vocab;

fn lines_of(text: &[&str]) -> Vec<String> {
    text.iter().map(|line| String::from(*line)).collect()
}

fn headwords(vocab: &Vocab) -> Vec<String> {
    let mut all = Vec::new();
    for i in 0..vocab.len() {
        all.push(vocab.get(i).unwrap().word.0.clone());
    }
    all
}

#[test]
fn a_pair_gives_a_plain_key_and_a_drawn_word() {
    let vocab = get_ru_vocabulary(&lines_of(&["Дом", "house"])).unwrap();
    assert_eq!(vocab.len(), 1);
    let entry = vocab.get(0).unwrap();
    assert_eq!(entry.key_text(), "дом");
    assert_eq!(entry.word.drawn(), "д\u{301}ом");
    assert_eq!(entry.translations, vec![String::from("house")]);
}

#[test]
fn records_take_three_lines() {
    let vocab = get_ru_vocabulary(&lines_of(&[
        "водА", "water", "", "Дом", "house", "---", "молокО", "milk",
    ]))
    .unwrap();
    assert_eq!(headwords(&vocab), vec!["водА", "Дом", "молокО"]);
    assert_eq!(vocab.get(2).unwrap().translations, vec![String::from("milk")]);
}

#[test]
fn the_load_may_end_behind_a_separator() {
    let vocab = get_ru_vocabulary(&lines_of(&["водА", "water", "", "Дом", "house", ""])).unwrap();
    assert_eq!(headwords(&vocab), vec!["водА", "Дом"]);
}

#[test]
fn no_lines_give_no_entries() {
    assert!(get_ru_vocabulary(&Vec::new()).unwrap().is_empty());
}

#[test]
fn a_headword_without_translation_is_truncated() {
    assert!(matches!(
        get_ru_vocabulary(&lines_of(&["Дом"])),
        Err(VocabError::TruncatedRecord)
    ));
    assert!(matches!(
        get_ru_vocabulary(&lines_of(&["водА", "water", "", "Дом"])),
        Err(VocabError::TruncatedRecord)
    ));
    assert!(matches!(
        get_ru_vocabulary(&lines_of(&["водА", "water", "", "Дом", "house", "", ""])),
        Err(VocabError::TruncatedRecord)
    ));
}

#[test]
fn a_later_pair_replaces_the_translation_and_keeps_the_headword() {
    let vocab =
        get_ru_vocabulary(&lines_of(&["зАмок", "castle", "", "замОк", "lock", ""])).unwrap();
    assert_eq!(vocab.len(), 1);
    let entry = vocab.get(0).unwrap();
    assert_eq!(entry.word.0, "зАмок");
    assert_eq!(entry.translations, vec![String::from("lock")]);
}

#[test]
fn paired_keys_are_free_of_stress_marks() {
    let vocab = get_ru_vocabulary(&lines_of(&["до\u{301}м", "house"])).unwrap();
    let entry = vocab.get(0).unwrap();
    assert_eq!(entry.word.0, "дом");
    assert_eq!(entry.key_text(), "дом");
}

#[test]
fn entries_stand_in_key_order_whatever_the_case() {
    let vocab = get_ru_vocabulary(&lines_of(&[
        "яблоко", "apple", "", "Арбуз", "melon", "", "банан", "banana", "", "Вишня", "cherry",
    ]))
    .unwrap();
    assert_eq!(headwords(&vocab), vec!["Арбуз", "банан", "Вишня", "яблоко"]);
}

#[test]
fn loading_the_paired_format_twice_gives_the_same() {
    let lines = lines_of(&["яблоко", "apple", "", "Арбуз", "melon", "", "банан", "banana"]);
    let first = get_ru_vocabulary(&lines).unwrap();
    let second = get_ru_vocabulary(&lines).unwrap();
    assert_eq!(first.len(), second.len());
    for i in 0..first.len() {
        assert_eq!(first.get(i), second.get(i));
    }
}

#[test]
fn a_truncated_list_may_stop_in_front_of_the_last_headword() {
    let lines = lines_of(&["водА", "water", "", "Дом"]);
    let vocab = load_paired(&lines, OnTruncated::Stop).unwrap();
    assert_eq!(headwords(&vocab), vec!["водА"]);
    assert!(load_paired(&lines_of(&["Дом"]), OnTruncated::Stop).unwrap().is_empty());
    assert!(matches!(load_paired(&lines, OnTruncated::Fail), Err(VocabError::TruncatedRecord)));
}

#[test]
fn both_policies_agree_on_a_complete_list() {
    for lines in [
        lines_of(&[]),
        lines_of(&["водА", "water"]),
        lines_of(&["водА", "water", ""]),
        lines_of(&["водА", "water", "", "Дом", "house"]),
    ] {
        assert_eq!(
            load_paired(&lines, OnTruncated::Stop).unwrap(),
            load_paired(&lines, OnTruncated::Fail).unwrap()
        );
        assert_eq!(
            get_ru_vocabulary(&lines).unwrap(),
            load_paired(&lines, OnTruncated::Fail).unwrap()
        );
    }
}
