use vocab_lib::order::{compare, Order};
use vocab_lib::text::{chars_of, string_of};
use vocab_lib::vocab::{Vocab, VocabWord};

fn key(text: &str) -> Vec<char> {
    text.chars().collect()
}

fn keys(vocab: &Vocab) -> Vec<String> {
    let mut all = Vec::new();
    for i in 0..vocab.len() {
        all.push(vocab.get(i).unwrap().key_text());
    }
    all
}

#[test]
fn keys_compare_character_by_character() {
    assert_eq!(compare(&key("a"), &key("b")), Order::Before);
    assert_eq!(compare(&key("b"), &key("a")), Order::After);
    assert_eq!(compare(&key("ab"), &key("ab")), Order::Same);
    assert_eq!(compare(&key(""), &key("")), Order::Same);
    assert_eq!(compare(&key(""), &key("a")), Order::Before);
    assert_eq!(compare(&key("a"), &key("")), Order::After);
    assert_eq!(compare(&key("ab"), &key("abc")), Order::Before);
    assert_eq!(compare(&key("abd"), &key("abc")), Order::After);
    assert_eq!(compare(&key("z"), &key("а")), Order::Before);
    assert_eq!(compare(&key("дом"), &key("дон")), Order::Before);
}

#[test]
fn key_order_is_the_order_of_strings() {
    let samples = ["", "a", "ab", "b", "z", "а", "дом", "дон", "я", "\u{10000}", "\u{ffff}"];
    for a in samples {
        for b in samples {
            let expected = match a.cmp(b) {
                std::cmp::Ordering::Less => Order::Before,
                std::cmp::Ordering::Equal => Order::Same,
                std::cmp::Ordering::Greater => Order::After,
            };
            assert_eq!(compare(&key(a), &key(b)), expected);
        }
    }
}

#[test]
fn strings_and_characters_convert_into_each_other() {
    assert_eq!(chars_of("дом"), vec!['д', 'о', 'м']);
    assert_eq!(chars_of(""), Vec::<char>::new());
    assert_eq!(string_of(&vec!['д', '\u{301}', 'о', 'м']), "д\u{301}ом");
    assert_eq!(string_of(&Vec::new()), "");
}

#[test]
fn a_headword_is_filed_under_its_lower_case_form() {
    assert_eq!(VocabWord::new("Дом").key(), key("дом"));
    assert_eq!(VocabWord::new("ДОМ").key(), key("дом"));
    assert_eq!(VocabWord::new("дом").key(), key("дом"));
    assert_eq!(VocabWord::new("До\u{301}м").0, "Дом");
}

#[test]
fn headwords_are_ordered_without_regard_to_case() {
    let a = VocabWord::new("Арбуз");
    let b = VocabWord::new("банан");
    assert!(a.comes_before(&b));
    assert!(!b.comes_before(&a));
    assert!(!VocabWord::new("Дом").comes_before(&VocabWord::new("дом")));
    assert!(!VocabWord::new("дом").comes_before(&VocabWord::new("Дом")));
}

#[test]
fn a_headword_draws_its_own_stress() {
    assert_eq!(VocabWord::new("Дом").drawn(), "д\u{301}ом");
    assert_eq!(VocabWord::new("дом").drawn(), "дом");
}

#[test]
fn put_keeps_the_entries_in_key_order() {
    let mut vocab = Vocab::new();
    for word in ["d", "b", "e", "a", "c"] {
        vocab.put(key(word), VocabWord::new(word), String::from(word), true);
    }
    assert_eq!(keys(&vocab), vec!["a", "b", "c", "d", "e"]);
    assert_eq!(vocab.len(), 5);
    assert!(!vocab.is_empty());
}

#[test]
fn put_accumulates_or_replaces() {
    let mut vocab = Vocab::new();
    vocab.put(key("a"), VocabWord::new("A"), String::from("one"), true);
    vocab.put(key("a"), VocabWord::new("a"), String::from("two"), true);
    assert_eq!(vocab.len(), 1);
    let entry = vocab.get(0).unwrap();
    assert_eq!(entry.word.0, "A");
    assert_eq!(entry.translations, vec![String::from("one"), String::from("two")]);
    vocab.put(key("a"), VocabWord::new("a"), String::from("three"), false);
    let entry = vocab.get(0).unwrap();
    assert_eq!(entry.word.0, "A");
    assert_eq!(entry.translations, vec![String::from("three")]);
}

#[test]
fn accumulate_and_replace_strip_and_lower_the_key() {
    let mut vocab = Vocab::new();
    vocab.accumulate("Во\u{301}да", String::from("water"));
    vocab.accumulate("вода", String::from("aqua"));
    vocab.replace("Дом", String::from("home"));
    vocab.replace("дом", String::from("house"));
    assert_eq!(keys(&vocab), vec!["вода", "дом"]);
    assert_eq!(
        vocab.get(0).unwrap().translations,
        vec![String::from("water"), String::from("aqua")]
    );
    assert_eq!(vocab.get(0).unwrap().word.0, "Вода");
    assert_eq!(vocab.get(1).unwrap().translations, vec![String::from("house")]);
    assert_eq!(vocab.get(1).unwrap().word.0, "Дом");
}

#[test]
fn rank_counts_the_keys_in_front() {
    let mut vocab = Vocab::new();
    for word in ["b", "d", "f"] {
        vocab.put(key(word), VocabWord::new(word), String::from(word), true);
    }
    assert_eq!(vocab.rank(&key("a")), 0);
    assert_eq!(vocab.rank(&key("b")), 0);
    assert_eq!(vocab.rank(&key("c")), 1);
    assert_eq!(vocab.rank(&key("d")), 1);
    assert_eq!(vocab.rank(&key("e")), 2);
    assert_eq!(vocab.rank(&key("f")), 2);
    assert_eq!(vocab.rank(&key("g")), 3);
    assert_eq!(Vocab::new().rank(&key("a")), 0);
}

#[test]
fn find_gives_the_place_of_a_key() {
    let mut vocab = Vocab::new();
    for word in ["b", "d", "f"] {
        vocab.put(key(word), VocabWord::new(word), String::from(word), true);
    }
    assert_eq!(vocab.find(&key("b")), Some(0));
    assert_eq!(vocab.find(&key("d")), Some(1));
    assert_eq!(vocab.find(&key("f")), Some(2));
    assert_eq!(vocab.find(&key("a")), None);
    assert_eq!(vocab.find(&key("c")), None);
    assert_eq!(vocab.find(&key("g")), None);
    assert_eq!(Vocab::new().find(&key("b")), None);
}

#[test]
fn get_beyond_the_end_gives_nothing() {
    let mut vocab = Vocab::new();
    assert!(vocab.get(0).is_none());
    vocab.accumulate("a", String::from("1"));
    assert!(vocab.get(0).is_some());
    assert!(vocab.get(1).is_none());
}

#[test]
fn without_leading_drops_the_first_entries() {
    let mut vocab = Vocab::new();
    for word in ["a", "b", "c"] {
        vocab.accumulate(word, String::from(word));
    }
    assert_eq!(keys(&vocab.clone().without_leading(0)), vec!["a", "b", "c"]);
    assert_eq!(keys(&vocab.clone().without_leading(2)), vec!["c"]);
    assert!(vocab.clone().without_leading(3).is_empty());
    assert!(vocab.without_leading(9).is_empty());
}

#[test]
fn an_entry_is_found_by_its_headword_in_any_case() {
    let mut vocab = Vocab::new();
    vocab.accumulate("Дом", String::from("house"));
    vocab.accumulate("вода", String::from("water"));
    let entry = vocab.entry_of(&VocabWord::new("дом")).unwrap();
    assert_eq!(entry.word.0, "Дом");
    assert_eq!(entry.translations, vec![String::from("house")]);
    assert_eq!(vocab.entry_of(&VocabWord::new("ДОМ")), vocab.entry_of(&VocabWord::new("дом")));
    assert!(vocab.entry_of(&VocabWord::new("дым")).is_none());
    assert!(Vocab::new().entry_of(&VocabWord::new("дом")).is_none());
}
