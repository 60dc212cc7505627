use vocab_lib::error::VocabError;
use vocab_lib::loader::{
    add_to_vocabulary, get_en_vocabulary, load_tagged, OnMalformed, LEADING_NAME_ENTRIES,
};
use vocab_lib::record::{parse_tagged, PREFIX_LEN, SUFFIX_LEN};
use vocab_lib::vocab::Vocab;

fn tagged_line(word: &str, translation: &str) -> String {
    let mut line = String::from("<entry id=\"");
    while line.len() < PREFIX_LEN - 7 {
        line.push('0');
    }
    line.push_str("\" key=\"");
    assert_eq!(line.len(), PREFIX_LEN);
    line.push_str(word);
    line.push_str("\">");
    line.push_str(translation);
    line.push_str("</entry>\r\n");
    line
}

fn words(vocab: &Vocab) -> Vec<String> {
    let mut all = Vec::new();
    for i in 0..vocab.len() {
        all.push(vocab.get(i).unwrap().word.0.clone());
    }
    all
}

#[test]
fn a_tagged_line_gives_headword_and_translation() {
    let line = tagged_line("къща", "<b>house</b>");
    let (word, translation) = parse_tagged(&line).unwrap();
    assert_eq!(word, "къща");
    assert_eq!(translation, "<b>house</b>");
}

#[test]
fn the_suffix_is_ten_bytes() {
    assert_eq!(SUFFIX_LEN, 10);
    assert_eq!(PREFIX_LEN, 92);
    let line = format!("{}ab\">cd0123456789", "p".repeat(92));
    assert_eq!(parse_tagged(&line).unwrap(), (String::from("ab"), String::from("cd")));
    let line = format!("{}ab\">0123456789", "p".repeat(92));
    assert_eq!(parse_tagged(&line).unwrap(), (String::from("ab"), String::new()));
    let line = format!("{}\">0123456789", "p".repeat(92));
    assert_eq!(parse_tagged(&line).unwrap(), (String::new(), String::new()));
}

#[test]
fn the_first_delimiter_ends_the_headword() {
    let line = tagged_line("a", "x\">y");
    let (word, translation) = parse_tagged(&line).unwrap();
    assert_eq!(word, "a");
    assert_eq!(translation, "x\">y");
}

#[test]
fn a_line_without_delimiter_is_malformed() {
    let line = format!("{}къща house 0123456789", "p".repeat(92));
    assert_eq!(parse_tagged(&line), Err(VocabError::MalformedRecord));
    let mut vocab = Vocab::new();
    assert_eq!(add_to_vocabulary(&mut vocab, &line), Err(VocabError::MalformedRecord));
    assert!(vocab.is_empty());
}

#[test]
fn a_delimiter_inside_the_prefix_does_not_count() {
    let line = format!("{}\">{}word translation", "p".repeat(40), "p".repeat(50));
    assert_eq!(parse_tagged(&line), Err(VocabError::MalformedRecord));
}

#[test]
fn a_line_shorter_than_its_prefix_is_malformed() {
    assert_eq!(parse_tagged(""), Err(VocabError::MalformedRecord));
    assert_eq!(parse_tagged("\">"), Err(VocabError::MalformedRecord));
    assert_eq!(parse_tagged(&"p".repeat(91)), Err(VocabError::MalformedRecord));
    assert_eq!(parse_tagged(&"p".repeat(92)), Err(VocabError::MalformedRecord));
}

#[test]
fn a_line_with_a_short_suffix_is_malformed() {
    let line = format!("{}ab\">012345678", "p".repeat(92));
    assert_eq!(parse_tagged(&line), Err(VocabError::MalformedRecord));
    let line = format!("{}ab\">", "p".repeat(92));
    assert_eq!(parse_tagged(&line), Err(VocabError::MalformedRecord));
}

#[test]
fn an_offset_inside_a_character_is_malformed() {
    let line = format!("{}ж\">translation0123456789", "p".repeat(91));
    assert_eq!(parse_tagged(&line), Err(VocabError::MalformedRecord));
    let line = format!("{}ab\">cж012345678", "p".repeat(92));
    assert_eq!(parse_tagged(&line), Err(VocabError::MalformedRecord));
}

#[test]
fn the_stress_mark_is_stripped_from_the_key() {
    let mut vocab = Vocab::new();
    let line = tagged_line("къ\u{301}ща", "house");
    assert_eq!(add_to_vocabulary(&mut vocab, &line), Ok(()));
    assert_eq!(vocab.len(), 1);
    let entry = vocab.get(0).unwrap();
    assert_eq!(entry.word.0, "къща");
    assert_eq!(entry.key_text(), "къща");
    assert_eq!(entry.translations, vec![String::from("house")]);
}

#[test]
fn two_lines_with_one_key_give_one_entry_with_two_translations() {
    let lines = vec![
        tagged_line("ко\u{301}са", "hair"),
        tagged_line("вода\u{301}", "water"),
        tagged_line("коса\u{301}", "scythe"),
    ];
    let vocab = get_en_vocabulary(&lines, 0).unwrap();
    assert_eq!(words(&vocab), vec!["вода", "коса"]);
    let entry = vocab.get(1).unwrap();
    assert_eq!(entry.translations, vec![String::from("hair"), String::from("scythe")]);
    assert_eq!(vocab.get(0).unwrap().translations, vec![String::from("water")]);
}

#[test]
fn keys_that_differ_in_case_only_are_one_key() {
    let lines = vec![tagged_line("София", "Sofia"), tagged_line("софия", "wisdom")];
    let vocab = get_en_vocabulary(&lines, 0).unwrap();
    assert_eq!(vocab.len(), 1);
    let entry = vocab.get(0).unwrap();
    assert_eq!(entry.word.0, "София");
    assert_eq!(entry.key_text(), "софия");
    assert_eq!(entry.translations, vec![String::from("Sofia"), String::from("wisdom")]);
}

#[test]
fn the_leading_entries_are_skipped() {
    let lines = vec![
        tagged_line("г", "4"),
        tagged_line("а", "1"),
        tagged_line("в", "3"),
        tagged_line("б", "2"),
    ];
    assert_eq!(words(&get_en_vocabulary(&lines, 0).unwrap()), vec!["а", "б", "в", "г"]);
    assert_eq!(words(&get_en_vocabulary(&lines, 1).unwrap()), vec!["б", "в", "г"]);
    assert_eq!(words(&get_en_vocabulary(&lines, 3).unwrap()), vec!["г"]);
    assert!(get_en_vocabulary(&lines, 4).unwrap().is_empty());
    assert!(get_en_vocabulary(&lines, 5).unwrap().is_empty());
    assert!(get_en_vocabulary(&lines, LEADING_NAME_ENTRIES).unwrap().is_empty());
    assert_eq!(LEADING_NAME_ENTRIES, 2287);
}

#[test]
fn one_malformed_line_ends_the_whole_load() {
    let lines = vec![tagged_line("а", "1"), String::from("short"), tagged_line("б", "2")];
    assert!(matches!(get_en_vocabulary(&lines, 0), Err(VocabError::MalformedRecord)));
}

#[test]
fn no_lines_give_an_empty_vocabulary() {
    assert!(get_en_vocabulary(&Vec::new(), 0).unwrap().is_empty());
}

#[test]
fn loading_the_tagged_format_twice_gives_the_same() {
    let lines = vec![
        tagged_line("ко\u{301}са", "hair"),
        tagged_line("Вода\u{301}", "water"),
        tagged_line("коса\u{301}", "scythe"),
        tagged_line("азбука", "alphabet"),
    ];
    let first = get_en_vocabulary(&lines, 1).unwrap();
    let second = get_en_vocabulary(&lines, 1).unwrap();
    assert_eq!(first.len(), second.len());
    for i in 0..first.len() {
        assert_eq!(first.get(i), second.get(i));
    }
}

#[test]
fn malformed_lines_are_passed_over_on_demand() {
    let lines = vec![
        String::from("short"),
        tagged_line("б", "2"),
        format!("{}no delimiter 0123456789", "p".repeat(92)),
        tagged_line("а", "1"),
        tagged_line("б", "3"),
        String::new(),
    ];
    let load = load_tagged(&lines, 0, OnMalformed::Skip).unwrap();
    assert_eq!(load.skipped, vec![0, 2, 5]);
    assert_eq!(words(&load.vocab), vec!["а", "б"]);
    assert_eq!(load.vocab.get(1).unwrap().translations, vec![String::from("2"), String::from("3")]);
    let load = load_tagged(&lines, 1, OnMalformed::Skip).unwrap();
    assert_eq!(load.skipped, vec![0, 2, 5]);
    assert_eq!(words(&load.vocab), vec!["б"]);
    assert_eq!(load_tagged(&lines, 0, OnMalformed::Abort), Err(VocabError::MalformedRecord));
}

#[test]
fn both_policies_agree_on_a_well_formed_source() {
    let lines = vec![tagged_line("б", "2"), tagged_line("а", "1"), tagged_line("б", "3")];
    let strict = load_tagged(&lines, 1, OnMalformed::Abort).unwrap();
    let lenient = load_tagged(&lines, 1, OnMalformed::Skip).unwrap();
    assert_eq!(strict, lenient);
    assert!(strict.skipped.is_empty());
    assert_eq!(strict.vocab, get_en_vocabulary(&lines, 1).unwrap());
}

#[test]
fn skipping_never_fails() {
    let lines = vec![String::from("short"), String::new()];
    let load = load_tagged(&lines, 0, OnMalformed::Skip).unwrap();
    assert!(load.vocab.is_empty());
    assert_eq!(load.skipped, vec![0, 1]);
}
