use vocab_lib::error::VocabError;
use vocab_lib::session::{face, Action, Event, Session};
use vocab_lib::vocab::{Entry, VocabWord};

fn entry(word: &str, translations: &[&str]) -> Entry {
    let word = VocabWord::new(word);
    Entry {
        key: word.key(),
        word,
        translations: translations.iter().map(|t| String::from(*t)).collect(),
    }
}

#[test]
fn there_is_no_sitting_on_an_empty_batch() {
    assert_eq!(Session::start(0, 0, false), None);
    assert_eq!(Session::start(0, 3, true), None);
}

#[test]
fn there_is_no_sitting_on_a_deck_too_large_to_count() {
    assert_eq!(Session::start(usize::MAX, 0, false), None);
    assert_eq!(Session::start(usize::MAX / 2 + 1, 1, false), None);
    assert_eq!(Session::start(3, usize::MAX, false), None);
    assert!(Session::start(usize::MAX / 2, 1, false).is_some());
}

#[test]
fn a_deck_repeats_its_batch() {
    assert_eq!(Session::start(4, 0, false).unwrap().cards(), 4);
    assert_eq!(Session::start(4, 1, false).unwrap().cards(), 4);
    assert_eq!(Session::start(4, 3, false).unwrap().cards(), 12);
    let mut session = Session::start(2, 2, false).unwrap();
    let mut places = Vec::new();
    for _ in 0..5 {
        places.push((session.card(), session.entry()));
        session.handle(Event::Forward);
    }
    assert_eq!(places, vec![(0, 0), (1, 1), (2, 0), (3, 1), (0, 0)]);
}

#[test]
fn a_plain_sitting_goes_card_by_card() {
    let mut session = Session::start(3, 0, false).unwrap();
    assert_eq!((session.index(), session.card(), session.shows_translation()), (0, 0, true));
    assert_eq!(session.handle(Event::Forward), Action::Show);
    assert_eq!((session.index(), session.card(), session.shows_translation()), (2, 1, true));
    session.handle(Event::Forward);
    assert_eq!((session.index(), session.card()), (4, 2));
    session.handle(Event::Forward);
    assert_eq!((session.index(), session.card()), (0, 0));
    assert_eq!(session.handle(Event::Back), Action::Show);
    assert_eq!((session.index(), session.card()), (4, 2));
    session.handle(Event::Back);
    assert_eq!((session.index(), session.card()), (2, 1));
}

#[test]
fn a_quiz_goes_face_by_face() {
    let mut session = Session::start(2, 0, true).unwrap();
    assert!(session.quiz());
    assert_eq!((session.index(), session.card(), session.shows_translation()), (0, 0, false));
    session.handle(Event::Forward);
    assert_eq!((session.index(), session.card(), session.shows_translation()), (1, 0, true));
    session.handle(Event::Forward);
    assert_eq!((session.index(), session.card(), session.shows_translation()), (2, 1, false));
    session.handle(Event::Forward);
    session.handle(Event::Forward);
    assert_eq!((session.index(), session.card()), (0, 0));
    session.handle(Event::Back);
    assert_eq!((session.index(), session.card(), session.shows_translation()), (3, 1, true));
}

#[test]
fn going_back_undoes_going_forward() {
    for quiz in [false, true] {
        let mut session = Session::start(3, 2, quiz).unwrap();
        for _ in 0..15 {
            let before = session;
            session.handle(Event::Forward);
            let mut back = session;
            back.handle(Event::Back);
            assert_eq!(back, before);
        }
    }
}

#[test]
fn other_events_change_nothing() {
    let mut session = Session::start(3, 0, true).unwrap();
    session.handle(Event::Forward);
    let before = session;
    assert_eq!(session.handle(Event::Idle), Action::Show);
    assert_eq!(session, before);
    assert_eq!(session.handle(Event::Quit), Action::Leave);
    assert_eq!(session, before);
}

#[test]
fn a_face_shows_the_drawn_word_and_the_first_translation() {
    let made = face(&entry("Дом", &["<b>house</b>", "home"]), true).unwrap();
    assert_eq!(made.word, "д\u{301}ом");
    assert_eq!(made.translation, "<b>house</b>");
    let made = face(&entry("вода", &["water"]), true).unwrap();
    assert_eq!(made.word, "вода");
    assert_eq!(made.translation, "water");
}

#[test]
fn a_face_hides_the_translation_on_demand() {
    let made = face(&entry("Дом", &["<i>house</i>"]), false).unwrap();
    assert_eq!(made.word, "д\u{301}ом");
    assert_eq!(made.translation, "");
    let made = face(&entry("Дом", &[]), false).unwrap();
    assert_eq!(made.translation, "");
}

#[test]
fn a_face_needs_a_translation_to_show() {
    assert_eq!(face(&entry("Дом", &[]), true), Err(VocabError::NotInVocabulary));
}

#[test]
fn every_error_has_its_message() {
    assert_eq!(VocabError::MalformedRecord.message(), "Unparseable line");
    assert_eq!(VocabError::TruncatedRecord.message(), "translation must be present");
    assert_eq!(VocabError::BatchSizeRejected.message(), "A batch needs at least three words.");
    assert_eq!(
        VocabError::EmptyBatchSelection.message(),
        "Sorry, no words in vocabulary in this range. Try batches of smaller size or batches with smaller indices."
    );
    assert_eq!(VocabError::NotInVocabulary.message(), "must be in vocab");
}
