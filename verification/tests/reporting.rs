use duolingo_checker::{
    build_word_map, decimal_text, get_words, get_words_from_fields, report, unknown_words, DuolingoWord,
};

fn glas() -> DuolingoWord<'static> {
    DuolingoWord { word: "Glas", word_class: "Noun", last_studied: "33 minutes ago" }
}

fn mann() -> DuolingoWord<'static> {
    DuolingoWord { word: "Mann", word_class: "Noun", last_studied: "3 months ago" }
}

#[test]
fn unknown_words_are_those_not_in_the_set() {
    let known = build_word_map(&vec![vec!["Mann"]]);
    let missing = unknown_words(&vec![glas(), mann()], &known);
    assert_eq!(missing, vec![glas()]);
    assert_eq!(missing.len(), 1);
}

#[test]
fn unknown_words_with_nothing_known_are_all_words() {
    let corpus: Vec<String> = vec![];
    let known = build_word_map(&get_words_from_fields(&corpus));
    assert!(known.is_empty());
    let words = vec![glas(), mann(), glas()];
    assert_eq!(unknown_words(&words, &known), words);
}

#[test]
fn unknown_words_keep_order_and_repetitions() {
    let known = build_word_map(&vec![vec!["Mann"]]);
    let other_glas = DuolingoWord { word: "Glas", word_class: "Noun", last_studied: "1 day ago" };
    let words = vec![other_glas.clone(), mann(), glas(), mann(), other_glas.clone()];
    assert_eq!(unknown_words(&words, &known), vec![other_glas.clone(), glas(), other_glas]);
}

#[test]
fn unknown_words_match_the_whole_word_only() {
    let known = build_word_map(&vec![vec!["Glas ", "glas", "Gla"]]);
    assert_eq!(unknown_words(&vec![glas()], &known), vec![glas()]);
}

#[test]
fn to_line_names_the_three_fields() {
    assert_eq!(glas().to_line(), "Word: Glas\tType: Noun\tLast Studied: 33 minutes ago");
}

#[test]
fn to_line_gives_the_fields_back() {
    let line = mann().to_line();
    let pieces: Vec<&str> = line.split('\t').collect();
    assert_eq!(pieces.len(), 3);
    assert_eq!(pieces[0].strip_prefix("Word: "), Some("Mann"));
    assert_eq!(pieces[1].strip_prefix("Type: "), Some("Noun"));
    assert_eq!(pieces[2].strip_prefix("Last Studied: "), Some("3 months ago"));
}

#[test]
fn decimal_text_writes_the_number() {
    assert_eq!(decimal_text(0), "0");
    assert_eq!(decimal_text(7), "7");
    assert_eq!(decimal_text(10), "10");
    assert_eq!(decimal_text(1234567890), "1234567890");
    assert_eq!(decimal_text(usize::MAX), usize::MAX.to_string());
}

#[test]
fn report_lists_the_unknown_words_and_their_number() {
    let content = "Glas\tNoun\t33 minutes ago\t\nMann\tNoun\t3 months ago\t\nFrau\tNoun\tnever\t";
    let words = get_words(content).unwrap();
    let corpus = vec![format!("der Mann\x1fMann\x1fthe man")];
    let known = build_word_map(&get_words_from_fields(&corpus));
    assert_eq!(
        report(&words, &known),
        vec![
            "Word: Glas\tType: Noun\tLast Studied: 33 minutes ago".to_string(),
            "Word: Frau\tType: Noun\tLast Studied: never".to_string(),
            "2".to_string(),
        ]
    );
}

#[test]
fn report_of_known_words_is_the_number_zero() {
    let known = build_word_map(&vec![vec!["Mann", "Glas"]]);
    assert_eq!(report(&vec![glas(), mann()], &known), vec!["0".to_string()]);
    assert_eq!(report(&vec![], &known), vec!["0".to_string()]);
}
