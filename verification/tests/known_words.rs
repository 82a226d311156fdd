use duolingo_checker::{build_word_map, get_words_from_fields, known_words, to_fields};

#[test]
fn to_fields_splits_at_each_separator() {
    assert_eq!(to_fields("a\x1fb\x1fc"), vec!["a", "b", "c"]);
}

#[test]
fn to_fields_of_text_without_separator_is_that_text() {
    assert_eq!(to_fields("a"), vec!["a"]);
    assert_eq!(to_fields(""), vec![""]);
    assert_eq!(to_fields("a\tb c"), vec!["a\tb c"]);
}

#[test]
fn to_fields_keeps_empty_fields() {
    assert_eq!(to_fields("\x1f"), vec!["", ""]);
    assert_eq!(to_fields("a\x1f\x1fb\x1f"), vec!["a", "", "b", ""]);
}

#[test]
fn to_fields_handles_text_beyond_ascii() {
    assert_eq!(to_fields("das Mädchen\x1fthe girl\x1f女の子"), vec!["das Mädchen", "the girl", "女の子"]);
}

#[test]
fn to_fields_again_on_a_field_changes_nothing() {
    for field in to_fields("a\x1fbc\x1f\x1fd") {
        assert_eq!(to_fields(field), vec![field]);
    }
}

#[test]
fn get_words_from_fields_splits_each_note() {
    let fields = vec![format!("a\x1fb\x1fc"), format!("d\x1fe"), format!("a")];
    let true_fields = vec![vec!["a", "b", "c"], vec!["d", "e"], vec!["a"]];
    assert_eq!(get_words_from_fields(&fields), true_fields);
}

#[test]
fn get_words_from_fields_of_no_notes_is_empty() {
    let fields: Vec<String> = vec![];
    assert!(get_words_from_fields(&fields).is_empty());
}

#[test]
fn build_word_map_holds_every_field() {
    let words = vec![vec!["a", "b", "c"], vec!["d", "e"], vec!["a"]];
    let set = build_word_map(&words);
    assert!(set.contains("a"));
    assert!(set.contains("b"));
    assert!(set.contains("e"));
    assert!(!set.contains("f"));
}

#[test]
fn known_set_of_a_corpus() {
    let corpus = vec![format!("a\x1fb\x1fc"), format!("d\x1fe"), format!("a")];
    let set = build_word_map(&get_words_from_fields(&corpus));
    assert_eq!(set.len(), 5);
    for token in ["a", "b", "c", "d", "e"] {
        assert!(set.contains(token));
    }
    assert!(set.contains("a"));
    assert!(!set.contains("f"));
}

#[test]
fn build_word_map_counts_a_repeated_token_once() {
    let once = build_word_map(&vec![vec!["a", "b"]]);
    let twice = build_word_map(&vec![vec!["a", "b", "a"], vec!["a"]]);
    assert!(twice.contains("a"));
    assert_eq!(once.len(), 2);
    assert_eq!(twice.len(), 2);
}

#[test]
fn build_word_map_does_not_depend_on_order() {
    let one = build_word_map(&vec![vec!["a", "b"], vec!["c"]]);
    let other = build_word_map(&vec![vec!["c"], vec!["b", "a"]]);
    assert_eq!(one.len(), other.len());
    for token in ["a", "b", "c", "d", ""] {
        assert_eq!(one.contains(token), other.contains(token));
    }
}

#[test]
fn build_word_map_is_case_sensitive() {
    let set = build_word_map(&vec![vec!["Mann"]]);
    assert!(set.contains("Mann"));
    assert!(!set.contains("mann"));
    assert!(!set.contains("Man"));
}

#[test]
fn build_word_map_of_nothing_is_empty() {
    let none: Vec<Vec<&str>> = vec![];
    assert!(build_word_map(&none).is_empty());
    assert!(build_word_map(&vec![vec![], vec![]]).is_empty());
}

#[test]
fn known_words_are_the_fields_of_all_notes() {
    let notes = vec![format!("a\x1fb\x1fc"), format!("d\x1fe"), format!("a")];
    let set = known_words(&notes);
    assert_eq!(set.len(), 5);
    assert!(set.contains("a"));
    assert!(set.contains("c"));
    assert!(set.contains("d"));
    assert!(!set.contains("f"));
    assert!(!set.contains("a\x1fb\x1fc"));
}

#[test]
fn known_words_of_no_notes_are_none() {
    assert!(known_words(&vec![]).is_empty());
}
