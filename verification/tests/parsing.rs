use duolingo_checker::{find_byte, get_words, parse_line, DuolingoWord, MalformedRecord};

fn record<'a>(word: &'a str, word_class: &'a str, last_studied: &'a str) -> DuolingoWord<'a> {
    DuolingoWord { word, word_class, last_studied }
}

#[test]
fn get_words_reads_two_records() {
    let content = "Glas\tNoun\t33 minutes ago\t\nMann\tNoun\t3 months ago\t";
    let words = get_words(content).unwrap();
    assert_eq!(words.len(), 2);
    assert_eq!(words[0], record("Glas", "Noun", "33 minutes ago"));
    assert_eq!(words[1], record("Mann", "Noun", "3 months ago"));
}

#[test]
fn get_words_gives_one_record_per_line_in_order() {
    let content = "a\tb\tc\t\nd\te\tf\t\ng\th\ti\t\n";
    let words = get_words(content).unwrap();
    assert_eq!(words.len(), content.lines().filter(|l| !l.is_empty()).count());
    assert_eq!(words, vec![record("a", "b", "c"), record("d", "e", "f"), record("g", "h", "i")]);
}

#[test]
fn get_words_of_empty_text_is_empty() {
    assert_eq!(get_words(""), Ok(vec![]));
}

#[test]
fn get_words_ignores_one_final_line_ending() {
    assert_eq!(get_words("a\tb\tc\t\n"), Ok(vec![record("a", "b", "c")]));
    assert_eq!(get_words("a\tb\tc\t"), Ok(vec![record("a", "b", "c")]));
}

#[test]
fn get_words_accepts_carriage_return_line_feed() {
    let words = get_words("a\tb\tc\t\r\nd\te\tf\r\t\r\n").unwrap();
    assert_eq!(words, vec![record("a", "b", "c"), record("d", "e", "f\r")]);
}

#[test]
fn get_words_keeps_a_carriage_return_that_ends_no_line() {
    let words = get_words("a\tb\r\tc\t\r").unwrap();
    assert_eq!(words, vec![record("a", "b\r", "c")]);
}

#[test]
fn get_words_rejects_a_line_with_two_tabs() {
    let content = "Glas\tNoun\t33 minutes ago\t\nMann\tNoun\t";
    assert_eq!(get_words(content), Err(MalformedRecord { line: 1 }));
}

#[test]
fn get_words_rejects_a_line_without_the_closing_tab() {
    let content = "Glas\tNoun\t33 minutes ago";
    assert_eq!(get_words(content), Err(MalformedRecord { line: 0 }));
}

#[test]
fn get_words_stops_at_the_first_malformed_line() {
    let content = "a\tb\tc\t\nbroken\nd\te\tf\t\nalso broken\n";
    assert_eq!(get_words(content), Err(MalformedRecord { line: 1 }));
}

#[test]
fn get_words_rejects_an_empty_line() {
    assert_eq!(get_words("a\tb\tc\t\n\nd\te\tf\t"), Err(MalformedRecord { line: 1 }));
    assert_eq!(get_words("\n"), Err(MalformedRecord { line: 0 }));
}

#[test]
fn get_words_handles_text_beyond_ascii() {
    let content = "Mädchen\tNoun\t3 days ago\t\nStraße\tNoun\tgestern früh\t\n日本語\t名詞\t€\t";
    let words = get_words(content).unwrap();
    assert_eq!(
        words,
        vec![
            record("Mädchen", "Noun", "3 days ago"),
            record("Straße", "Noun", "gestern früh"),
            record("日本語", "名詞", "€"),
        ]
    );
}

#[test]
fn parse_line_takes_the_text_before_each_tab() {
    assert_eq!(parse_line("Glas\tNoun\t33 minutes ago\t"), Some(record("Glas", "Noun", "33 minutes ago")));
}

#[test]
fn parse_line_ignores_what_follows_the_third_tab() {
    assert_eq!(parse_line("a\tb\tc\tmore\tand more"), Some(record("a", "b", "c")));
}

#[test]
fn parse_line_keeps_empty_fields() {
    assert_eq!(parse_line("\t\t\t"), Some(record("", "", "")));
    assert_eq!(parse_line("a\t\tc\t"), Some(record("a", "", "c")));
}

#[test]
fn parse_line_needs_three_tabs() {
    assert_eq!(parse_line(""), None);
    assert_eq!(parse_line("a"), None);
    assert_eq!(parse_line("a\tb"), None);
    assert_eq!(parse_line("a\tb\t"), None);
    assert_eq!(parse_line("a\tb\tc"), None);
}

#[test]
fn find_byte_gives_the_first_offset_or_the_length() {
    assert_eq!(find_byte("a\tb\tc", 0x09), 1);
    assert_eq!(find_byte("\tb", 0x09), 0);
    assert_eq!(find_byte("abc", 0x09), 3);
    assert_eq!(find_byte("", 0x09), 0);
    assert_eq!(find_byte("ä\t", 0x09), 2);
}
