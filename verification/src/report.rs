//! Which records of an export are not known yet, and the report on them.

use crate::record::{is_record, record_fields, DuolingoWord};
use crate::split::{
    lemma_filter_keeps_all, lemma_split_first_piece, lemma_split_pieces_hold_no_separator,
    lemma_split_without_separator, split,
};
use crate::text::string_texts;
use vstd::hash_set::StringHashSet;
use vstd::prelude::*;
use vstd::string::*;

verus! {

/// The records whose word is not in `known`, in the order of `words`. A
/// record that occurs twice is kept twice.
pub open spec fn unknown(words: Seq<DuolingoWord>, known: Set<Seq<char>>) -> Seq<DuolingoWord> {
    words.filter(|w: DuolingoWord| !known.contains(w.word@))
}

/// The line that reports a record with the given word, word class and time
/// of last study.
pub open spec fn report_line(word: Seq<char>, word_class: Seq<char>, last_studied: Seq<char>) -> Seq<
    char,
> {
    "Word: "@ + word + "\tType: "@ + word_class + "\tLast Studied: "@ + last_studied
}

/// The character of the decimal digit `d`: the digits follow `'0'` in order.
pub open spec fn digit(d: nat) -> char
    recommends
        d < 10,
{
    (('0' as u8 + d) as u8) as char
}

/// `n` written in decimal, without leading zeros.
pub open spec fn decimal(n: nat) -> Seq<char>
    decreases n,
{
    if n < 10 {
        seq![digit(n)]
    } else {
        decimal(n / 10).push(digit(n % 10))
    }
}

/// The whole report: one line for each unknown record, then their number.
pub open spec fn report_lines(words: Seq<DuolingoWord>, known: Set<Seq<char>>) -> Seq<Seq<char>> {
    let missing = unknown(words, known);
    Seq::new(
        missing.len(),
        |k: int| report_line(missing[k].word@, missing[k].word_class@, missing[k].last_studied@),
    ).push(decimal(missing.len()))
}

impl<'a> DuolingoWord<'a> {
    /// The line that reports this record.
    pub fn to_line(&self) -> (line: String)
        ensures
            line@ == report_line(self.word@, self.word_class@, self.last_studied@),
    {
        let mut line = String::from_str("Word: ");
        line.append(self.word);
        line.append("\tType: ");
        line.append(self.word_class);
        line.append("\tLast Studied: ");
        line.append(self.last_studied);
        line
    }
}

/// Filtering one element more: it is appended if it passes.
proof fn lemma_filter_push<A>(s: Seq<A>, x: A, pred: spec_fn(A) -> bool)
    ensures
        s.push(x).filter(pred) == if pred(x) {
            s.filter(pred).push(x)
        } else {
            s.filter(pred)
        },
{
    reveal(Seq::filter);
    assert(s.push(x).drop_last() =~= s);
}

/// The three values that a report line holds: the pieces between its TABs,
/// each without its label.
pub open spec fn values_of_report_line(line: Seq<char>) -> Seq<Seq<char>> {
    let pieces = split(line, '\t');
    seq![
        pieces[0].skip("Word: "@.len() as int),
        pieces[1].skip("Type: "@.len() as int),
        pieces[2].skip("Last Studied: "@.len() as int),
    ]
}

/// A report line gives back the record it was written for: split at its
/// TABs it has three pieces, and they hold the word, the word class and the
/// time of last study, provided none of these holds a TAB itself.
pub proof fn lemma_report_line_round_trip(
    word: Seq<char>,
    word_class: Seq<char>,
    last_studied: Seq<char>,
)
    requires
        !word.contains('\t'),
        !word_class.contains('\t'),
        !last_studied.contains('\t'),
    ensures
        split(report_line(word, word_class, last_studied), '\t').len() == 3,
        values_of_report_line(report_line(word, word_class, last_studied)) == seq![
            word,
            word_class,
            last_studied,
        ],
{
    reveal_strlit("Word: ");
    reveal_strlit("Type: ");
    reveal_strlit("Last Studied: ");
    reveal_strlit("\tType: ");
    reveal_strlit("\tLast Studied: ");
    let first = "Word: "@ + word;
    let second = "Type: "@ + word_class;
    let third = "Last Studied: "@ + last_studied;
    let line = report_line(word, word_class, last_studied);
    assert(!first.contains('\t')) by {
        if first.contains('\t') {
            let i = choose|i: int| 0 <= i < first.len() && first[i] == '\t';
            assert(i >= 6 && word.contains(word[i - 6]));
        }
    }
    assert(!second.contains('\t')) by {
        if second.contains('\t') {
            let i = choose|i: int| 0 <= i < second.len() && second[i] == '\t';
            assert(i >= 6 && word_class.contains(word_class[i - 6]));
        }
    }
    assert(!third.contains('\t')) by {
        if third.contains('\t') {
            let i = choose|i: int| 0 <= i < third.len() && third[i] == '\t';
            assert(i >= 14 && last_studied.contains(last_studied[i - 14]));
        }
    }
    let after_second = seq!['\t'] + third;
    let after_first = second + after_second;
    assert(after_first =~= second + seq!['\t'] + third);
    assert(line =~= first + seq!['\t'] + after_first);
    lemma_split_first_piece(first, '\t', after_first);
    lemma_split_first_piece(second, '\t', third);
    lemma_split_without_separator(third, '\t');
    assert(split(line, '\t') =~= seq![first, second, third]);
    assert(first.skip(6) =~= word);
    assert(second.skip(6) =~= word_class);
    assert(third.skip(14) =~= last_studied);
}

/// The report line of a parsed record gives the record back: its fields
/// hold no TAB, since each of them ends at one.
pub proof fn lemma_record_round_trip(line: Seq<char>)
    requires
        is_record(line),
    ensures
        values_of_report_line(
            report_line(record_fields(line)[0], record_fields(line)[1], record_fields(line)[2]),
        ) == record_fields(line),
{
    let fields = record_fields(line);
    lemma_split_pieces_hold_no_separator(line, '\t');
    assert(fields[0] == split(line, '\t')[0]);
    assert(fields[1] == split(line, '\t')[1]);
    assert(fields[2] == split(line, '\t')[2]);
    lemma_report_line_round_trip(fields[0], fields[1], fields[2]);
    assert(fields =~= seq![fields[0], fields[1], fields[2]]);
}

/// With nothing known, every record is reported.
pub proof fn lemma_nothing_known_reports_all(words: Seq<DuolingoWord>)
    ensures
        unknown(words, Set::empty()) == words,
{
    lemma_filter_keeps_all(words, |w: DuolingoWord| !Set::<Seq<char>>::empty().contains(w.word@));
}

/// The records of `words` whose word `known` does not hold, in their order.
/// The number of unknown words is the length of the result.
pub fn unknown_words<'a>(words: &Vec<DuolingoWord<'a>>, known: &StringHashSet) -> (missing: Vec<
    DuolingoWord<'a>,
>)
    ensures
        missing@ == unknown(words@, known@),
{
    let ghost pred = |w: DuolingoWord| !known@.contains(w.word@);
    let mut missing: Vec<DuolingoWord<'a>> = Vec::new();
    let mut i: usize = 0;
    proof {
        reveal(Seq::filter);
        assert(words@.take(0) =~= Seq::empty());
    }
    while i < words.len()
        invariant
            i <= words@.len(),
            pred == |w: DuolingoWord| !known@.contains(w.word@),
            missing@ == words@.take(i as int).filter(pred),
        decreases words@.len() - i,
    {
        let w = &words[i];
        proof {
            lemma_filter_push(words@.take(i as int), *w, pred);
            assert(words@.take(i as int).push(*w) =~= words@.take(i + 1));
        }
        if !known.contains(w.word) {
            missing.push(*w);
        }
        i += 1;
    }
    assert(words@.take(i as int) =~= words@);
    missing
}

/// The text of one decimal digit.
fn digit_text(d: usize) -> (text: &'static str)
    requires
        d < 10,
    ensures
        text@ == seq![digit(d as nat)],
{
    proof {
        reveal_strlit("0");
        reveal_strlit("1");
        reveal_strlit("2");
        reveal_strlit("3");
        reveal_strlit("4");
        reveal_strlit("5");
        reveal_strlit("6");
        reveal_strlit("7");
        reveal_strlit("8");
        reveal_strlit("9");
    }
    let text = match d {
        0 => "0",
        1 => "1",
        2 => "2",
        3 => "3",
        4 => "4",
        5 => "5",
        6 => "6",
        7 => "7",
        8 => "8",
        _ => "9",
    };
    assert(text@ =~= seq![digit(d as nat)]);
    text
}

/// `n` written in decimal.
pub fn decimal_text(n: usize) -> (text: String)
    ensures
        text@ == decimal(n as nat),
    decreases n,
{
    if n < 10 {
        String::from_str(digit_text(n))
    } else {
        let mut text = decimal_text(n / 10);
        let ghost before = text@;
        text.append(digit_text(n % 10));
        assert(text@ =~= before.push(digit((n % 10) as nat)));
        text
    }
}

/// The report on `words` against `known`: a line for each record whose word
/// is not known, in the order of `words`, and a last line with the number of
/// those records.
pub fn report(words: &Vec<DuolingoWord>, known: &StringHashSet) -> (out: Vec<String>)
    ensures
        string_texts(out@) == report_lines(words@, known@),
{
    let missing = unknown_words(words, known);
    let mut out: Vec<String> = Vec::new();
    let mut i: usize = 0;
    while i < missing.len()
        invariant
            i <= missing@.len(),
            out@.len() == i,
            missing@ == unknown(words@, known@),
            forall|k: int| 0 <= k < i ==> (#[trigger] out@[k])@ == report_lines(words@, known@)[k],
        decreases missing@.len() - i,
    {
        out.push(missing[i].to_line());
        i += 1;
    }
    out.push(decimal_text(missing.len()));
    assert(string_texts(out@) =~= report_lines(words@, known@));
    out
}

} // verus!
