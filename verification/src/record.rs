//! The records of a Duolingo export: one line of text each, three fields
//! that each end in a TAB.

use crate::split::{
    cut, first_index, lemma_filter_keeps_all, lemma_first_index_found, lines_by, split,
    without_last,
};
use crate::text::{encoded, lemma_lines_of_bytes, lemma_split_of_bytes};
use vstd::prelude::*;
use vstd::string::*;
use vstd::utf8::*;

verus! {

/// The byte that ends each field of a record.
pub const TAB: u8 = 0x09;

/// The byte that ends a line.
pub const LINE_FEED: u8 = 0x0a;

/// The byte that may stand before a line feed and then belongs to the line
/// ending.
pub const CARRIAGE_RETURN: u8 = 0x0d;

/// A struct used to hold data from Duolingo. The three fields borrow from
/// the text that was parsed.
#[derive(Debug, PartialEq, Eq, Clone, Copy)]
pub struct DuolingoWord<'a> {
    /// The word itself
    pub word: &'a str,
    /// The type of word. Like Noun or Adjective.
    pub word_class: &'a str,
    /// The last time the word was studied
    pub last_studied: &'a str,
}

/// A line of the export that does not hold three fields, each ended by a TAB.
#[derive(Debug, PartialEq, Eq, Clone, Copy)]
pub struct MalformedRecord {
    /// The position of the line among the lines of the text, from 0.
    pub line: usize,
}

impl<'a> DuolingoWord<'a> {
    /// The three fields as text: word, word class, last studied.
    pub open spec fn fields(&self) -> Seq<Seq<char>> {
        seq![self.word@, self.word_class@, self.last_studied@]
    }

    /// The three fields as UTF-8 bytes.
    pub open spec fn bytes(&self) -> Seq<Seq<u8>> {
        seq![self.word.spec_bytes(), self.word_class.spec_bytes(), self.last_studied.spec_bytes()]
    }
}

/// A line is a record when it holds at least three TABs, that is when it
/// splits into at least four pieces.
pub open spec fn is_record(line: Seq<char>) -> bool {
    split(line, '\t').len() >= 4
}

/// The fields of a record: the text before each of the first three TABs.
/// What follows the third TAB is not part of the record.
pub open spec fn record_fields(line: Seq<char>) -> Seq<Seq<char>> {
    split(line, '\t').take(3)
}

/// The lines of a text. A line ends at a line feed, or at a carriage return
/// directly followed by one; neither belongs to the line. The last line
/// needs no line ending, and a text that ends in one has no empty line
/// after it.
pub open spec fn lines(content: Seq<char>) -> Seq<Seq<char>> {
    lines_by(content, '\n', '\r')
}

/// The lines of a text that are not empty.
pub open spec fn non_empty_lines(content: Seq<char>) -> Seq<Seq<char>> {
    lines(content).filter(|line: Seq<char>| line.len() > 0)
}

/// A text is well formed when each of its lines is a record.
pub open spec fn well_formed(content: Seq<char>) -> bool {
    forall|k: int| 0 <= k < lines(content).len() ==> is_record(#[trigger] lines(content)[k])
}

/// A record is never an empty line: it holds three TABs at least.
pub proof fn lemma_record_is_not_empty(line: Seq<char>)
    requires
        is_record(line),
    ensures
        line.len() >= 3,
{
    let after_word = line.subrange(first_index(line, '\t') as int + 1, line.len() as int);
    let after_class = after_word.subrange(
        first_index(after_word, '\t') as int + 1,
        after_word.len() as int,
    );
    lemma_first_index_found(line, '\t');
    lemma_first_index_found(after_word, '\t');
    lemma_first_index_found(after_class, '\t');
    if first_index(line, '\t') < line.len() {
        assert(split(line, '\t') == seq![line.subrange(0, first_index(line, '\t') as int)] + split(
            after_word,
            '\t',
        ));
        if first_index(after_word, '\t') < after_word.len() {
            assert(split(after_word, '\t') == seq![
                after_word.subrange(0, first_index(after_word, '\t') as int),
            ] + split(after_class, '\t'));
        }
    }
}

/// In a well-formed text no line is empty, so the lines that are parsed,
/// one record each, are the non-empty lines, in their order.
pub proof fn lemma_well_formed_lines_are_not_empty(content: Seq<char>)
    requires
        well_formed(content),
    ensures
        non_empty_lines(content) == lines(content),
{
    assert forall|k: int| 0 <= k < lines(content).len() implies (#[trigger] lines(content)[k]).len()
        > 0 by {
        lemma_record_is_not_empty(lines(content)[k]);
    }
    lemma_filter_keeps_all(lines(content), |line: Seq<char>| line.len() > 0);
}

/// A record whose bytes are the first three pieces of the bytes of a line
/// holds the first three pieces of the line.
proof fn lemma_fields_of_bytes(word: DuolingoWord, line: Seq<char>)
    requires
        split(encode_utf8(line), TAB).len() >= 4,
        word.bytes() == split(encode_utf8(line), TAB).take(3),
    ensures
        is_record(line),
        word.fields() == record_fields(line),
{
    let pieces = split(line, '\t');
    lemma_split_of_bytes(line, TAB);
    assert(split(encode_utf8(line), TAB).len() == encoded(pieces).len());
    assert forall|i: int| 0 <= i < 3 implies word.fields()[i] == pieces[i] by {
        assert(word.bytes()[i] == split(encode_utf8(line), TAB).take(3)[i]);
        assert(encode_utf8(word.fields()[i]) == encoded(pieces)[i]);
        encode_utf8_decode_utf8(word.fields()[i]);
        encode_utf8_decode_utf8(pieces[i]);
    }
    assert(word.fields() =~= record_fields(line));
}

/// Parses one line into a record. `None` when the line holds fewer than
/// three TABs.
pub fn parse_line<'a>(line: &'a str) -> (r: Option<DuolingoWord<'a>>)
    ensures
        r is Some <==> is_record(line@),
        r is Some ==> r->0.fields() == record_fields(line@),
{
    let ghost whole = split(line.spec_bytes(), TAB);
    proof {
        lemma_split_of_bytes(line@, TAB);
        assert(whole.len() == encoded(split(line@, '\t')).len());
    }
    let (word, after_word) = match cut(line, TAB) {
        Some(parts) => parts,
        None => {
            return None;
        },
    };
    assert(whole == seq![word.spec_bytes()] + split(after_word.spec_bytes(), TAB));
    let (word_class, after_class) = match cut(after_word, TAB) {
        Some(parts) => parts,
        None => {
            assert(split(after_word.spec_bytes(), TAB).len() == 1);
            return None;
        },
    };
    assert(split(after_word.spec_bytes(), TAB) == seq![word_class.spec_bytes()] + split(
        after_class.spec_bytes(),
        TAB,
    ));
    let (last_studied, after_last) = match cut(after_class, TAB) {
        Some(parts) => parts,
        None => {
            assert(split(after_class.spec_bytes(), TAB).len() == 1);
            return None;
        },
    };
    let record = DuolingoWord { word, word_class, last_studied };
    proof {
        assert(split(after_class.spec_bytes(), TAB) == seq![last_studied.spec_bytes()] + split(
            after_last.spec_bytes(),
            TAB,
        ));
        assert(split(after_last.spec_bytes(), TAB).len() >= 1);
        assert(whole.take(3) =~= record.bytes());
        lemma_fields_of_bytes(record, line@);
    }
    Some(record)
}

/// Takes one carriage return off the end of `line`, if it has one there.
fn strip_carriage_return<'a>(line: &'a str) -> (r: &'a str)
    ensures
        r.spec_bytes() == without_last(line.spec_bytes(), CARRIAGE_RETURN),
{
    let bytes = line.as_bytes();
    let n = bytes.len();
    if n > 0 && bytes[n - 1] == CARRIAGE_RETURN {
        proof {
            encode_utf8_valid_utf8(line@);
            is_char_boundary_iff_not_is_continuation_byte(line.spec_bytes(), n - 1);
        }
        let (head, _) = line.split_at(n - 1);
        assert(head.spec_bytes() =~= line.spec_bytes().drop_last());
        head
    } else {
        line
    }
}

/// Extract the list of `DuolingoWord`s from the contents of an export.
///
/// Every line has to be a record. At the first line that is none the whole
/// text is rejected, with the position of that line, and no record is
/// returned.
pub fn get_words<'a>(content: &'a str) -> (r: Result<Vec<DuolingoWord<'a>>, MalformedRecord>)
    ensures
        r is Ok <==> well_formed(content@),
        match r {
            Ok(words) => {
                &&& words@.len() == lines(content@).len()
                &&& words@.len() == non_empty_lines(content@).len()
                &&& forall|k: int|
                    0 <= k < words@.len() ==> (#[trigger] words@[k]).fields() == record_fields(
                        lines(content@)[k],
                    )
            },
            Err(e) => {
                &&& e.line < lines(content@).len()
                &&& !is_record(lines(content@)[e.line as int])
                &&& forall|k: int| 0 <= k < e.line ==> is_record(#[trigger] lines(content@)[k])
            },
        },
{
    let ghost all = lines(content@);
    let ghost mut done: int = 0;
    let mut words: Vec<DuolingoWord<'a>> = Vec::new();
    let mut rest: &'a str = content;
    proof {
        lemma_lines_of_bytes(content@, LINE_FEED, CARRIAGE_RETURN);
        assert(encoded(all).skip(0) =~= encoded(all));
    }
    while rest.as_bytes().len() > 0
        invariant
            all == lines(content@),
            0 <= done <= all.len(),
            encoded(all).skip(done) == lines_by(rest.spec_bytes(), LINE_FEED, CARRIAGE_RETURN),
            done == words@.len(),
            forall|k: int| 0 <= k < done ==> is_record(#[trigger] all[k]),
            forall|k: int|
                0 <= k < done ==> (#[trigger] words@[k]).fields() == record_fields(all[k]),
        decreases rest.spec_bytes().len(),
    {
        let ghost rest_lines = lines_by(rest.spec_bytes(), LINE_FEED, CARRIAGE_RETURN);
        let (line, next) = match cut(rest, LINE_FEED) {
            Some((head, tail)) => (strip_carriage_return(head), tail),
            None => {
                proof {
                    reveal_strlit("");
                }
                (rest, "")
            },
        };
        proof {
            assert(rest_lines =~= seq![line.spec_bytes()] + lines_by(
                next.spec_bytes(),
                LINE_FEED,
                CARRIAGE_RETURN,
            ));
            assert(done < all.len() && encoded(all)[done] == line.spec_bytes()) by {
                assert(encoded(all).skip(done).len() > 0);
                assert(encoded(all).skip(done)[0] == rest_lines[0]);
            }
            assert(encoded(all).skip(done + 1) =~= rest_lines.skip(1));
            assert(rest_lines.skip(1) =~= lines_by(next.spec_bytes(), LINE_FEED, CARRIAGE_RETURN));
            encode_utf8_decode_utf8(all[done]);
            encode_utf8_decode_utf8(line@);
            assert(all[done] == line@);
        }
        match parse_line(line) {
            Some(word) => {
                words.push(word);
                proof {
                    done = done + 1;
                }
                rest = next;
            },
            None => {
                return Err(MalformedRecord { line: words.len() });
            },
        }
    }
    proof {
        assert(encoded(all).skip(done).len() == 0);
        assert(done == all.len());
        lemma_well_formed_lines_are_not_empty(content@);
    }
    Ok(words)
}

} // verus!
