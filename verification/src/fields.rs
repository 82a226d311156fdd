//! The fields of Anki notes, and the set of words they make known.

use crate::split::{byte_strings, cut, split};
use crate::text::{lemma_split_of_bytes, lemma_texts_of_bytes, texts};
use vstd::hash_set::StringHashSet;
use vstd::prelude::*;
use vstd::string::*;

verus! {

/// Anki separates the fields of a note with the ASCII unit separator.
pub const UNIT_SEPARATOR: u8 = 0x1f;

/// The field lists as plain text: each field by its characters.
pub open spec fn field_lists(words: Seq<Vec<&str>>) -> Seq<Seq<Seq<char>>> {
    Seq::new(words.len(), |i: int| texts(words[i]@))
}

/// The fields of each note of a collection, note by note.
pub open spec fn fields_of_notes(notes: Seq<String>) -> Seq<Seq<Seq<char>>> {
    Seq::new(notes.len(), |i: int| split(notes[i]@, '\x1f'))
}

/// The tokens among the first `j` fields of list `i` and all fields of the
/// lists before it.
pub open spec fn known_up_to(lists: Seq<Seq<Seq<char>>>, i: int, j: int) -> Set<Seq<char>> {
    Set::new(
        |t: Seq<char>|
            exists|a: int, b: int|
                0 <= a < lists.len() && 0 <= b < lists[a].len() && (a < i || (a == i && b < j))
                    && #[trigger] lists[a][b] == t,
    )
}

/// Every token that occurs as a field of some list: what the collection
/// knows. Neither the position of a token nor how often it occurs matters.
pub open spec fn known_tokens(lists: Seq<Seq<Seq<char>>>) -> Set<Seq<char>> {
    Set::new(
        |t: Seq<char>|
            exists|a: int, b: int|
                0 <= a < lists.len() && 0 <= b < lists[a].len() && #[trigger] lists[a][b] == t,
    )
}

/// Extract the fields from an Anki note: the pieces of `fields` between the
/// unit separators, empty ones included. A note without a separator is one
/// field.
pub fn to_fields<'a>(fields: &'a str) -> (out: Vec<&'a str>)
    ensures
        texts(out@) == split(fields@, '\x1f'),
{
    let mut out: Vec<&'a str> = Vec::new();
    let mut rest: &'a str = fields;
    loop
        invariant
            split(fields.spec_bytes(), UNIT_SEPARATOR) == byte_strings(out@) + split(
                rest.spec_bytes(),
                UNIT_SEPARATOR,
            ),
        decreases rest.spec_bytes().len(),
    {
        let ghost before = byte_strings(out@);
        match cut(rest, UNIT_SEPARATOR) {
            None => {
                out.push(rest);
                proof {
                    assert(byte_strings(out@) =~= before + seq![rest.spec_bytes()]);
                    lemma_split_of_bytes(fields@, UNIT_SEPARATOR);
                    lemma_texts_of_bytes(out@, split(fields@, '\x1f'));
                }
                return out;
            },
            Some((head, tail)) => {
                out.push(head);
                assert(byte_strings(out@) + split(tail.spec_bytes(), UNIT_SEPARATOR) =~= before
                    + split(rest.spec_bytes(), UNIT_SEPARATOR));
                rest = tail;
            },
        }
    }
}

/// Extract the fields of every note, note by note.
pub fn get_words_from_fields<'a>(fields: &'a Vec<String>) -> (out: Vec<Vec<&'a str>>)
    ensures
        field_lists(out@) == fields_of_notes(fields@),
{
    let mut out: Vec<Vec<&'a str>> = Vec::new();
    let mut i: usize = 0;
    while i < fields.len()
        invariant
            i <= fields@.len(),
            out@.len() == i,
            forall|k: int| 0 <= k < i ==> texts(#[trigger] out@[k]@) == split(fields@[k]@, '\x1f'),
        decreases fields@.len() - i,
    {
        let note = to_fields(fields[i].as_str());
        out.push(note);
        i += 1;
    }
    assert(field_lists(out@) =~= fields_of_notes(fields@));
    out
}

/// Create the set of known words from a list of field lists.
pub fn build_word_map(words: &Vec<Vec<&str>>) -> (known: StringHashSet)
    ensures
        known@ == known_tokens(field_lists(words@)),
{
    let ghost lists = field_lists(words@);
    let mut known = StringHashSet::new();
    let mut i: usize = 0;
    assert(known@ =~= known_up_to(lists, 0, 0));
    while i < words.len()
        invariant
            i <= words@.len(),
            lists == field_lists(words@),
            known@ == known_up_to(lists, i as int, 0),
        decreases words@.len() - i,
    {
        let list = &words[i];
        let mut j: usize = 0;
        while j < list.len()
            invariant
                i < words@.len(),
                j <= list@.len(),
                list@ == words@[i as int]@,
                lists == field_lists(words@),
                known@ == known_up_to(lists, i as int, j as int),
            decreases list@.len() - j,
        {
            let ghost before = known@;
            known.insert(list[j].to_owned());
            proof {
                assert(lists[i as int][j as int] == list@[j as int]@);
                assert(before.insert(list@[j as int]@) =~= known_up_to(lists, i as int, j + 1));
            }
            j += 1;
        }
        assert(known_up_to(lists, i as int, j as int) =~= known_up_to(lists, i + 1, 0));
        i += 1;
    }
    assert(known_up_to(lists, i as int, 0) =~= known_tokens(lists));
    known
}

/// The set of known words of a collection of notes: every field of every
/// note.
pub fn known_words(notes: &Vec<String>) -> (known: StringHashSet)
    ensures
        known@ == known_tokens(fields_of_notes(notes@)),
{
    let lists = get_words_from_fields(notes);
    build_word_map(&lists)
}

/// The known tokens of two collections put together are those of the one
/// and those of the other.
pub proof fn lemma_known_tokens_concat(a: Seq<Seq<Seq<char>>>, b: Seq<Seq<Seq<char>>>)
    ensures
        known_tokens(a + b) == known_tokens(a).union(known_tokens(b)),
{
    assert forall|t: Seq<char>| known_tokens(a + b).contains(t) implies known_tokens(a).union(
        known_tokens(b),
    ).contains(t) by {
        let (i, j) = choose|i: int, j: int|
            0 <= i < (a + b).len() && 0 <= j < (a + b)[i].len() && #[trigger] (a + b)[i][j] == t;
        if i < a.len() {
            assert(a[i][j] == t);
        } else {
            assert(b[i - a.len()][j] == t);
        }
    }
    assert forall|t: Seq<char>| known_tokens(a).union(known_tokens(b)).contains(
        t,
    ) implies known_tokens(a + b).contains(t) by {
        if known_tokens(a).contains(t) {
            let (i, j) = choose|i: int, j: int|
                0 <= i < a.len() && 0 <= j < a[i].len() && #[trigger] a[i][j] == t;
            assert((a + b)[i][j] == t);
        } else {
            let (i, j) = choose|i: int, j: int|
                0 <= i < b.len() && 0 <= j < b[i].len() && #[trigger] b[i][j] == t;
            assert((a + b)[i + a.len()][j] == t);
        }
    }
    assert(known_tokens(a + b) =~= known_tokens(a).union(known_tokens(b)));
}

/// The known set does not depend on the order of the field lists, and
/// feeding the same lists a second time adds nothing.
pub proof fn lemma_known_tokens_order_and_repetition(
    a: Seq<Seq<Seq<char>>>,
    b: Seq<Seq<Seq<char>>>,
)
    ensures
        known_tokens(a + b) == known_tokens(b + a),
        known_tokens(a + a) == known_tokens(a),
        known_tokens(a + b + a) == known_tokens(a + b),
{
    lemma_known_tokens_concat(a, b);
    lemma_known_tokens_concat(b, a);
    lemma_known_tokens_concat(a, a);
    lemma_known_tokens_concat(a + b, a);
    assert(known_tokens(a).union(known_tokens(b)) =~= known_tokens(b).union(known_tokens(a)));
    assert(known_tokens(a).union(known_tokens(a)) =~= known_tokens(a));
    assert(known_tokens(a).union(known_tokens(b)).union(known_tokens(a)) =~= known_tokens(a).union(
        known_tokens(b),
    ));
}

/// A token is known as soon as it occurs once; a second occurrence changes
/// nothing.
pub proof fn lemma_known_tokens_of_a_repeated_token(lists: Seq<Seq<Seq<char>>>, token: Seq<char>)
    ensures
        known_tokens(lists.push(seq![token])) == known_tokens(lists).insert(token),
        known_tokens(lists.push(seq![token, token])) == known_tokens(lists.push(seq![token])),
        known_tokens(lists.push(seq![token]).push(seq![token])) == known_tokens(
            lists.push(seq![token]),
        ),
{
    let once = seq![seq![token]];
    let twice = seq![seq![token, token]];
    assert(known_tokens(once) =~= Set::empty().insert(token)) by {
        assert(once[0][0] == token);
    }
    assert(known_tokens(twice) =~= Set::empty().insert(token)) by {
        assert(twice[0][0] == token);
    }
    assert(lists.push(seq![token]) =~= lists + once);
    assert(lists.push(seq![token, token]) =~= lists + twice);
    assert(lists.push(seq![token]).push(seq![token]) =~= lists + once + once);
    lemma_known_tokens_concat(lists, once);
    lemma_known_tokens_concat(lists, twice);
    lemma_known_tokens_concat(lists + once, once);
    assert(known_tokens(lists).union(Set::empty().insert(token)) =~= known_tokens(lists).insert(
        token,
    ));
    assert(known_tokens(lists).insert(token).union(Set::empty().insert(token)) =~= known_tokens(
        lists,
    ).insert(token));
}

/// Nothing is known of an empty collection.
pub proof fn lemma_known_tokens_of_nothing()
    ensures
        known_tokens(Seq::empty()) == Set::<Seq<char>>::empty(),
{
    assert(known_tokens(Seq::empty()) =~= Set::<Seq<char>>::empty());
}

} // verus!
