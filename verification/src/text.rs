//! UTF-8 text and its bytes: splitting the bytes at an ASCII byte is
//! splitting the characters at that character.

use crate::split::{
    byte_strings, first_index, lemma_first_index_found, lemma_first_line, lemma_split_first_piece,
    lemma_split_without_separator, lines_by, split, without_last,
};
use vstd::prelude::*;
use vstd::string::*;
use vstd::utf8::*;

verus! {

/// The characters of each string of `v`, in order.
pub open spec fn texts(v: Seq<&str>) -> Seq<Seq<char>> {
    Seq::new(v.len(), |i: int| v[i]@)
}

/// The characters of each owned string of `v`, in order.
pub open spec fn string_texts(v: Seq<String>) -> Seq<Seq<char>> {
    Seq::new(v.len(), |i: int| v[i]@)
}

/// The UTF-8 encoding of each text of `v`, in order.
pub open spec fn encoded(v: Seq<Seq<char>>) -> Seq<Seq<u8>> {
    Seq::new(v.len(), |i: int| encode_utf8(v[i]))
}

/// The encoding of an ASCII character is its one byte, and that byte occurs
/// in the encoding of no other character.
pub proof fn lemma_ascii_byte_of_char(c: char, b: u8)
    requires
        b < 0x80,
    ensures
        encode_scalar(c as u32).len() >= 1,
        c == b as char ==> encode_scalar(c as u32) == seq![b],
        c != b as char ==> !encode_scalar(c as u32).contains(b),
{
    let s = c as u32;
    let e = encode_scalar(s);
    if has_width_1_encoding(s) {
        assert(((s & 0x7F) as u8) as u32 == s) by (bit_vector)
            requires
                s <= 0x7F,
        ;
        assert(e =~= seq![leading_byte_width_1(s)]);
    } else {
        assert(0xC0u8 | (((s >> 6) & 0x1F) as u8) >= 0x80) by (bit_vector);
        assert(0xE0u8 | (((s >> 12) & 0x0F) as u8) >= 0x80) by (bit_vector);
        assert(0xF0u8 | (((s >> 18) & 0x7) as u8) >= 0x80) by (bit_vector);
        assert(0x80u8 | ((s & 0x3F) as u8) >= 0x80) by (bit_vector);
        assert(0x80u8 | (((s >> 6) & 0x3F) as u8) >= 0x80) by (bit_vector);
        assert(0x80u8 | (((s >> 12) & 0x3F) as u8) >= 0x80) by (bit_vector);
        assert forall|i: int| 0 <= i < e.len() implies e[i] >= 0x80 by {}
    }
}

/// Text is encoded character by character: the encoding of two texts one
/// after the other is the encoding of the first, then that of the second.
pub proof fn lemma_encode_concat(a: Seq<char>, b: Seq<char>)
    ensures
        encode_utf8(a + b) == encode_utf8(a) + encode_utf8(b),
    decreases a.len(),
{
    if a.len() == 0 {
        assert(a + b =~= b);
        assert(encode_utf8(a) + encode_utf8(b) =~= encode_utf8(b));
    } else {
        lemma_encode_concat(a.drop_first(), b);
        assert((a + b).drop_first() =~= a.drop_first() + b);
        assert(encode_utf8(a + b) =~= encode_utf8(a) + encode_utf8(b));
    }
}

/// An ASCII byte occurs in the encoding of a text only where the text holds
/// that character.
pub proof fn lemma_ascii_byte_absent(s: Seq<char>, b: u8)
    requires
        b < 0x80,
        !s.contains(b as char),
    ensures
        !encode_utf8(s).contains(b),
    decreases s.len(),
{
    if s.len() > 0 {
        let head = encode_scalar(s[0] as u32);
        let tail = encode_utf8(s.drop_first());
        assert(s.contains(s[0]));
        lemma_ascii_byte_of_char(s[0], b);
        assert(!s.drop_first().contains(b as char)) by {
            if s.drop_first().contains(b as char) {
                let i = choose|i: int| 0 <= i < s.drop_first().len() && s.drop_first()[i] == b as char;
                assert(s[i + 1] == b as char);
            }
        }
        lemma_ascii_byte_absent(s.drop_first(), b);
        if (head + tail).contains(b) {
            let i = choose|i: int| 0 <= i < (head + tail).len() && (head + tail)[i] == b;
            if i < head.len() {
                assert(head.contains(head[i]));
            } else {
                assert(tail.contains(tail[i - head.len()]));
            }
        }
    }
}

/// Splitting the UTF-8 bytes of a text at an ASCII byte gives the encodings
/// of the pieces that splitting the text at that character gives.
pub proof fn lemma_split_of_bytes(s: Seq<char>, b: u8)
    requires
        b < 0x80,
    ensures
        split(encode_utf8(s), b) == encoded(split(s, b as char)),
    decreases s.len(),
{
    let c = b as char;
    let i = first_index(s, c) as int;
    lemma_first_index_found(s, c);
    if i >= s.len() {
        assert(!s.contains(c));
        lemma_ascii_byte_absent(s, b);
        lemma_split_without_separator(s, c);
        lemma_split_without_separator(encode_utf8(s), b);
        assert(split(encode_utf8(s), b) =~= encoded(split(s, c)));
    } else {
        let head = s.take(i);
        let tail = s.skip(i + 1);
        assert(!head.contains(c));
        assert(s =~= head + seq![c] + tail);
        lemma_ascii_byte_absent(head, b);
        lemma_encode_concat(head + seq![c], tail);
        lemma_encode_concat(head, seq![c]);
        assert(encode_utf8(seq![c]) =~= seq![b]) by {
            lemma_ascii_byte_of_char(c, b);
            assert(seq![c].drop_first() =~= Seq::<char>::empty());
            assert(encode_utf8(seq![c]) =~= encode_scalar(c as u32) + encode_utf8(
                Seq::<char>::empty(),
            ));
        }
        lemma_split_first_piece(head, c, tail);
        lemma_split_first_piece(encode_utf8(head), b, encode_utf8(tail));
        lemma_split_of_bytes(tail, b);
        assert(split(encode_utf8(s), b) =~= encoded(split(s, c)));
    }
}

/// The encoding of a single character is the encoding of the text that
/// holds just that character.
pub proof fn lemma_encode_one(c: char)
    ensures
        encode_utf8(seq![c]) == encode_scalar(c as u32),
{
    assert(seq![c].drop_first() =~= Seq::<char>::empty());
    assert(encode_utf8(seq![c]) =~= encode_scalar(c as u32) + encode_utf8(Seq::<char>::empty()));
}

/// Taking an ASCII byte off the end of the UTF-8 bytes of a text is taking
/// that character off the end of the text.
pub proof fn lemma_without_last_of_bytes(s: Seq<char>, b: u8)
    requires
        b < 0x80,
    ensures
        without_last(encode_utf8(s), b) == encode_utf8(without_last(s, b as char)),
{
    if s.len() > 0 {
        let last = encode_scalar(s.last() as u32);
        assert(s =~= s.drop_last() + seq![s.last()]);
        lemma_encode_concat(s.drop_last(), seq![s.last()]);
        lemma_encode_one(s.last());
        lemma_ascii_byte_of_char(s.last(), b);
        assert(encode_utf8(s) == encode_utf8(s.drop_last()) + last);
        if s.last() == b as char {
            assert(encode_utf8(s).drop_last() =~= encode_utf8(s.drop_last()));
        } else {
            assert(last.contains(last.last()));
            assert(encode_utf8(s).last() == last.last());
        }
    }
}

/// The lines of the UTF-8 bytes of a text are the encodings of the lines of
/// the text.
pub proof fn lemma_lines_of_bytes(s: Seq<char>, feed: u8, back: u8)
    requires
        feed < 0x80,
        back < 0x80,
    ensures
        lines_by(encode_utf8(s), feed, back) == encoded(lines_by(s, feed as char, back as char)),
    decreases s.len(),
{
    let c = feed as char;
    let i = first_index(s, c) as int;
    lemma_first_index_found(s, c);
    if s.len() == 0 {
        assert(lines_by(encode_utf8(s), feed, back) =~= encoded(lines_by(s, c, back as char)));
    } else if i >= s.len() {
        assert(!s.contains(c));
        lemma_ascii_byte_absent(s, feed);
        lemma_first_index_found(encode_utf8(s), feed);
        lemma_ascii_byte_of_char(s[0], feed);
        assert(encode_utf8(s).len() > 0);
        assert(first_index(encode_utf8(s), feed) == encode_utf8(s).len()) by {
            if first_index(encode_utf8(s), feed) < encode_utf8(s).len() {
                assert(encode_utf8(s).contains(encode_utf8(s)[first_index(encode_utf8(s), feed) as int]));
            }
        }
        assert(lines_by(encode_utf8(s), feed, back) =~= encoded(lines_by(s, c, back as char)));
    } else {
        let head = s.take(i);
        let tail = s.skip(i + 1);
        assert(!head.contains(c));
        assert(s =~= head + seq![c] + tail);
        lemma_ascii_byte_absent(head, feed);
        lemma_encode_concat(head + seq![c], tail);
        lemma_encode_concat(head, seq![c]);
        lemma_encode_one(c);
        lemma_ascii_byte_of_char(c, feed);
        lemma_first_line(head, c, back as char, tail);
        lemma_first_line(encode_utf8(head), feed, back, encode_utf8(tail));
        lemma_without_last_of_bytes(head, back);
        lemma_lines_of_bytes(tail, feed, back);
        assert(lines_by(encode_utf8(s), feed, back) =~= encoded(lines_by(s, c, back as char)));
    }
}

/// Strings with the same bytes, one by one, have the same characters.
pub proof fn lemma_texts_of_bytes(v: Seq<&str>, pieces: Seq<Seq<char>>)
    requires
        byte_strings(v) == encoded(pieces),
    ensures
        texts(v) == pieces,
{
    assert(v.len() == byte_strings(v).len());
    assert forall|i: int| 0 <= i < v.len() implies v[i]@ == pieces[i] by {
        assert(byte_strings(v)[i] == encoded(pieces)[i]);
        encode_utf8_decode_utf8(v[i]@);
        encode_utf8_decode_utf8(pieces[i]);
    }
    assert(texts(v) =~= pieces);
}

} // verus!
