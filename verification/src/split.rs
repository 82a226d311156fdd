//! Splitting a sequence around a separator and into lines, and cutting
//! UTF-8 text at an ASCII separator byte.

use vstd::prelude::*;
use vstd::string::*;
use vstd::utf8::*;

verus! {

/// The position of the first `x` in `s`, or `s.len()` when `s` holds none.
pub open spec fn first_index<T>(s: Seq<T>, x: T) -> nat
    decreases s.len(),
{
    if s.len() == 0 || s[0] == x {
        0
    } else {
        1 + first_index(s.drop_first(), x)
    }
}

/// The pieces of `s` between the occurrences of `sep`, in order. Empty pieces
/// are kept, so there is always one piece more than there are separators.
pub open spec fn split<T>(s: Seq<T>, sep: T) -> Seq<Seq<T>>
    decreases s.len(),
{
    let i = first_index(s, sep) as int;
    if i >= s.len() {
        seq![s]
    } else {
        seq![s.subrange(0, i)] + split(s.subrange(i + 1, s.len() as int), sep)
    }
}

/// `s` without its last element, if that is `x`.
pub open spec fn without_last<T>(s: Seq<T>, x: T) -> Seq<T> {
    if s.len() > 0 && s.last() == x {
        s.drop_last()
    } else {
        s
    }
}

/// The lines of `s`. A line ends at a `feed`, or at a `back` directly
/// followed by a `feed`; neither belongs to the line. The last line needs no
/// line ending, and after a final line ending no empty line follows.
pub open spec fn lines_by<T>(s: Seq<T>, feed: T, back: T) -> Seq<Seq<T>>
    decreases s.len(),
{
    let i = first_index(s, feed) as int;
    if s.len() == 0 {
        Seq::empty()
    } else if i >= s.len() {
        seq![s]
    } else {
        seq![without_last(s.subrange(0, i), back)] + lines_by(
            s.subrange(i + 1, s.len() as int),
            feed,
            back,
        )
    }
}

/// The UTF-8 bytes of each string of `v`, in order.
pub open spec fn byte_strings(v: Seq<&str>) -> Seq<Seq<u8>> {
    Seq::new(v.len(), |i: int| v[i].spec_bytes())
}

/// `first_index` is the one position that has no `x` before it and that
/// either holds `x` or is the end of `s`.
pub proof fn lemma_first_index<T>(s: Seq<T>, x: T, i: int)
    requires
        0 <= i <= s.len(),
        forall|j: int| 0 <= j < i ==> s[j] != x,
        i < s.len() ==> s[i] == x,
    ensures
        first_index(s, x) == i,
    decreases s.len(),
{
    if s.len() != 0 && s[0] != x {
        let t = s.drop_first();
        assert forall|j: int| 0 <= j < i - 1 implies t[j] != x by {
            assert(t[j] == s[j + 1]);
        }
        lemma_first_index(t, x, i - 1);
    }
}

/// What `first_index` finds: it lies within `s`, nothing before it is `x`,
/// and if it is not the end, it is an `x`.
pub proof fn lemma_first_index_found<T>(s: Seq<T>, x: T)
    ensures
        first_index(s, x) <= s.len(),
        forall|j: int| 0 <= j < first_index(s, x) ==> s[j] != x,
        first_index(s, x) < s.len() ==> s[first_index(s, x) as int] == x,
    decreases s.len(),
{
    if s.len() != 0 && s[0] != x {
        let t = s.drop_first();
        lemma_first_index_found(t, x);
        assert forall|j: int| 0 <= j < first_index(s, x) implies s[j] != x by {
            if j > 0 {
                assert(t[j - 1] == s[j]);
            }
        }
    }
}

/// A sequence without the separator is its own single piece.
pub proof fn lemma_split_without_separator<T>(s: Seq<T>, sep: T)
    requires
        !s.contains(sep),
    ensures
        split(s, sep) == seq![s],
{
    lemma_first_index_found(s, sep);
}

/// A text that starts with a piece free of separators, then a separator,
/// splits into that piece and the pieces of what follows.
pub proof fn lemma_split_first_piece<T>(head: Seq<T>, sep: T, tail: Seq<T>)
    requires
        !head.contains(sep),
    ensures
        split(head + seq![sep] + tail, sep) == seq![head] + split(tail, sep),
{
    let s = head + seq![sep] + tail;
    assert forall|j: int| 0 <= j < head.len() implies s[j] != sep by {
        assert(head.contains(head[j]));
    }
    lemma_first_index(s, sep, head.len() as int);
    assert(s.subrange(0, head.len() as int) =~= head);
    assert(s.subrange(head.len() as int + 1, s.len() as int) =~= tail);
}

/// A text that starts with a piece free of line feeds, then a line feed,
/// has that piece as its first line, less the `back` at its end if there is
/// one, and then the lines of what follows.
pub proof fn lemma_first_line<T>(head: Seq<T>, feed: T, back: T, tail: Seq<T>)
    requires
        !head.contains(feed),
    ensures
        lines_by(head + seq![feed] + tail, feed, back) == seq![without_last(head, back)] + lines_by(
            tail,
            feed,
            back,
        ),
{
    let s = head + seq![feed] + tail;
    assert forall|j: int| 0 <= j < head.len() implies s[j] != feed by {
        assert(head.contains(head[j]));
    }
    lemma_first_index(s, feed, head.len() as int);
    assert(s.subrange(0, head.len() as int) =~= head);
    assert(s.subrange(head.len() as int + 1, s.len() as int) =~= tail);
}

/// No piece of a split holds the separator.
pub proof fn lemma_split_pieces_hold_no_separator<T>(s: Seq<T>, sep: T)
    ensures
        forall|k: int| 0 <= k < split(s, sep).len() ==> !(#[trigger] split(s, sep)[k]).contains(sep),
    decreases s.len(),
{
    let i = first_index(s, sep) as int;
    lemma_first_index_found(s, sep);
    if i < s.len() {
        let rest = s.subrange(i + 1, s.len() as int);
        lemma_split_pieces_hold_no_separator(rest, sep);
        assert forall|k: int| 0 <= k < split(s, sep).len() implies !(#[trigger] split(s, sep)[k]).contains(sep) by {
            if k > 0 {
                assert(split(s, sep)[k] == split(rest, sep)[k - 1]);
            }
        }
    }
}

/// Splitting a piece of a split again changes nothing: the piece is its own
/// single piece.
pub proof fn lemma_split_is_idempotent<T>(s: Seq<T>, sep: T, k: int)
    requires
        0 <= k < split(s, sep).len(),
    ensures
        split(split(s, sep)[k], sep) == seq![split(s, sep)[k]],
{
    lemma_split_pieces_hold_no_separator(s, sep);
    lemma_split_without_separator(split(s, sep)[k], sep);
}

/// A filter that every element passes keeps the sequence as it is.
pub proof fn lemma_filter_keeps_all<A>(s: Seq<A>, pred: spec_fn(A) -> bool)
    requires
        forall|i: int| 0 <= i < s.len() ==> pred(#[trigger] s[i]),
    ensures
        s.filter(pred) == s,
    decreases s.len(),
{
    reveal(Seq::filter);
    if s.len() > 0 {
        lemma_filter_keeps_all(s.drop_last(), pred);
        assert(s.drop_last().push(s.last()) =~= s);
    }
}

/// The byte offset of the first `b` in `s`, or the length of `s` in bytes
/// when it holds none.
pub fn find_byte(s: &str, b: u8) -> (i: usize)
    ensures
        i == first_index(s.spec_bytes(), b),
{
    let bytes = s.as_bytes();
    let mut i: usize = 0;
    while i < bytes.len() && bytes[i] != b
        invariant
            i <= bytes@.len(),
            bytes@ == s.spec_bytes(),
            forall|j: int| 0 <= j < i ==> bytes@[j] != b,
        decreases bytes@.len() - i,
    {
        i += 1;
    }
    proof {
        lemma_first_index(bytes@, b, i as int);
    }
    i
}

/// Cuts `s` at its first separator byte `sep`: what stands before it and what
/// stands after it. `None` when `s` does not hold `sep`.
pub(crate) fn cut<'a>(s: &'a str, sep: u8) -> (r: Option<(&'a str, &'a str)>)
    requires
        sep < 0x80,
    ensures
        match r {
            Some((head, tail)) => {
                let i = first_index(s.spec_bytes(), sep) as int;
                &&& i < s.spec_bytes().len()
                &&& head.spec_bytes() == s.spec_bytes().subrange(0, i)
                &&& tail.spec_bytes() == s.spec_bytes().subrange(i + 1, s.spec_bytes().len() as int)
            },
            None => first_index(s.spec_bytes(), sep) == s.spec_bytes().len(),
        },
{
    let ghost bytes = s.spec_bytes();
    let i = find_byte(s, sep);
    proof {
        lemma_first_index_found(bytes, sep);
    }
    if i >= s.as_bytes().len() {
        return None;
    }
    proof {
        encode_utf8_valid_utf8(s@);
        is_char_boundary_iff_not_is_continuation_byte(bytes, i as int);
    }
    let (head, rest) = s.split_at(i);
    proof {
        encode_utf8_valid_utf8(rest@);
        lemma_boundary_after_ascii(rest.spec_bytes());
    }
    let (_, tail) = rest.split_at(1);
    assert(tail.spec_bytes() =~= bytes.subrange(i + 1, bytes.len() as int));
    Some((head, tail))
}

/// In valid UTF-8 that starts with an ASCII byte, the second byte starts a
/// character (or the text ends there).
proof fn lemma_boundary_after_ascii(bytes: Seq<u8>)
    requires
        valid_utf8(bytes),
        bytes.len() > 0,
        bytes[0] < 0x80,
    ensures
        is_char_boundary(bytes, 1),
{
    reveal_with_fuel(is_char_boundary, 2);
    reveal_with_fuel(valid_utf8, 2);
}

} // verus!
