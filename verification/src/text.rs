//! Text as bytes: where a string may be cut, and what a run of its bytes
//! reads as.

use vstd::prelude::*;
use vstd::utf8::*;

verus! {

/// The bytes of a text in UTF-8.
pub open spec fn bytes_of(text: Seq<char>) -> Seq<u8> {
    encode_utf8(text)
}

/// The text that the bytes from `from` up to `to` spell.
pub open spec fn text_between(bytes: Seq<u8>, from: int, to: int) -> Seq<char> {
    decode_utf8(bytes.subrange(from, to))
}

/// The length of a text in bytes.
pub open spec fn byte_len(text: Seq<char>) -> nat {
    encode_utf8(text).len()
}

/// A byte of the ASCII range.
pub open spec fn is_ascii_byte(b: u8) -> bool {
    b < 0x80
}

/// An ASCII byte starts a character.
pub proof fn lemma_ascii_starts_char(bytes: Seq<u8>, i: int)
    requires
        valid_utf8(bytes),
        0 <= i < bytes.len(),
        is_ascii_byte(bytes[i]),
    ensures
        is_char_boundary(bytes, i),
{
    is_char_boundary_iff_not_is_continuation_byte(bytes, i);
}

/// The end of the text is a place to cut, and so is every place before a
/// byte that starts a character.
pub proof fn lemma_boundary_by_byte(bytes: Seq<u8>, i: int)
    requires
        valid_utf8(bytes),
        0 <= i <= bytes.len(),
        i < bytes.len() ==> !is_continuation_byte(bytes[i]),
    ensures
        is_char_boundary(bytes, i),
{
    if i < bytes.len() {
        is_char_boundary_iff_not_is_continuation_byte(bytes, i);
    } else {
        is_char_boundary_start_end_of_seq(bytes);
    }
}

/// An ASCII byte is a whole character: the place behind it is a place to
/// cut.
pub proof fn lemma_ascii_ends_char(bytes: Seq<u8>, i: int)
    requires
        valid_utf8(bytes),
        0 <= i < bytes.len(),
        is_ascii_byte(bytes[i]),
    ensures
        is_char_boundary(bytes, i + 1),
{
    lemma_ascii_starts_char(bytes, i);
    valid_utf8_split(bytes, i);
    let tail = bytes.subrange(i, bytes.len() as int);
    assert(tail[0] == bytes[i]);
    assert(length_of_first_scalar(tail) == 1);
    let rest = pop_first_scalar(tail);
    assert(valid_utf8(rest));
    assert(rest =~= bytes.subrange(i + 1, bytes.len() as int));
    if i + 1 < bytes.len() {
        assert(valid_first_scalar(rest));
        assert(rest[0] == bytes[i + 1]);
        assert(!is_continuation_byte(rest[0]));
    }
    lemma_boundary_by_byte(bytes, i + 1);
}

/// A place to cut the whole is a place to cut what is left of it after an
/// earlier cut.
pub proof fn lemma_boundary_in_tail(bytes: Seq<u8>, from: int, to: int)
    requires
        valid_utf8(bytes),
        0 <= from <= to <= bytes.len(),
        is_char_boundary(bytes, from),
        is_char_boundary(bytes, to),
    ensures
        valid_utf8(bytes.subrange(from, bytes.len() as int)),
        is_char_boundary(bytes.subrange(from, bytes.len() as int), to - from),
{
    valid_utf8_split(bytes, from);
    let tail = bytes.subrange(from, bytes.len() as int);
    if to < bytes.len() {
        is_char_boundary_iff_not_is_continuation_byte(bytes, to);
        assert(tail[to - from] == bytes[to]);
    }
    lemma_boundary_by_byte(tail, to - from);
}

/// One ASCII byte spells the character of the same number.
pub proof fn lemma_decode_ascii_byte(b: u8)
    requires
        is_ascii_byte(b),
    ensures
        valid_utf8(seq![b]),
        decode_utf8(seq![b]) == seq![b as char],
{
    let s = seq![b];
    assert(is_leading_byte_width_1(b));
    assert(b & 0x7F == b) by (bit_vector)
        requires
            b < 0x80,
    ;
    assert(decode_first_codepoint(s) == b as u32);
    assert(valid_first_scalar(s));
    assert(pop_first_scalar(s) =~= Seq::<u8>::empty());
    assert(valid_utf8(pop_first_scalar(s)));
    assert(valid_utf8(s));
    assert(decode_utf8(pop_first_scalar(s)) =~= Seq::<char>::empty());
    assert(decode_utf8(s) =~= seq![b as char]);
}

/// The bytes of two texts, one behind the other, are the bytes of the one
/// behind the bytes of the other.
pub proof fn lemma_bytes_of_concat(a: Seq<char>, b: Seq<char>)
    ensures
        bytes_of(a + b) == bytes_of(a) + bytes_of(b),
    decreases a.len(),
{
    if a.len() == 0 {
        assert(a + b =~= b);
        assert(bytes_of(a) + bytes_of(b) =~= bytes_of(b));
    } else {
        lemma_bytes_of_concat(a.drop_first(), b);
        assert((a + b).drop_first() =~= a.drop_first() + b);
        assert((a + b)[0] == a[0]);
        assert(bytes_of(a + b) =~= bytes_of(a) + bytes_of(b));
    }
}

/// The bytes between two places to cut spell a text, and the bytes of that
/// text are those bytes.
pub proof fn lemma_text_between_bytes(bytes: Seq<u8>, from: int, to: int)
    requires
        valid_utf8(bytes),
        0 <= from <= to <= bytes.len(),
        is_char_boundary(bytes, from),
        is_char_boundary(bytes, to),
    ensures
        valid_utf8(bytes.subrange(from, to)),
        bytes_of(text_between(bytes, from, to)) == bytes.subrange(from, to),
{
    lemma_boundary_in_tail(bytes, from, to);
    let tail = bytes.subrange(from, bytes.len() as int);
    valid_utf8_split(tail, to - from);
    assert(tail.subrange(0, to - from) =~= bytes.subrange(from, to));
    decode_utf8_encode_utf8(bytes.subrange(from, to));
}

/// The piece of `s` between two places to cut, given in bytes.
pub(crate) fn slice_text<'a>(s: &'a str, from: usize, to: usize) -> (piece: &'a str)
    requires
        from <= to <= bytes_of(s@).len(),
        is_char_boundary(bytes_of(s@), from as int),
        is_char_boundary(bytes_of(s@), to as int),
    ensures
        bytes_of(piece@) == bytes_of(s@).subrange(from as int, to as int),
        piece@ == text_between(bytes_of(s@), from as int, to as int),
{
    broadcast use {encode_utf8_valid_utf8, encode_utf8_decode_utf8};

    let ghost bytes = bytes_of(s@);
    let (_, tail) = s.split_at(from);
    proof {
        lemma_boundary_in_tail(bytes, from as int, to as int);
        assert(bytes_of(tail@) == bytes.subrange(from as int, bytes.len() as int));
    }
    let (piece, _) = tail.split_at(to - from);
    proof {
        assert(bytes_of(piece@) =~= bytes.subrange(from as int, to as int));
        assert(decode_utf8(encode_utf8(piece@)) == piece@);
    }
    piece
}

/// The length of `s` in bytes.
pub(crate) fn text_len(s: &str) -> (n: usize)
    ensures
        n == byte_len(s@),
{
    s.as_bytes().len()
}

} // verus!
