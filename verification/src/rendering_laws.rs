//! What rendered text is made of: the bytes of the fixed texts, the bytes
//! of names, and lines that hold no line feed.

use crate::formatter::{
    columns, edge, edge_cell, key_cell, key_row, keys_in, lemma_keys_in_grows, occupied, text_of,
    Mark, Piece,
};
use crate::lexer::is_word_byte;
use crate::text::bytes_of;
use vstd::prelude::*;
use vstd::utf8::*;

verus! {

/// The characters of an identifier: ASCII letters, digits and the
/// underscore.
pub open spec fn is_word_char(c: char) -> bool {
    ('0' <= c <= '9') || ('A' <= c <= 'Z') || ('a' <= c <= 'z') || c == '_'
}

/// A word that the lexer reads as one identifier: characters of an
/// identifier, not underscores alone, and none of the reserved words.
pub open spec fn is_word_name(text: Seq<char>) -> bool {
    &&& text.len() > 0
    &&& forall|i: int| 0 <= i < text.len() ==> is_word_char(#[trigger] text[i])
    &&& exists|i: int| 0 <= i < text.len() && #[trigger] text[i] != '_'
    &&& text != "LAYOUT"@
    &&& text != "const"@
    &&& text != "PROGMEM"@
}

/// A character that the lexer reads as an identifier of its own: an ASCII
/// character that is no white space, no character of an identifier, and
/// none of the eight that stand for themselves.
pub open spec fn is_sign_char(c: char) -> bool {
    '\0' <= c <= '\u{7f}' && c != ' ' && c != '\t' && c != '\n' && c != '\r' && !is_word_char(c)
        && c != '(' && c != ')' && c != '{' && c != '}' && c != '[' && c != ']' && c != ','
        && c != '='
}

/// A text that the lexer reads as one identifier, where no slash follows
/// it: a word, or one character that is read as an identifier of its own.
pub open spec fn is_name(text: Seq<char>) -> bool {
    is_word_name(text) || (text.len() == 1 && is_sign_char(text[0]))
}

/// The characters that a call may hold between its parentheses: ASCII
/// characters but white space and the closing parenthesis.
pub open spec fn is_call_char(c: char) -> bool {
    '\0' <= c <= '\u{7f}' && c != ' ' && c != '\t' && c != '\n' && c != '\r' && c != ')'
}

/// The characters from `i` up to `j` are a word of underscores alone.
pub open spec fn blank_run(text: Seq<char>, i: int, j: int) -> bool {
    &&& 0 < i < j < text.len()
    &&& forall|x: int| i <= x < j ==> #[trigger] text[x] == '_'
    &&& !is_word_char(text[i - 1])
    &&& !is_word_char(text[j])
}

/// A key written as a call that the lexer and the parser read as it
/// stands: a name of `k` characters, an opening parenthesis, characters of
/// a call, and the one closing parenthesis. No two slashes follow each
/// other in it, and a word of underscores alone in it has seven of them, as
/// a blank is written.
pub open spec fn is_call(text: Seq<char>, k: int) -> bool {
    &&& 0 < k
    &&& k + 2 <= text.len()
    &&& is_name(text.subrange(0, k))
    &&& text[k] == '('
    &&& text[text.len() - 1] == ')'
    &&& forall|i: int|
        k < i < text.len() - 1 ==> is_call_char(#[trigger] text[i]) && !(text[i] == '/' && text[i
            + 1] == '/')
    &&& forall|i: int, j: int| #[trigger] blank_run(text, i, j) ==> j - i == 7
}

/// A key that is read back as it was written: a blank, an identifier, or
/// a call.
pub open spec fn is_steady_key(key: Seq<char>) -> bool {
    key.len() == 0 || is_name(key) || exists|k: int| is_call(key, k)
}

/// Every key is read back as it was written.
pub open spec fn steady_keys(keys: Seq<Seq<char>>) -> bool {
    forall|k: int| 0 <= k < keys.len() ==> is_steady_key(#[trigger] keys[k])
}

/// The end of the word that starts at `i`: the first place at or behind
/// `i` that holds no character of an identifier.
pub open spec fn word_stop(text: Seq<char>, i: int) -> int
    decreases text.len() - i,
{
    if 0 <= i < text.len() && is_word_char(text[i]) {
        word_stop(text, i + 1)
    } else {
        i
    }
}

/// A word ends inside the text, holds characters of an identifier only,
/// and is followed by none.
pub proof fn lemma_word_stop(text: Seq<char>, i: int)
    requires
        0 <= i <= text.len(),
    ensures
        i <= word_stop(text, i) <= text.len(),
        forall|x: int| i <= x < word_stop(text, i) ==> is_word_char(#[trigger] text[x]),
        word_stop(text, i) < text.len() ==> !is_word_char(text[word_stop(text, i)]),
    decreases text.len() - i,
{
    if i < text.len() && is_word_char(text[i]) {
        lemma_word_stop(text, i + 1);
    }
}

/// A part of an ASCII text has the bytes of that part of its bytes.
pub proof fn lemma_ascii_sub(text: Seq<char>, i: int, j: int)
    requires
        is_ascii_chars(text),
        0 <= i <= j <= text.len(),
    ensures
        is_ascii_chars(text.subrange(i, j)),
        bytes_of(text).len() == text.len(),
        bytes_of(text.subrange(i, j)) == bytes_of(text).subrange(i, j),
        decode_utf8(bytes_of(text).subrange(i, j)) == text.subrange(i, j),
{
    let part = text.subrange(i, j);
    assert forall|x: int| 0 <= x < part.len() implies '\0' <= #[trigger] part[x] <= '\u{7f}' by {
        assert(part[x] == text[i + x]);
    }
    lemma_ascii_bytes(text);
    lemma_ascii_bytes(part);
    assert forall|x: int| 0 <= x < part.len() implies bytes_of(part)[x] == bytes_of(text).subrange(
        i,
        j,
    )[x] by {
        assert(bytes_of(part)[x] == part[x] as u8);
        assert(bytes_of(text)[i + x] == text[i + x] as u8);
    }
    assert(bytes_of(part) =~= bytes_of(text).subrange(i, j));
    encode_utf8_decode_utf8(part);
}

/// A call is ASCII: it has one byte for each character, and it holds no
/// line feed.
pub proof fn lemma_call_bytes(text: Seq<char>, k: int)
    requires
        is_call(text, k),
    ensures
        is_ascii_chars(text),
        bytes_of(text).len() == text.len(),
        forall|i: int| 0 <= i < text.len() ==> #[trigger] bytes_of(text)[i] == text[i] as u8,
        no_line_feed(text),
        !is_name(text),
        text.len() > 0,
{
    let name = text.subrange(0, k);
    lemma_name_bytes(name);
    assert forall|i: int| 0 <= i < text.len() implies '\0' <= #[trigger] text[i] <= '\u{7f}'
        && text[i] != '\n' by {
        if i < k {
            assert(name[i] == text[i]);
            assert('\0' <= name[i] <= '\u{7f}');
            assert(name[i] != '\n');
        } else if i == k {
            assert(text[i] == '(');
        } else if i < text.len() - 1 {
            assert(is_call_char(text[i]));
        } else {
            assert(text[i] == ')');
        }
    }
    lemma_ascii_bytes(text);
    assert(!is_word_char(text[k]));
}

/// A text without a line feed.
pub open spec fn no_line_feed(text: Seq<char>) -> bool {
    forall|i: int| 0 <= i < text.len() ==> #[trigger] text[i] != '\n'
}

/// A piece that stays on its line: no line end, and no key with a line
/// feed in it.
pub open spec fn stays_in_line(piece: Piece) -> bool {
    match piece {
        Piece::Newline => false,
        Piece::Key(text) => no_line_feed(text),
        _ => true,
    }
}

/// Pieces that stay on one line.
pub open spec fn in_line(pieces: Seq<Piece>) -> bool {
    forall|k: int| 0 <= k < pieces.len() ==> stays_in_line(#[trigger] pieces[k])
}

/// The text of pieces with one more is the text of the pieces and that of
/// the one.
pub proof fn lemma_text_of_push(pieces: Seq<Piece>, piece: Piece)
    ensures
        text_of(pieces.push(piece)) == text_of(pieces) + piece.text(),
{
    assert(pieces.push(piece).drop_last() =~= pieces);
}

/// The text of one piece.
pub proof fn lemma_text_of_one(piece: Piece)
    ensures
        text_of(seq![piece]) == piece.text(),
{
    assert(seq![piece].drop_last() =~= Seq::<Piece>::empty());
    assert(text_of(Seq::<Piece>::empty()) =~= Seq::<char>::empty());
    assert(text_of(seq![piece]) =~= piece.text());
}

/// The text of pieces behind pieces is the text of the first behind the
/// text of the second.
pub proof fn lemma_text_of_concat(a: Seq<Piece>, b: Seq<Piece>)
    ensures
        text_of(a + b) == text_of(a) + text_of(b),
    decreases b.len(),
{
    if b.len() == 0 {
        assert(a + b =~= a);
        assert(text_of(a) + text_of(b) =~= text_of(a));
    } else {
        lemma_text_of_concat(a, b.drop_last());
        assert((a + b).drop_last() =~= a + b.drop_last());
        assert((a + b).last() == b.last());
        assert(text_of(a + b) =~= text_of(a) + text_of(b));
    }
}

/// An ASCII text has one byte for each character: the character's number.
pub proof fn lemma_ascii_bytes(text: Seq<char>)
    requires
        is_ascii_chars(text),
    ensures
        bytes_of(text).len() == text.len(),
        forall|i: int| 0 <= i < text.len() ==> #[trigger] bytes_of(text)[i] == text[i] as u8,
{
    is_ascii_chars_encode_utf8(text);
}

/// The bytes of a text without a line feed hold no line feed.
pub proof fn lemma_no_line_feed_bytes(text: Seq<char>)
    requires
        no_line_feed(text),
    ensures
        forall|j: int| 0 <= j < bytes_of(text).len() ==> #[trigger] bytes_of(text)[j] != 0x0a,
    decreases text.len(),
{
    if text.len() > 0 {
        let rest = text.drop_first();
        assert forall|i: int| 0 <= i < rest.len() implies #[trigger] rest[i] != '\n' by {
            assert(rest[i] == text[i + 1]);
        }
        lemma_no_line_feed_bytes(rest);
        let scalar = text[0] as u32;
        let first = encode_scalar(scalar);
        assert(text[0] != '\n');
        assert(scalar != 0x0a) by {
            char_u32_cast(text[0], scalar);
            char_u32_cast('\n', 0x0au32);
        }
        assert forall|j: int| 0 <= j < first.len() implies #[trigger] first[j] != 0x0a by {
            lemma_scalar_bytes(scalar, j);
        }
        assert forall|j: int| 0 <= j < bytes_of(text).len() implies #[trigger] bytes_of(text)[j]
            != 0x0a by {
            if j < first.len() {
                assert(bytes_of(text)[j] == first[j]);
            } else {
                assert(bytes_of(text)[j] == bytes_of(rest)[j - first.len()]);
            }
        }
    }
}

proof fn lemma_scalar_bytes(scalar: u32, j: int)
    requires
        scalar != 0x0a,
        0 <= j < encode_scalar(scalar).len(),
    ensures
        encode_scalar(scalar)[j] != 0x0a,
{
    let low = (scalar & 0x7F) as u8;
    let a = ((scalar >> 6) & 0x1F) as u8;
    let b = ((scalar >> 12) & 0x0F) as u8;
    let c = ((scalar >> 18) & 0x7) as u8;
    let d = (scalar & 0x3F) as u8;
    let e = ((scalar >> 6) & 0x3F) as u8;
    let f = ((scalar >> 12) & 0x3F) as u8;
    assert(scalar <= 0x7F ==> (scalar & 0x7F) == scalar) by (bit_vector);
    assert(0xC0u8 | a != 0x0a) by (bit_vector);
    assert(0xE0u8 | b != 0x0a) by (bit_vector);
    assert(0xF0u8 | c != 0x0a) by (bit_vector);
    assert(0x80u8 | d != 0x0a) by (bit_vector);
    assert(0x80u8 | e != 0x0a) by (bit_vector);
    assert(0x80u8 | f != 0x0a) by (bit_vector);
}

/// A name is ASCII: it has one byte for each character, and it holds no
/// line feed. The bytes of a word are bytes of an identifier, and not all
/// of them underscores; the byte of one character that is read as an
/// identifier of its own is no such byte.
pub proof fn lemma_name_bytes(text: Seq<char>)
    requires
        is_name(text),
    ensures
        is_ascii_chars(text),
        bytes_of(text).len() == text.len(),
        forall|i: int| 0 <= i < text.len() ==> #[trigger] bytes_of(text)[i] == text[i] as u8,
        no_line_feed(text),
        decode_utf8(bytes_of(text)) == text,
        is_word_name(text) ==> {
            &&& forall|i: int| 0 <= i < text.len() ==> is_word_byte(#[trigger] bytes_of(text)[i])
            &&& exists|i: int| 0 <= i < text.len() && #[trigger] bytes_of(text)[i] != 0x5f
        },
        !is_word_name(text) ==> {
            &&& text.len() == 1
            &&& is_sign_char(text[0])
            &&& !is_word_byte(bytes_of(text)[0])
        },
{
    assert forall|i: int| 0 <= i < text.len() implies '\0' <= #[trigger] text[i] <= '\u{7f}'
        && text[i] != '\n' by {
        if is_word_name(text) {
            assert(is_word_char(text[i]));
        } else {
            assert(i == 0);
            assert(is_sign_char(text[0]));
        }
    }
    lemma_ascii_bytes(text);
    encode_utf8_decode_utf8(text);
    if is_word_name(text) {
        assert forall|i: int| 0 <= i < text.len() implies is_word_byte(
            #[trigger] bytes_of(text)[i],
        ) by {
            assert(is_word_char(text[i]));
            assert(bytes_of(text)[i] == text[i] as u8);
        }
        let i = choose|i: int| 0 <= i < text.len() && #[trigger] text[i] != '_';
        assert(bytes_of(text)[i] == text[i] as u8);
        assert(bytes_of(text)[i] != 0x5f);
    } else {
        assert(bytes_of(text)[0] == text[0] as u8);
    }
}

/// The bytes of a line feed.
pub proof fn lemma_bytes_line_feed()
    ensures
        bytes_of("\n"@) == seq![0x0au8],
{
    reveal_strlit("\n");
    let text = "\n"@;
    lemma_ascii_bytes(text);
    assert(bytes_of(text)[0] == text[0] as u8);
    assert(bytes_of(text) =~= seq![0x0au8]);
}

/// The bytes of two line feeds.
pub proof fn lemma_bytes_empty_line()
    ensures
        bytes_of("\n\n"@) == seq![0x0au8, 0x0au8],
{
    reveal_strlit("\n\n");
    let text = "\n\n"@;
    lemma_ascii_bytes(text);
    assert(bytes_of(text)[0] == text[0] as u8);
    assert(bytes_of(text)[1] == text[1] as u8);
    assert(bytes_of(text) =~= seq![0x0au8, 0x0au8]);
}

/// The bytes of a space.
pub proof fn lemma_bytes_space()
    ensures
        bytes_of(" "@) == seq![0x20u8],
{
    reveal_strlit(" ");
    let text = " "@;
    lemma_ascii_bytes(text);
    assert(bytes_of(text)[0] == text[0] as u8);
    assert(bytes_of(text) =~= seq![0x20u8]);
}

/// The bytes of a comma.
pub proof fn lemma_bytes_comma()
    ensures
        bytes_of(","@) == seq![0x2cu8],
{
    reveal_strlit(",");
    let text = ","@;
    lemma_ascii_bytes(text);
    assert(bytes_of(text)[0] == text[0] as u8);
    assert(bytes_of(text) =~= seq![0x2cu8]);
}

/// The bytes of an opening bracket.
pub proof fn lemma_bytes_bracket()
    ensures
        bytes_of("["@) == seq![0x5bu8],
{
    reveal_strlit("[");
    let text = "["@;
    lemma_ascii_bytes(text);
    assert(bytes_of(text)[0] == text[0] as u8);
    assert(bytes_of(text) =~= seq![0x5bu8]);
}

/// The bytes of what closes a key list.
pub proof fn lemma_bytes_list_end()
    ensures
        bytes_of("),"@) == seq![0x29u8, 0x2cu8],
{
    reveal_strlit("),");
    let text = "),"@;
    lemma_ascii_bytes(text);
    assert(bytes_of(text)[0] == text[0] as u8);
    assert(bytes_of(text)[1] == text[1] as u8);
    assert(bytes_of(text) =~= seq![0x29u8, 0x2cu8]);
}

/// The bytes of seven underscores.
pub proof fn lemma_bytes_blank()
    ensures
        bytes_of("_______"@) == seq![0x5fu8, 0x5fu8, 0x5fu8, 0x5fu8, 0x5fu8, 0x5fu8, 0x5fu8],
        decode_utf8(bytes_of("_______"@)) == "_______"@,
        "_______"@ != "LAYOUT"@,
        "_______"@ != "const"@,
        "_______"@ != "PROGMEM"@,
        "_______"@ != ","@,
        "_______"@.len() == 7,
        !is_name("_______"@),
        no_line_feed("_______"@),
{
    reveal_strlit("_______");
    reveal_strlit("LAYOUT");
    reveal_strlit("const");
    reveal_strlit("PROGMEM");
    reveal_strlit(",");
    let text = "_______"@;
    lemma_ascii_bytes(text);
    assert(bytes_of(text)[0] == text[0] as u8);
    assert(bytes_of(text)[1] == text[1] as u8);
    assert(bytes_of(text)[2] == text[2] as u8);
    assert(bytes_of(text)[3] == text[3] as u8);
    assert(bytes_of(text)[4] == text[4] as u8);
    assert(bytes_of(text)[5] == text[5] as u8);
    assert(bytes_of(text)[6] == text[6] as u8);
    assert(bytes_of(text) =~= seq![0x5fu8, 0x5fu8, 0x5fu8, 0x5fu8, 0x5fu8, 0x5fu8, 0x5fu8]);
    encode_utf8_decode_utf8(text);
    assert("PROGMEM"@[0] != text[0]);
}

/// The bytes of what stands between the name of a table and its keys.
pub proof fn lemma_bytes_table_head()
    ensures
        bytes_of("] = LAYOUT(\n"@) == seq![
            0x5du8,
            0x20u8,
            0x3du8,
            0x20u8,
            0x4cu8,
            0x41u8,
            0x59u8,
            0x4fu8,
            0x55u8,
            0x54u8,
            0x28u8,
            0x0au8,
        ],
        bytes_of("LAYOUT"@) == seq![0x4cu8, 0x41u8, 0x59u8, 0x4fu8, 0x55u8, 0x54u8],
        decode_utf8(bytes_of("LAYOUT"@)) == "LAYOUT"@,
{
    reveal_strlit("] = LAYOUT(\n");
    reveal_strlit("LAYOUT");
    let text = "] = LAYOUT(\n"@;
    lemma_ascii_bytes(text);
    assert(bytes_of(text)[0] == text[0] as u8);
    assert(bytes_of(text)[1] == text[1] as u8);
    assert(bytes_of(text)[2] == text[2] as u8);
    assert(bytes_of(text)[3] == text[3] as u8);
    assert(bytes_of(text)[4] == text[4] as u8);
    assert(bytes_of(text)[5] == text[5] as u8);
    assert(bytes_of(text)[6] == text[6] as u8);
    assert(bytes_of(text)[7] == text[7] as u8);
    assert(bytes_of(text)[8] == text[8] as u8);
    assert(bytes_of(text)[9] == text[9] as u8);
    assert(bytes_of(text)[10] == text[10] as u8);
    assert(bytes_of(text)[11] == text[11] as u8);
    assert(bytes_of(text) =~= seq![
        0x5du8,
        0x20u8,
        0x3du8,
        0x20u8,
        0x4cu8,
        0x41u8,
        0x59u8,
        0x4fu8,
        0x55u8,
        0x54u8,
        0x28u8,
        0x0au8,
    ]);
    let word = "LAYOUT"@;
    lemma_ascii_bytes(word);
    assert(bytes_of(word)[0] == word[0] as u8);
    assert(bytes_of(word)[1] == word[1] as u8);
    assert(bytes_of(word)[2] == word[2] as u8);
    assert(bytes_of(word)[3] == word[3] as u8);
    assert(bytes_of(word)[4] == word[4] as u8);
    assert(bytes_of(word)[5] == word[5] as u8);
    assert(bytes_of(word) =~= seq![0x4cu8, 0x41u8, 0x59u8, 0x4fu8, 0x55u8, 0x54u8]);
    encode_utf8_decode_utf8(word);
}

/// The bytes of a line start: two slashes and four spaces.
pub proof fn lemma_bytes_line_start()
    ensures
        bytes_of("//    "@) == seq![0x2fu8, 0x2fu8, 0x20u8, 0x20u8, 0x20u8, 0x20u8],
{
    reveal_strlit("//    ");
    let text = "//    "@;
    lemma_ascii_bytes(text);
    assert(bytes_of(text)[0] == text[0] as u8);
    assert(bytes_of(text)[1] == text[1] as u8);
    assert(bytes_of(text)[2] == text[2] as u8);
    assert(bytes_of(text)[3] == text[3] as u8);
    assert(bytes_of(text)[4] == text[4] as u8);
    assert(bytes_of(text)[5] == text[5] as u8);
    assert(bytes_of(text) =~= seq![0x2fu8, 0x2fu8, 0x20u8, 0x20u8, 0x20u8, 0x20u8]);
}

/// The text of a piece that stays on its line holds no line feed.
pub proof fn lemma_piece_no_line_feed(piece: Piece)
    requires
        stays_in_line(piece),
    ensures
        no_line_feed(piece.text()),
{
    reveal_strlit("╭");
    reveal_strlit("╮");
    reveal_strlit("╯");
    reveal_strlit("╰");
    reveal_strlit("─");
    reveal_strlit("│");
    reveal_strlit("┬");
    reveal_strlit("┴");
    reveal_strlit("├");
    reveal_strlit("┤");
    reveal_strlit("┼");
    reveal_strlit("//    ");
    reveal_strlit(" ");
}

/// The text of pieces that stay on one line holds no line feed.
pub proof fn lemma_in_line_text(pieces: Seq<Piece>)
    requires
        in_line(pieces),
    ensures
        no_line_feed(text_of(pieces)),
    decreases pieces.len(),
{
    if pieces.len() > 0 {
        let before = pieces.drop_last();
        assert forall|k: int| 0 <= k < before.len() implies stays_in_line(#[trigger] before[k]) by {
            assert(before[k] == pieces[k]);
        }
        lemma_in_line_text(before);
        assert(stays_in_line(pieces[pieces.len() - 1]));
        lemma_piece_no_line_feed(pieces.last());
    }
}

/// Pieces that stay on one line, behind others that do, stay on one line.
pub proof fn lemma_in_line_concat(a: Seq<Piece>, b: Seq<Piece>)
    requires
        in_line(a),
        in_line(b),
    ensures
        in_line(a + b),
{
    assert forall|k: int| 0 <= k < (a + b).len() implies stays_in_line(#[trigger] (a + b)[k]) by {
        if k < a.len() {
            assert((a + b)[k] == a[k]);
        } else {
            assert((a + b)[k] == b[k - a.len()]);
        }
    }
}

/// The line between two rows stays on one line.
pub proof fn lemma_edge_in_line(upper: Seq<Mark>, lower: Seq<Mark>, n: int, width: int)
    ensures
        in_line(edge(upper, lower, n, width)),
    decreases n,
{
    if n > 0 {
        lemma_edge_in_line(upper, lower, n - 1, width);
        lemma_in_line_concat(edge(upper, lower, n - 1, width), edge_cell(upper, lower, n - 1, width));
    }
}

/// A row of keys without a line feed stays on one line.
pub proof fn lemma_key_row_in_line(
    row: Seq<Mark>,
    n: int,
    keys: Seq<Seq<char>>,
    base: int,
    width: int,
)
    requires
        0 <= base,
        n <= columns(row),
        base + keys_in(row, row.len() as int) <= keys.len(),
        forall|k: int| 0 <= k < keys.len() ==> no_line_feed(#[trigger] keys[k]),
    ensures
        in_line(key_row(row, n, keys, base, width)),
    decreases n,
{
    if n > 0 {
        lemma_key_row_in_line(row, n - 1, keys, base, width);
        let index = base + keys_in(row, n - 1);
        lemma_keys_in_grows(row, 0, n - 1);
        if occupied(row, n - 1) {
            lemma_keys_in_grows(row, n, row.len() as int);
            assert(no_line_feed(keys[index]));
        }
        lemma_in_line_concat(
            key_row(row, n - 1, keys, base, width),
            key_cell(row, n - 1, keys, index, width),
        );
    }
}

} // verus!
