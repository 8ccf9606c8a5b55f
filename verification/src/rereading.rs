//! Reading rendered text back: which tokens the lexer reads from the texts
//! of rendered pieces, and what the parser makes of them.

use crate::ast::KeyTable;
use crate::formatter::{
    columns, diagram, diagram_row, diagram_rows, edge, key_list, key_row, keys_before, keys_in,
    lemma_keys_before_grows, lemma_keys_in_grows, list_cell, list_row, list_rows, max_width,
    occupied, occupied_count, padding, repeat, row_of, shown, text_of, Mark, Piece,
};
use crate::lexer::{all_underscores, byte_text, is_space, is_word_byte, tokens_of, Token};
use crate::lexing_laws::{
    has_at, lemma_comment_lexeme, lemma_has_at_byte, lemma_has_at_concat, lemma_read,
    lemma_ready_skip, lemma_word_lexeme, ready, spells,
};
use crate::parser::{block_body, closing_paren, compound_key, joined_text, parse_keys, peek};
use crate::rendering_laws::{
    blank_run, in_line, is_call, is_call_char, is_name, is_steady_key, is_word_char,
    is_word_name, lemma_ascii_sub, lemma_bytes_blank, lemma_bytes_comma, lemma_bytes_line_feed,
    lemma_bytes_line_start, lemma_bytes_space, lemma_call_bytes, lemma_edge_in_line,
    lemma_in_line_text, lemma_key_row_in_line, lemma_name_bytes, lemma_no_line_feed_bytes,
    lemma_text_of_concat, lemma_text_of_one, lemma_text_of_push, lemma_word_stop, no_line_feed,
    steady_keys, word_stop,
};
use crate::text::{byte_len, bytes_of, lemma_bytes_of_concat, text_between};
use vstd::prelude::*;
use vstd::utf8::*;

verus! {

/// The pieces stand, as text, in `src` at the place `p`.
pub open spec fn shows(src: Seq<u8>, p: int, pieces: Seq<Piece>) -> bool {
    spells(src, p, text_of(pieces))
}

/// The number of bytes that the text of the pieces takes.
pub open spec fn width_of(pieces: Seq<Piece>) -> int {
    byte_len(text_of(pieces)) as int
}

/// Two texts stand one behind the other where the two together stand.
pub proof fn lemma_spells_concat(src: Seq<u8>, p: int, a: Seq<char>, b: Seq<char>)
    ensures
        spells(src, p, a + b) <==> spells(src, p, a) && spells(src, p + byte_len(a), b),
        byte_len(a + b) == byte_len(a) + byte_len(b),
{
    lemma_bytes_of_concat(a, b);
    lemma_has_at_concat(src, p, bytes_of(a), bytes_of(b));
}

/// Pieces stand one run behind the other where the two runs together stand.
pub proof fn lemma_shows_concat(src: Seq<u8>, p: int, a: Seq<Piece>, b: Seq<Piece>)
    ensures
        shows(src, p, a + b) <==> shows(src, p, a) && shows(src, p + width_of(a), b),
        width_of(a + b) == width_of(a) + width_of(b),
{
    lemma_text_of_concat(a, b);
    lemma_spells_concat(src, p, text_of(a), text_of(b));
}

/// Pieces with one more stand where the pieces stand and the text of the
/// one behind them.
pub proof fn lemma_shows_push(src: Seq<u8>, p: int, pieces: Seq<Piece>, piece: Piece)
    ensures
        shows(src, p, pieces.push(piece)) <==> shows(src, p, pieces) && spells(
            src,
            p + width_of(pieces),
            piece.text(),
        ),
        width_of(pieces.push(piece)) == width_of(pieces) + byte_len(piece.text()),
{
    lemma_text_of_push(pieces, piece);
    lemma_spells_concat(src, p, text_of(pieces), piece.text());
}

/// One piece stands where its text stands.
pub proof fn lemma_shows_one(src: Seq<u8>, p: int, piece: Piece)
    ensures
        shows(src, p, seq![piece]) <==> spells(src, p, piece.text()),
        width_of(seq![piece]) == byte_len(piece.text()),
{
    lemma_text_of_one(piece);
}

/// No pieces take no room.
pub proof fn lemma_shows_none()
    ensures
        width_of(Seq::<Piece>::empty()) == 0,
{
    assert(text_of(Seq::<Piece>::empty()) =~= Seq::<char>::empty());
    assert(bytes_of(Seq::<char>::empty()) =~= Seq::<u8>::empty());
}

/// Spaces take one byte each.
pub proof fn lemma_spaces_width(n: int)
    ensures
        width_of(repeat(Piece::Space, n)) == (if n > 0 {
            n
        } else {
            0
        }),
    decreases n,
{
    if n > 0 {
        lemma_spaces_width(n - 1);
        assert(repeat(Piece::Space, n) =~= repeat(Piece::Space, n - 1).push(Piece::Space));
        lemma_text_of_push(repeat(Piece::Space, n - 1), Piece::Space);
        lemma_bytes_of_concat(text_of(repeat(Piece::Space, n - 1)), " "@);
        lemma_bytes_space();
    } else {
        assert(repeat(Piece::Space, n) =~= Seq::<Piece>::empty());
        lemma_shows_none();
    }
}

/// Where spaces stand, the source holds spaces.
pub proof fn lemma_show_spaces(src: Seq<u8>, p: int, n: int)
    requires
        shows(src, p, repeat(Piece::Space, n)),
    ensures
        forall|j: int| p <= j < p + n ==> #[trigger] src[j] == 0x20,
        n > 0 ==> p + n <= src.len(),
    decreases n,
{
    if n > 0 {
        let before = repeat(Piece::Space, n - 1);
        assert(repeat(Piece::Space, n) =~= before.push(Piece::Space));
        lemma_shows_push(src, p, before, Piece::Space);
        lemma_spaces_width(n - 1);
        lemma_show_spaces(src, p, n - 1);
        lemma_bytes_space();
        lemma_has_at_byte(src, p + n - 1, bytes_of(" "@), 0);
    }
}

/// The lexer reads a name that stands before it, and is followed neither
/// by a byte of an identifier nor by a slash, as the identifier of that
/// name.
pub proof fn lemma_read_name(src: Seq<u8>, n: int, p: int, text: Seq<char>)
    requires
        ready(src, n, p),
        is_name(text),
        spells(src, p, text),
        p + text.len() < src.len() ==> !is_word_byte(src[p + text.len()]) && src[p + text.len()]
            != 0x2f,
    ensures
        byte_len(text) == text.len(),
        n < tokens_of(src).len(),
        tokens_of(src)[n] == Token::Ident(p, text),
        ready(src, n + 1, p + text.len()),
{
    lemma_name_bytes(text);
    let end = p + text.len();
    if is_word_name(text) {
        assert forall|j: int| p <= j < end implies is_word_byte(#[trigger] src[j]) by {
            lemma_has_at_byte(src, p, bytes_of(text), j - p);
        }
        lemma_word_lexeme(src, p, end);
        assert(is_word_byte(src[p]));
        lemma_read(src, n, p);
        assert(src.subrange(p, end) == bytes_of(text));
        assert(text_between(src, p, end) == text);
        let i = choose|i: int| 0 <= i < text.len() && #[trigger] bytes_of(text)[i] != 0x5f;
        lemma_has_at_byte(src, p, bytes_of(text), i);
        assert(src[p + i] != 0x5f);
        assert(!all_underscores(src, p, end));
    } else {
        lemma_has_at_byte(src, p, bytes_of(text), 0);
        let c = text[0];
        assert(src[p] == c as u8);
        lemma_read(src, n, p);
        assert(byte_text(src[p]) =~= text) by {
            assert(src[p] as char == c);
        }
    }
}

/// The lexer reads seven underscores that stand before it, and are not
/// followed by a byte of an identifier, as a blank.
pub proof fn lemma_read_blank(src: Seq<u8>, n: int, p: int)
    requires
        ready(src, n, p),
        spells(src, p, "_______"@),
        p + 7 < src.len() ==> !is_word_byte(src[p + 7]),
    ensures
        byte_len("_______"@) == 7,
        n < tokens_of(src).len(),
        tokens_of(src)[n] == Token::Blank(p),
        ready(src, n + 1, p + 7),
{
    lemma_bytes_blank();
    let text = "_______"@;
    let end = p + 7;
    assert forall|j: int| p <= j < end implies #[trigger] src[j] == 0x5f by {
        lemma_has_at_byte(src, p, bytes_of(text), j - p);
    }
    assert forall|j: int| p <= j < end implies is_word_byte(#[trigger] src[j]) by {
        assert(src[j] == 0x5f);
    }
    lemma_word_lexeme(src, p, end);
    assert(is_word_byte(src[p]));
    lemma_read(src, n, p);
    assert(src.subrange(p, end) == bytes_of(text));
    assert(text_between(src, p, end) == text);
    assert(all_underscores(src, p, end));
}

/// The texts of tokens, one behind the other, start with the text of the
/// first.
pub proof fn lemma_joined_front(toks: Seq<Token>, a: int, b: int)
    requires
        a < b,
    ensures
        joined_text(toks, a, b) == peek(toks, a).text() + joined_text(toks, a + 1, b),
    decreases b - a,
{
    if a + 1 < b {
        lemma_joined_front(toks, a, b - 1);
        assert(joined_text(toks, a, b) =~= peek(toks, a).text() + joined_text(toks, a + 1, b));
    } else {
        assert(joined_text(toks, a, a) =~= Seq::<char>::empty());
        assert(joined_text(toks, a + 1, b) =~= Seq::<char>::empty());
        assert(joined_text(toks, a, b) =~= peek(toks, a).text() + joined_text(toks, a + 1, b));
    }
}

/// The lexer reads a character of a call that is none of an identifier as
/// the token of that character.
pub proof fn lemma_read_mark(src: Seq<u8>, m: int, p: int, key: Seq<char>, k: int, i: int)
    requires
        is_call(key, k),
        spells(src, p, key),
        ready(src, m, p + i),
        k <= i < key.len(),
        !is_word_char(key[i]),
    ensures
        m < tokens_of(src).len(),
        tokens_of(src)[m].text() == key.subrange(i, i + 1),
        ready(src, m + 1, p + i + 1),
        tokens_of(src)[m] is RParen <==> key[i] == ')',
        tokens_of(src)[m] is LParen <==> key[i] == '(',
        !(tokens_of(src)[m] is EOF),
{
    lemma_call_bytes(key, k);
    lemma_has_at_byte(src, p, bytes_of(key), i);
    let c = key[i];
    assert(c == '(' || c == ')' || is_call_char(c)) by {
        if i == k {
        } else if i == key.len() - 1 {
        } else {
            assert(is_call_char(key[i]));
        }
    }
    assert(src[p + i] == c as u8);
    if i + 1 < key.len() {
        lemma_has_at_byte(src, p, bytes_of(key), i + 1);
        if k < i {
            assert(is_call_char(key[i]));
            assert(!(key[i] == '/' && key[i + 1] == '/'));
        }
    }
    lemma_read(src, m, p + i);
    reveal_strlit("(");
    reveal_strlit(")");
    reveal_strlit(",");
    reveal_strlit("[");
    reveal_strlit("]");
    reveal_strlit("{");
    reveal_strlit("}");
    reveal_strlit("=");
    let one = key.subrange(i, i + 1);
    assert(one.len() == 1 && one[0] == c);
    if c == '(' {
        assert("("@ =~= one);
    } else if c == ')' {
        assert(")"@ =~= one);
    } else if c == ',' {
        assert(","@ =~= one);
    } else if c == '[' {
        assert("["@ =~= one);
    } else if c == ']' {
        assert("]"@ =~= one);
    } else if c == '{' {
        assert("{"@ =~= one);
    } else if c == '}' {
        assert("}"@ =~= one);
    } else if c == '=' {
        assert("="@ =~= one);
    } else {
        assert(src[p + i] as char == c);
        assert(byte_text(src[p + i]) =~= one);
    }
}

/// The lexer reads a word inside a call as a token of the text of that
/// word.
pub proof fn lemma_read_word(src: Seq<u8>, m: int, p: int, key: Seq<char>, k: int, i: int, j: int)
    requires
        is_call(key, k),
        spells(src, p, key),
        ready(src, m, p + i),
        k < i < j < key.len(),
        forall|x: int| i <= x < j ==> is_word_char(#[trigger] key[x]),
        !is_word_char(key[i - 1]),
        !is_word_char(key[j]),
    ensures
        m < tokens_of(src).len(),
        !(tokens_of(src)[m] is RParen),
        tokens_of(src)[m].text() == key.subrange(i, j),
        ready(src, m + 1, p + j),
{
    lemma_call_bytes(key, k);
    let from = p + i;
    let to = p + j;
    assert forall|y: int| from <= y < to implies is_word_byte(#[trigger] src[y]) by {
        lemma_has_at_byte(src, p, bytes_of(key), y - p);
        assert(is_word_char(key[y - p]));
    }
    lemma_has_at_byte(src, p, bytes_of(key), j);
    assert(!is_word_byte(src[to])) by {
        if j < key.len() - 1 {
            assert(is_call_char(key[j]));
        }
    }
    lemma_word_lexeme(src, from, to);
    assert(is_word_byte(src[from]));
    lemma_read(src, m, from);
    lemma_ascii_sub(key, i, j);
    assert(src.subrange(from, to) =~= bytes_of(key).subrange(i, j)) by {
        assert forall|x: int| 0 <= x < j - i implies src.subrange(from, to)[x] == bytes_of(
            key,
        ).subrange(i, j)[x] by {
            lemma_has_at_byte(src, p, bytes_of(key), i + x);
        }
    }
    let word = key.subrange(i, j);
    assert(text_between(src, from, to) == word);
    if all_underscores(src, from, to) {
        assert forall|x: int| i <= x < j implies #[trigger] key[x] == '_' by {
            lemma_has_at_byte(src, p, bytes_of(key), x);
            assert(src[p + x] == 0x5f);
            assert(is_word_char(key[x]));
        }
        assert(blank_run(key, i, j));
        reveal_strlit("_______");
        assert(word =~= "_______"@);
    }
}

/// The lexer reads the rest of a call, from a place where a token starts,
/// as tokens with the texts of that rest; the last of them is the closing
/// parenthesis, and the first such.
pub proof fn lemma_read_call_tail(
    src: Seq<u8>,
    m: int,
    p: int,
    key: Seq<char>,
    k: int,
    i: int,
) -> (close: int)
    requires
        0 <= m,
        is_call(key, k),
        spells(src, p, key),
        ready(src, m, p + i),
        k < i < key.len(),
        !is_word_char(key[i - 1]) || !is_word_char(key[i]),
    ensures
        m <= close < tokens_of(src).len(),
        tokens_of(src)[close] is RParen,
        closing_paren(tokens_of(src), m) == close,
        joined_text(tokens_of(src), m, close + 1) == key.subrange(i, key.len() as int),
        ready(src, close + 1, p + key.len()),
    decreases key.len() - i,
{
    let toks = tokens_of(src);
    let end = key.len() as int;
    if !is_word_char(key[i]) {
        lemma_read_mark(src, m, p, key, k, i);
        if i == end - 1 {
            lemma_joined_front(toks, m, m + 1);
            assert(joined_text(toks, m + 1, m + 1) =~= Seq::<char>::empty());
            assert(joined_text(toks, m, m + 1) =~= key.subrange(i, end));
            m
        } else {
            assert(is_call_char(key[i]));
            let close = lemma_read_call_tail(src, m + 1, p, key, k, i + 1);
            lemma_joined_front(toks, m, close + 1);
            assert(key.subrange(i, i + 1) + key.subrange(i + 1, end) =~= key.subrange(i, end));
            close
        }
    } else {
        lemma_word_stop(key, i);
        let j = word_stop(key, i);
        assert(j < end) by {
            if j >= end {
                assert(is_word_char(key[end - 1]));
            }
        }
        lemma_read_word(src, m, p, key, k, i, j);
        let close = lemma_read_call_tail(src, m + 1, p, key, k, j);
        lemma_joined_front(toks, m, close + 1);
        assert(key.subrange(i, j) + key.subrange(j, end) =~= key.subrange(i, end));
        close
    }
}

/// The lexer and the parser read a call that stands before them as one
/// key: the call as it stands.
pub proof fn lemma_read_call(src: Seq<u8>, n: int, p: int, key: Seq<char>, k: int) -> (close: int)
    requires
        0 <= n,
        ready(src, n, p),
        is_call(key, k),
        spells(src, p, key),
    ensures
        n + 2 <= close < tokens_of(src).len(),
        tokens_of(src)[n] is Ident,
        tokens_of(src)[n + 1] is LParen,
        compound_key(tokens_of(src), n) == (Some(key), close),
        ready(src, close + 1, p + key.len()),
        byte_len(key) == key.len(),
{
    let toks = tokens_of(src);
    let end = key.len() as int;
    let name = key.subrange(0, k);
    lemma_call_bytes(key, k);
    lemma_ascii_sub(key, 0, k);
    assert(has_at(src, p, bytes_of(name))) by {
        assert forall|x: int| 0 <= x < k implies src.subrange(p, p + k)[x] == bytes_of(
            key,
        ).subrange(0, k)[x] by {
            lemma_has_at_byte(src, p, bytes_of(key), x);
        }
        assert(src.subrange(p, p + k) =~= bytes_of(key).subrange(0, k));
    }
    lemma_has_at_byte(src, p, bytes_of(key), k);
    lemma_read_name(src, n, p, name);
    lemma_read_mark(src, n + 1, p, key, k, k);
    let close = lemma_read_call_tail(src, n + 2, p, key, k, k + 1);
    assert(closing_paren(toks, n + 1) == close);
    lemma_joined_front(toks, n, close + 1);
    lemma_joined_front(toks, n + 1, close + 1);
    assert(name + (key.subrange(k, k + 1) + key.subrange(k + 1, end)) =~= key);
    close
}

/// The keys that stand on after a cell: those before it, and the key of
/// the cell where it holds one.
pub open spec fn with_key(
    acc: Seq<Seq<char>>,
    row: Seq<Mark>,
    j: int,
    keys: Seq<Seq<char>>,
    index: int,
) -> Seq<Seq<char>> {
    if occupied(row, j) {
        acc.push(keys[index])
    } else {
        acc
    }
}

/// The lexer and the parser read a cell of the key list as its key, and
/// read nothing from a cell without a key. Returned is the place of the
/// token that follows the cell. After a key that is an identifier and the
/// last of all, the parser has to see that this token opens no call.
pub proof fn lemma_list_cell_read(
    src: Seq<u8>,
    n: int,
    p: int,
    row: Seq<Mark>,
    j: int,
    keys: Seq<Seq<char>>,
    index: int,
    width: int,
    acc: Seq<Seq<char>>,
) -> (next: int)
    requires
        0 <= n,
        ready(src, n, p),
        shows(src, p, list_cell(row, j, keys, index, width)),
        occupied(row, j) ==> 0 <= index < keys.len() && is_steady_key(keys[index]),
    ensures
        n <= next,
        ready(src, next, p + width_of(list_cell(row, j, keys, index, width))),
        next > n ==> !(peek(tokens_of(src), n) is LParen),
        !(peek(tokens_of(src), next) is LParen) ==> parse_keys(tokens_of(src), n, acc)
            == parse_keys(tokens_of(src), next, with_key(acc, row, j, keys, index)),
{
    let part = list_cell(row, j, keys, index, width);
    let toks = tokens_of(src);
    lemma_bytes_space();
    lemma_bytes_comma();
    lemma_bytes_blank();
    let lead = seq![Piece::Space];
    let comma = occupied(row, j) && index + 1 < keys.len();
    let sep = if comma {
        Piece::Key(","@)
    } else {
        Piece::Space
    };
    let close = seq![Piece::Space].push(sep);
    lemma_shows_one(src, p, Piece::Space);
    if occupied(row, j) {
        let key = keys[index];
        let s = shown(key);
        let used = byte_len(s) as int;
        let pad = padding(used, width);
        let middle = seq![Piece::Key(s)] + pad;
        assert(part =~= (lead + middle) + close);
        lemma_shows_concat(src, p, lead + middle, close);
        lemma_shows_concat(src, p, lead, middle);
        let q0 = p + 1;
        lemma_shows_concat(src, q0, seq![Piece::Key(s)], pad);
        lemma_shows_one(src, q0, Piece::Key(s));
        let q1 = q0 + used;
        lemma_show_spaces(src, q1, width - used);
        lemma_spaces_width(width - used);
        let q2 = q1 + width_of(pad);
        lemma_shows_push(src, q2, seq![Piece::Space], sep);
        lemma_shows_one(src, q2, Piece::Space);
        lemma_has_at_byte(src, p, bytes_of(" "@), 0);
        lemma_has_at_byte(src, q2, bytes_of(" "@), 0);
        lemma_ready_skip(src, n, p, q0);
        assert(src[q1] == 0x20);
        let more = acc.push(key);
        let after: int;
        if key.len() == 0 {
            lemma_read_blank(src, n, q0);
            assert(key =~= Seq::<char>::empty());
            after = n + 1;
            assert(parse_keys(toks, n, acc) == parse_keys(toks, after, more));
        } else if is_name(key) {
            lemma_name_bytes(key);
            lemma_read_name(src, n, q0, key);
            after = n + 1;
            assert(!(peek(toks, after) is LParen) ==> parse_keys(toks, n, acc) == parse_keys(
                toks,
                after,
                more,
            ));
        } else {
            let k = choose|k: int| is_call(key, k);
            let last = lemma_read_call(src, n, q0, key, k);
            after = last + 1;
            assert(peek(toks, n + 1) is LParen);
            assert(parse_keys(toks, n, acc) == parse_keys(toks, after, more));
        }
        assert(ready(src, after, q1));
        assert forall|i: int| q1 <= i < q2 + 1 implies is_space(#[trigger] src[i]) by {
            if i < q2 {
                assert(src[i] == 0x20);
            }
        }
        lemma_ready_skip(src, after, q1, q2 + 1);
        if comma {
            lemma_has_at_byte(src, q2 + 1, bytes_of(","@), 0);
            lemma_read(src, after, q2 + 1);
            assert(toks[after] is Comma);
            assert(parse_keys(toks, after, more) == parse_keys(toks, after + 1, more));
            after + 1
        } else {
            lemma_has_at_byte(src, q2 + 1, bytes_of(" "@), 0);
            lemma_ready_skip(src, after, q2 + 1, q2 + 2);
            after
        }
    } else {
        let pad = padding(0, width);
        assert(part =~= (lead + pad) + close);
        lemma_shows_concat(src, p, lead + pad, close);
        lemma_shows_concat(src, p, lead, pad);
        let q1 = p + 1;
        lemma_show_spaces(src, q1, width);
        lemma_spaces_width(width);
        let q2 = q1 + width_of(pad);
        lemma_shows_push(src, q2, seq![Piece::Space], sep);
        lemma_shows_one(src, q2, Piece::Space);
        lemma_has_at_byte(src, p, bytes_of(" "@), 0);
        lemma_has_at_byte(src, q2, bytes_of(" "@), 0);
        lemma_has_at_byte(src, q2 + 1, bytes_of(" "@), 0);
        assert forall|i: int| p <= i < q2 + 2 implies is_space(#[trigger] src[i]) by {
            if q1 <= i < q2 {
                assert(src[i] == 0x20);
            }
        }
        lemma_ready_skip(src, n, p, q2 + 2);
        n
    }
}

/// The lexer and the parser read the first cells of a row of the key list
/// as their keys. Returned is the place of the token that follows them.
pub proof fn lemma_list_row_read(
    src: Seq<u8>,
    n: int,
    p: int,
    row: Seq<Mark>,
    m: int,
    keys: Seq<Seq<char>>,
    base: int,
    width: int,
    acc: Seq<Seq<char>>,
) -> (next: int)
    requires
        0 <= n,
        ready(src, n, p),
        shows(src, p, list_row(row, m, keys, base, width)),
        m <= columns(row),
        0 <= base,
        base + keys_in(row, row.len() as int) <= keys.len(),
        steady_keys(keys),
    ensures
        n <= next,
        ready(src, next, p + width_of(list_row(row, m, keys, base, width))),
        next > n ==> !(peek(tokens_of(src), n) is LParen),
        !(peek(tokens_of(src), next) is LParen) ==> parse_keys(tokens_of(src), n, acc)
            == parse_keys(
            tokens_of(src),
            next,
            acc + keys.subrange(base, base + keys_in(row, m)),
        ),
    decreases m,
{
    let toks = tokens_of(src);
    if m > 0 {
        let before = list_row(row, m - 1, keys, base, width);
        let index = base + keys_in(row, m - 1);
        let cell = list_cell(row, m - 1, keys, index, width);
        lemma_shows_concat(src, p, before, cell);
        let n1 = lemma_list_row_read(src, n, p, row, m - 1, keys, base, width, acc);
        lemma_keys_in_grows(row, 0, m - 1);
        lemma_keys_in_grows(row, m - 1, row.len() as int);
        if occupied(row, m - 1) {
            lemma_keys_in_grows(row, m, row.len() as int);
            assert(is_steady_key(keys[index]));
        }
        let acc1 = acc + keys.subrange(base, index);
        let next = lemma_list_cell_read(
            src,
            n1,
            p + width_of(before),
            row,
            m - 1,
            keys,
            index,
            width,
            acc1,
        );
        assert(with_key(acc1, row, m - 1, keys, index) =~= acc + keys.subrange(
            base,
            base + keys_in(row, m),
        ));
        next
    } else {
        lemma_shows_none();
        assert(list_row(row, m, keys, base, width) =~= Seq::<Piece>::empty());
        lemma_keys_in_grows(row, 0, row.len() as int);
        assert(acc + keys.subrange(base, base + keys_in(row, m)) =~= acc);
        n
    }
}

/// The lexer and the parser read the first rows of the key list as their
/// keys. Returned is the place of the token that follows them.
pub proof fn lemma_list_rows_read(
    src: Seq<u8>,
    n: int,
    p: int,
    grid: Seq<Seq<Mark>>,
    m: int,
    keys: Seq<Seq<char>>,
    width: int,
) -> (next: int)
    requires
        0 <= n,
        ready(src, n, p),
        shows(src, p, list_rows(grid, m, keys, width)),
        m <= grid.len(),
        keys.len() == occupied_count(grid),
        steady_keys(keys),
    ensures
        n <= next,
        ready(src, next, p + width_of(list_rows(grid, m, keys, width))),
        next > n ==> !(peek(tokens_of(src), n) is LParen),
        0 <= keys_before(grid, m) <= keys.len(),
        !(peek(tokens_of(src), next) is LParen) ==> parse_keys(tokens_of(src), n, Seq::empty())
            == parse_keys(tokens_of(src), next, keys.subrange(0, keys_before(grid, m))),
    decreases m,
{
    let toks = tokens_of(src);
    if m > 0 {
        let before = list_rows(grid, m - 1, keys, width);
        let row = row_of(grid, m - 1);
        let base = keys_before(grid, m - 1);
        let cells = list_row(row, columns(row), keys, base, width);
        assert(list_rows(grid, m, keys, width) =~= (before + cells).push(Piece::Newline));
        lemma_shows_push(src, p, before + cells, Piece::Newline);
        lemma_shows_concat(src, p, before, cells);
        let n1 = lemma_list_rows_read(src, n, p, grid, m - 1, keys, width);
        lemma_keys_before_grows(grid, 0, m - 1);
        lemma_keys_before_grows(grid, m, grid.len() as int);
        lemma_keys_in_grows(row, 0, row.len() as int);
        let p1 = p + width_of(before);
        let acc1 = keys.subrange(0, base);
        let next = lemma_list_row_read(src, n1, p1, row, columns(row), keys, base, width, acc1);
        assert(keys_in(row, columns(row)) == keys_in(row, row.len() as int));
        assert(acc1 + keys.subrange(base, base + keys_in(row, columns(row))) =~= keys.subrange(
            0,
            keys_before(grid, m),
        ));
        let p2 = p1 + width_of(cells);
        lemma_bytes_line_feed();
        lemma_has_at_byte(src, p2, bytes_of("\n"@), 0);
        lemma_ready_skip(src, next, p2, p2 + 1);
        next
    } else {
        lemma_shows_none();
        assert(list_rows(grid, m, keys, width) =~= Seq::<Piece>::empty());
        assert(keys.subrange(0, keys_before(grid, m)) =~= Seq::<Seq<char>>::empty());
        n
    }
}

/// The lexer and the parser read a key list with keys that are read back
/// as they were written, and a closing parenthesis behind it, as those
/// keys. Returned is the place of the closing parenthesis among the tokens.
pub proof fn lemma_key_list_read(
    src: Seq<u8>,
    n: int,
    p: int,
    grid: Seq<Seq<Mark>>,
    keys: Seq<Seq<char>>,
) -> (close: int)
    requires
        0 <= n,
        ready(src, n, p),
        shows(src, p, key_list(grid, keys)),
        keys.len() == occupied_count(grid),
        steady_keys(keys),
        p + width_of(key_list(grid, keys)) < src.len(),
        src[p + width_of(key_list(grid, keys))] == 0x29,
    ensures
        n <= close,
        parse_keys(tokens_of(src), n, Seq::empty()) == (Some(keys), close),
        ready(src, close + 1, p + width_of(key_list(grid, keys)) + 1),
        peek(tokens_of(src), close) is RParen,
{
    let toks = tokens_of(src);
    let width = max_width(keys) as int;
    let close = lemma_list_rows_read(src, n, p, grid, grid.len() as int, keys, width);
    let end = p + width_of(key_list(grid, keys));
    lemma_read(src, close, end);
    assert(peek(toks, close) is RParen);
    assert(keys.subrange(0, keys.len() as int) =~= keys);
    close
}

/// Keys that are read back as they were written hold no line feed.
pub proof fn lemma_steady_keys_in_line(keys: Seq<Seq<char>>)
    requires
        steady_keys(keys),
    ensures
        forall|k: int| 0 <= k < keys.len() ==> no_line_feed(#[trigger] keys[k]),
{
    assert forall|k: int| 0 <= k < keys.len() implies no_line_feed(#[trigger] keys[k]) by {
        assert(is_steady_key(keys[k]));
        if keys[k].len() == 0 {
        } else if is_name(keys[k]) {
            lemma_name_bytes(keys[k]);
        } else {
            let n = choose|n: int| is_call(keys[k], n);
            lemma_call_bytes(keys[k], n);
        }
    }
}

/// The lexer reads a line of the diagram, with a line feed behind it, as
/// one comment.
pub proof fn lemma_comment_line_read(src: Seq<u8>, n: int, p: int, content: Seq<Piece>)
    requires
        ready(src, n, p),
        shows(src, p, seq![Piece::LineStart] + content),
        in_line(content),
        p + width_of(seq![Piece::LineStart] + content) < src.len(),
        src[p + width_of(seq![Piece::LineStart] + content)] == 0x0a,
    ensures
        n < tokens_of(src).len(),
        tokens_of(src)[n] is Comment,
        ready(src, n + 1, p + width_of(seq![Piece::LineStart] + content) + 1),
{
    let start = seq![Piece::LineStart];
    let end = p + width_of(start + content);
    lemma_shows_concat(src, p, start, content);
    lemma_shows_one(src, p, Piece::LineStart);
    lemma_bytes_line_start();
    let lead = bytes_of("//    "@);
    lemma_has_at_byte(src, p, lead, 0);
    lemma_has_at_byte(src, p, lead, 1);
    lemma_in_line_text(content);
    lemma_no_line_feed_bytes(text_of(content));
    assert forall|j: int| p <= j < end implies #[trigger] src[j] != 0x0a by {
        if j < p + 6 {
            lemma_has_at_byte(src, p, lead, j - p);
        } else {
            lemma_has_at_byte(src, p + 6, bytes_of(text_of(content)), j - (p + 6));
        }
    }
    lemma_comment_lexeme(src, p, end);
    lemma_read(src, n, p);
    lemma_ready_skip(src, n + 1, end, end + 1);
}

/// The parser, inside the block, steps over a token that is neither a
/// closing brace nor an opening bracket.
pub proof fn lemma_body_steps(toks: Seq<Token>, c: int, acc: Seq<KeyTable>)
    requires
        0 <= c,
        c + 1 < toks.len(),
        !(toks[c + 1] is RBrace),
        !(toks[c + 1] is LSqBrace),
    ensures
        block_body(toks, c, acc) == block_body(toks, c + 1, acc),
{
}

/// The number of lines that the first `n` rows of the diagram take: one
/// for the keys of each row, and one for the line under each row but the
/// last.
pub open spec fn row_lines(grid: Seq<Seq<Mark>>, n: int) -> int
    decreases n,
{
    if n <= 0 {
        0
    } else {
        row_lines(grid, n - 1) + if n < grid.len() {
            2int
        } else {
            1int
        }
    }
}

/// The parser, inside the block, steps over the first rows of a diagram.
pub proof fn lemma_diagram_rows_read(
    src: Seq<u8>,
    c: int,
    p: int,
    grid: Seq<Seq<Mark>>,
    m: int,
    keys: Seq<Seq<char>>,
    width: int,
    acc: Seq<KeyTable>,
)
    requires
        0 <= c,
        ready(src, c + 1, p),
        shows(src, p, diagram_rows(grid, m, keys, width)),
        m <= grid.len(),
        keys.len() == occupied_count(grid),
        steady_keys(keys),
    ensures
        0 <= row_lines(grid, m),
        block_body(tokens_of(src), c, acc) == block_body(
            tokens_of(src),
            c + row_lines(grid, m),
            acc,
        ),
        ready(src, c + row_lines(grid, m) + 1, p + width_of(diagram_rows(grid, m, keys, width))),
    decreases m,
{
    let toks = tokens_of(src);
    if m > 0 {
        let before = diagram_rows(grid, m - 1, keys, width);
        let row = row_of(grid, m - 1);
        let base = keys_before(grid, m - 1);
        let cells = key_row(row, columns(row), keys, base, width);
        let line = seq![Piece::LineStart] + cells;
        let under = seq![Piece::LineStart] + edge(row, row_of(grid, m), columns(row), width);
        let tail = if m < grid.len() {
            under.push(Piece::Newline)
        } else {
            Seq::<Piece>::empty()
        };
        let this = line.push(Piece::Newline) + tail;
        assert(diagram_row(grid, m - 1, keys, width) =~= this);
        lemma_shows_concat(src, p, before, this);
        lemma_diagram_rows_read(src, c, p, grid, m - 1, keys, width, acc);
        let c1 = c + row_lines(grid, m - 1);
        let p1 = p + width_of(before);
        lemma_shows_concat(src, p1, line.push(Piece::Newline), tail);
        lemma_shows_push(src, p1, line, Piece::Newline);
        lemma_bytes_line_feed();
        let p2 = p1 + width_of(line);
        lemma_has_at_byte(src, p2, bytes_of("\n"@), 0);
        lemma_keys_before_grows(grid, 0, m - 1);
        lemma_keys_before_grows(grid, m, grid.len() as int);
        lemma_steady_keys_in_line(keys);
        lemma_key_row_in_line(row, columns(row), keys, base, width);
        lemma_comment_line_read(src, c1 + 1, p1, cells);
        lemma_body_steps(toks, c1, acc);
        if m < grid.len() {
            let p3 = p2 + 1;
            lemma_shows_push(src, p3, under, Piece::Newline);
            let p4 = p3 + width_of(under);
            lemma_has_at_byte(src, p4, bytes_of("\n"@), 0);
            lemma_edge_in_line(row, row_of(grid, m), columns(row), width);
            lemma_comment_line_read(
                src,
                c1 + 2,
                p3,
                edge(row, row_of(grid, m), columns(row), width),
            );
            lemma_body_steps(toks, c1 + 1, acc);
        } else {
            lemma_shows_none();
        }
    } else {
        lemma_shows_none();
        assert(diagram_rows(grid, m, keys, width) =~= Seq::<Piece>::empty());
    }
}

/// The number of lines of a diagram: the top line, the lines of the rows,
/// and the bottom line.
pub open spec fn diagram_lines(grid: Seq<Seq<Mark>>) -> int {
    row_lines(grid, grid.len() as int) + 2
}

/// The parser, inside the block, steps over a diagram with a line feed
/// behind it.
pub proof fn lemma_diagram_read(
    src: Seq<u8>,
    c: int,
    p: int,
    grid: Seq<Seq<Mark>>,
    keys: Seq<Seq<char>>,
    acc: Seq<KeyTable>,
)
    requires
        0 <= c,
        ready(src, c + 1, p),
        shows(src, p, diagram(grid, keys)),
        keys.len() == occupied_count(grid),
        steady_keys(keys),
        p + width_of(diagram(grid, keys)) < src.len(),
        src[p + width_of(diagram(grid, keys))] == 0x0a,
    ensures
        2 <= diagram_lines(grid),
        block_body(tokens_of(src), c, acc) == block_body(
            tokens_of(src),
            c + diagram_lines(grid),
            acc,
        ),
        ready(src, c + diagram_lines(grid) + 1, p + width_of(diagram(grid, keys)) + 1),
{
    let toks = tokens_of(src);
    let width = max_width(keys) as int;
    let first = row_of(grid, 0);
    let last = row_of(grid, grid.len() - 1);
    let top = edge(Seq::empty(), first, columns(first), width);
    let bottom = edge(last, Seq::empty(), columns(last), width);
    let rows = diagram_rows(grid, grid.len() as int, keys, width);
    let head = seq![Piece::LineStart] + top;
    let foot = seq![Piece::LineStart] + bottom;
    assert(diagram(grid, keys) =~= (head.push(Piece::Newline) + rows) + foot);
    lemma_shows_concat(src, p, head.push(Piece::Newline) + rows, foot);
    lemma_shows_concat(src, p, head.push(Piece::Newline), rows);
    lemma_shows_push(src, p, head, Piece::Newline);
    lemma_bytes_line_feed();
    let p1 = p + width_of(head);
    lemma_has_at_byte(src, p1, bytes_of("\n"@), 0);
    lemma_edge_in_line(Seq::empty(), first, columns(first), width);
    lemma_comment_line_read(src, c + 1, p, top);
    lemma_body_steps(toks, c, acc);
    let p2 = p1 + 1;
    lemma_diagram_rows_read(src, c + 1, p2, grid, grid.len() as int, keys, width, acc);
    let c2 = c + 1 + row_lines(grid, grid.len() as int);
    let p3 = p2 + width_of(rows);
    lemma_edge_in_line(last, Seq::empty(), columns(last), width);
    lemma_comment_line_read(src, c2 + 1, p3, bottom);
    lemma_body_steps(toks, c2, acc);
}

} // verus!
