//! What the lexer does on a text that is known piece by piece: where it
//! stands after a number of tokens, which token it reads at a place whose
//! bytes are known, and that it reads the same tokens from two texts as far
//! as the two agree.

use crate::lexer::{
    all_underscores, comment_starts, is_space, is_word_byte, lemma_line_end, lemma_skip_spaces,
    lemma_token_advances, lemma_token_placed, lemma_word_end, lexeme_at, line_end, skip_spaces,
    token_at, token_end, tokens_from, tokens_of, word_end, word_token, Token,
};
use crate::parser::peek;
use crate::text::{bytes_of, text_between};
use vstd::prelude::*;
use vstd::utf8::*;

verus! {

/// Where the lexer stands after `n` tokens read from `pos` on.
pub open spec fn place_from(src: Seq<u8>, pos: int, n: int) -> int
    decreases n,
{
    if n <= 0 {
        pos
    } else {
        token_end(src, place_from(src, pos, n - 1))
    }
}

/// Where the lexer stands after the first `n` tokens of the source.
pub open spec fn place(src: Seq<u8>, n: int) -> int {
    place_from(src, 0, n)
}

/// The lexer, before it reads token `n`, has only white space between
/// itself and the place `p`.
pub open spec fn ready(src: Seq<u8>, n: int, p: int) -> bool {
    &&& 0 <= n
    &&& 0 <= place(src, n) <= p <= src.len()
    &&& forall|j: int| place(src, n) <= j < p ==> is_space(#[trigger] src[j])
}

/// The bytes `part` stand in `src` at the place `p`.
pub open spec fn has_at(src: Seq<u8>, p: int, part: Seq<u8>) -> bool {
    0 <= p && p + part.len() <= src.len() && src.subrange(p, p + part.len()) == part
}

/// The text `text` stands in `src` at the place `p`.
pub open spec fn spells(src: Seq<u8>, p: int, text: Seq<char>) -> bool {
    has_at(src, p, bytes_of(text))
}

/// A token of one character that stands for itself.
pub open spec fn one_char(token: Token) -> bool {
    token is LParen || token is RParen || token is LBrace || token is RBrace || token is LSqBrace
        || token is RSqBrace || token is Comma || token is Equals
}

/// Two texts agree on their first `m` bytes.
pub open spec fn agree(x: Seq<u8>, y: Seq<u8>, m: int) -> bool {
    &&& 0 <= m <= x.len()
    &&& m <= y.len()
    &&& forall|j: int| 0 <= j < m ==> x[j] == y[j]
}

/// Bytes that stand at a place stand there one by one.
pub proof fn lemma_has_at_byte(src: Seq<u8>, p: int, part: Seq<u8>, j: int)
    requires
        has_at(src, p, part),
        0 <= j < part.len(),
    ensures
        src[p + j] == part[j],
{
    assert(src.subrange(p, p + part.len())[j] == src[p + j]);
}

/// Two runs of bytes stand one behind the other where the two together
/// stand.
pub proof fn lemma_has_at_concat(src: Seq<u8>, p: int, a: Seq<u8>, b: Seq<u8>)
    ensures
        has_at(src, p, a + b) <==> has_at(src, p, a) && has_at(src, p + a.len(), b),
{
    if has_at(src, p, a + b) {
        assert(src.subrange(p, p + a.len()) =~= (a + b).subrange(0, a.len() as int)) by {
            assert(src.subrange(p, p + a.len()) =~= src.subrange(p, p + (a + b).len()).subrange(
                0,
                a.len() as int,
            ));
        }
        assert((a + b).subrange(0, a.len() as int) =~= a);
        assert(src.subrange(p + a.len(), p + a.len() + b.len()) =~= src.subrange(
            p,
            p + (a + b).len(),
        ).subrange(a.len() as int, (a + b).len() as int));
        assert((a + b).subrange(a.len() as int, (a + b).len() as int) =~= b);
    }
    if has_at(src, p, a) && has_at(src, p + a.len(), b) {
        assert(src.subrange(p, p + (a + b).len()) =~= src.subrange(p, p + a.len()) + src.subrange(
            p + a.len(),
            p + a.len() + b.len(),
        ));
    }
}

/// White space is skipped up to the first byte that is none.
pub proof fn lemma_skip_to(src: Seq<u8>, from: int, to: int)
    requires
        0 <= from <= to <= src.len(),
        forall|j: int| from <= j < to ==> is_space(#[trigger] src[j]),
        to < src.len() ==> !is_space(src[to]),
    ensures
        skip_spaces(src, from) == to,
    decreases to - from,
{
    if from < to {
        assert(is_space(src[from]));
        lemma_skip_to(src, from + 1, to);
    }
}

/// A word runs up to the first byte that is none of an identifier.
pub proof fn lemma_word_to(src: Seq<u8>, from: int, to: int)
    requires
        0 <= from <= to <= src.len(),
        forall|j: int| from <= j < to ==> is_word_byte(#[trigger] src[j]),
        to < src.len() ==> !is_word_byte(src[to]),
    ensures
        word_end(src, from) == to,
    decreases to - from,
{
    if from < to {
        assert(is_word_byte(src[from]));
        lemma_word_to(src, from + 1, to);
    }
}

/// A line runs up to the first line feed.
pub proof fn lemma_line_to(src: Seq<u8>, from: int, to: int)
    requires
        0 <= from <= to <= src.len(),
        forall|j: int| from <= j < to ==> #[trigger] src[j] != 0x0a,
        to < src.len() ==> src[to] == 0x0a,
    ensures
        line_end(src, from) == to,
    decreases to - from,
{
    if from < to {
        assert(src[from] != 0x0a);
        lemma_line_to(src, from + 1, to);
    }
}

/// At the end of the source the lexer stays.
proof fn lemma_place_at_end(src: Seq<u8>, n: int)
    ensures
        place_from(src, src.len() as int, n) == src.len(),
    decreases n,
{
    if n > 0 {
        lemma_place_at_end(src, n - 1);
        lemma_token_advances(src, src.len() as int);
    }
}

/// After one token more the lexer stands where it stands after the first
/// token and the `n` that follow it.
proof fn lemma_place_shift(src: Seq<u8>, pos: int, n: int)
    requires
        0 <= n,
    ensures
        place_from(src, pos, n + 1) == place_from(src, token_end(src, pos), n),
    decreases n,
{
    if n > 0 {
        lemma_place_shift(src, pos, n - 1);
    } else {
        assert(place_from(src, pos, 0) == pos);
        assert(place_from(src, token_end(src, pos), 0) == token_end(src, pos));
    }
}

/// Token `n` from `pos` on is the token that the lexer reads where it
/// stands after `n` tokens; where the tokens have ended, that is `EOF`.
pub proof fn lemma_token_index(src: Seq<u8>, pos: int, n: int)
    requires
        0 <= pos <= src.len(),
        0 <= n,
    ensures
        pos <= place_from(src, pos, n) <= src.len(),
        peek(tokens_from(src, pos), n) == token_at(src, place_from(src, pos, n)),
        n < tokens_from(src, pos).len() <==> !(token_at(src, place_from(src, pos, n)) is EOF),
    decreases n,
{
    lemma_token_advances(src, pos);
    if n > 0 {
        let end = token_end(src, pos);
        lemma_place_shift(src, pos, n - 1);
        if token_at(src, pos) is EOF {
            lemma_place_at_end(src, n - 1);
            lemma_token_advances(src, src.len() as int);
            lemma_skip_spaces(src, src.len() as int);
        } else {
            lemma_token_index(src, end, n - 1);
            let rest = tokens_from(src, end);
            assert(tokens_from(src, pos) =~= seq![token_at(src, pos)] + rest);
            if n - 1 < rest.len() {
                assert(tokens_from(src, pos)[n] == rest[n - 1]);
            }
        }
    }
}

/// Token `n` of a source is the token that the lexer reads where it stands
/// after `n` tokens, and it starts there or behind white space.
pub proof fn lemma_token_place(src: Seq<u8>, n: int)
    requires
        0 <= n,
    ensures
        0 <= place(src, n) <= src.len(),
        peek(tokens_of(src), n) == token_at(src, place(src, n)),
        n < tokens_of(src).len() <==> !(peek(tokens_of(src), n) is EOF),
        place(src, n + 1) == token_end(src, place(src, n)),
{
    lemma_token_index(src, 0, n);
}

/// White space before the lexer can be stepped over.
pub proof fn lemma_ready_skip(src: Seq<u8>, n: int, p: int, q: int)
    requires
        ready(src, n, p),
        p <= q <= src.len(),
        forall|j: int| p <= j < q ==> is_space(#[trigger] src[j]),
    ensures
        ready(src, n, q),
{
}

/// The lexer reads the token that starts at the next byte that is no white
/// space, and stands at its end then.
pub proof fn lemma_read(src: Seq<u8>, n: int, p: int)
    requires
        ready(src, n, p),
        p < src.len(),
        !is_space(src[p]),
    ensures
        peek(tokens_of(src), n) == lexeme_at(src, p).0,
        place(src, n + 1) == lexeme_at(src, p).1,
        p < lexeme_at(src, p).1 <= src.len(),
        ready(src, n + 1, lexeme_at(src, p).1),
        n < tokens_of(src).len(),
        tokens_of(src)[n] == lexeme_at(src, p).0,
{
    lemma_token_place(src, n);
    lemma_skip_to(src, place(src, n), p);
    lemma_token_advances(src, place(src, n));
    lemma_token_placed(src, place(src, n));
}

/// A comment is read from its two slashes to the end of its line.
pub proof fn lemma_comment_lexeme(src: Seq<u8>, p: int, end: int)
    requires
        0 <= p,
        p + 1 < end <= src.len(),
        src[p] == 0x2f,
        src[p + 1] == 0x2f,
        forall|j: int| p <= j < end ==> #[trigger] src[j] != 0x0a,
        end < src.len() ==> src[end] == 0x0a,
    ensures
        lexeme_at(src, p) == (Token::Comment(p, end, text_between(src, p, end)), end),
{
    lemma_line_to(src, p, end);
}

/// A word is read from its first byte to its last.
pub proof fn lemma_word_lexeme(src: Seq<u8>, p: int, end: int)
    requires
        0 <= p < end <= src.len(),
        forall|j: int| p <= j < end ==> is_word_byte(#[trigger] src[j]),
        end < src.len() ==> !is_word_byte(src[end]),
    ensures
        lexeme_at(src, p) == (word_token(src, p, end), end),
{
    lemma_word_to(src, p, end);
    assert(is_word_byte(src[p]));
}

/// Two texts that agree far enough give the same token: one byte further
/// than the token runs, or as far as it runs where it is one character that
/// stands for itself.
pub proof fn lemma_token_agrees(x: Seq<u8>, y: Seq<u8>, pos: int, m: int)
    requires
        agree(x, y, m),
        0 <= pos <= x.len(),
        !(token_at(x, pos) is EOF),
        token_end(x, pos) <= m,
        token_end(x, pos) < m || one_char(token_at(x, pos)),
    ensures
        token_at(y, pos) == token_at(x, pos),
        token_end(y, pos) == token_end(x, pos),
{
    lemma_token_advances(x, pos);
    lemma_skip_spaces(x, pos);
    let at = skip_spaces(x, pos);
    lemma_line_end(x, at);
    lemma_word_end(x, at);
    assert(at < m);
    assert forall|j: int| pos <= j < at implies is_space(#[trigger] y[j]) by {
        lemma_spaces_before(x, pos, j);
    }
    lemma_skip_to(y, pos, at);
    let end = token_end(x, pos);
    if one_char(token_at(x, pos)) {
    } else if comment_starts(x, at) {
        assert(y[at + 1] == x[at + 1]);
        assert forall|j: int| at <= j < end implies #[trigger] y[j] != 0x0a by {
            assert(x[j] != 0x0a);
        }
        lemma_line_to(y, at, end);
        assert(y.subrange(at, end) =~= x.subrange(at, end));
    } else if is_word_byte(x[at]) {
        assert forall|j: int| at <= j < end implies is_word_byte(#[trigger] y[j]) by {
            assert(is_word_byte(x[j]));
        }
        lemma_word_to(y, at, end);
        assert(y.subrange(at, end) =~= x.subrange(at, end));
        assert(all_underscores(y, at, end) == all_underscores(x, at, end)) by {
            if all_underscores(x, at, end) {
                assert forall|j: int| at <= j < end implies y[j] == 0x5f by {
                    assert(x[j] == 0x5f);
                }
            }
            if all_underscores(y, at, end) {
                assert forall|j: int| at <= j < end implies x[j] == 0x5f by {
                    assert(y[j] == 0x5f);
                }
            }
        }
    } else {
        assert(y[at + 1] == x[at + 1]);
    }
}

/// What is skipped as white space is white space.
proof fn lemma_spaces_before(src: Seq<u8>, pos: int, j: int)
    requires
        0 <= pos <= j < skip_spaces(src, pos),
    ensures
        j < src.len(),
        is_space(src[j]),
    decreases j - pos,
{
    if pos < j {
        lemma_spaces_before(src, pos + 1, j);
    }
}

/// Two texts that agree up to the end of token `n` of the one give the same
/// tokens up to that token, and leave the lexer at the same place.
pub proof fn lemma_tokens_agree(x: Seq<u8>, y: Seq<u8>, m: int, n: int)
    requires
        agree(x, y, m),
        0 <= n < tokens_of(x).len(),
        place(x, n + 1) <= m,
        place(x, n + 1) < m || one_char(tokens_of(x)[n]),
    ensures
        forall|k: int| 0 <= k <= n ==> #[trigger] peek(tokens_of(y), k) == peek(tokens_of(x), k),
        forall|k: int| 0 <= k <= n + 1 ==> #[trigger] place(y, k) == place(x, k),
        n < tokens_of(y).len(),
    decreases n,
{
    lemma_token_place(x, n);
    lemma_token_place(y, n);
    lemma_token_advances(x, place(x, n));
    if n > 0 {
        lemma_token_place(x, n - 1);
        lemma_tokens_agree(x, y, m, n - 1);
        assert(place(y, n) == place(x, n));
    }
    lemma_token_agrees(x, y, place(x, n), m);
    assert forall|k: int| 0 <= k <= n implies #[trigger] peek(tokens_of(y), k) == peek(
        tokens_of(x),
        k,
    ) by {
        if k < n {
        }
    }
    assert forall|k: int| 0 <= k <= n + 1 implies #[trigger] place(y, k) == place(x, k) by {
        if k <= n {
            if n > 0 {
            }
        }
    }
}

} // verus!
