//! What the parser does on tokens that are known only in part: it finds the
//! same in two token sequences as far as the two agree, and its first
//! keymaps block is the first that it comes to.

use crate::ast::{KeyTable, Statement};
use crate::lexer::Token;
use crate::parser::{
    block_body, closing_paren, header_len, header_matched, header_token, joined_text,
    lemma_block_body_cursor, lemma_closing_paren, lemma_header_matched,
    lemma_parse_keys_cursor, lemma_parse_statement_cursor, lemma_parse_table_cursor, parse_block,
    parse_keys, parse_layout, parse_program, parse_statement, parse_table, peek, same_kind,
};
use crate::patcher::first_block;
use vstd::prelude::*;

verus! {

/// Two token sequences agree on their first `m` tokens.
pub open spec fn same_start(a: Seq<Token>, b: Seq<Token>, m: int) -> bool {
    &&& 0 <= m <= a.len()
    &&& m <= b.len()
    &&& forall|j: int| 0 <= j < m ==> a[j] == b[j]
}

/// The first keymaps block that the parser finds from the cursor on.
pub open spec fn block_from(toks: Seq<Token>, i: int) -> Option<Statement>
    decreases toks.len() + 1 - i,
    via block_from_decreases
{
    if !(0 <= i < toks.len()) {
        None
    } else {
        let (statement, end) = parse_statement(toks, i);
        if statement is Some && statement->0 is Keymaps {
            statement
        } else {
            block_from(toks, end + 1)
        }
    }
}

#[via_fn]
proof fn block_from_decreases(toks: Seq<Token>, i: int) {
    if 0 <= i < toks.len() {
        lemma_parse_statement_cursor(toks, i);
    }
}

/// The cursor at which the parser finds its first keymaps block from the
/// cursor `i` on; the number of the tokens where it finds none.
pub open spec fn block_start(toks: Seq<Token>, i: int) -> int
    decreases toks.len() + 1 - i,
    via block_start_decreases
{
    if !(0 <= i < toks.len()) {
        toks.len() as int
    } else {
        let (statement, end) = parse_statement(toks, i);
        if statement is Some && statement->0 is Keymaps {
            i
        } else {
            block_start(toks, end + 1)
        }
    }
}

#[via_fn]
proof fn block_start_decreases(toks: Seq<Token>, i: int) {
    if 0 <= i < toks.len() {
        lemma_parse_statement_cursor(toks, i);
    }
}

/// The first keymaps block is found at or behind the cursor, at a `const`,
/// and is what the parser reads there.
pub proof fn lemma_block_start(toks: Seq<Token>, i: int)
    requires
        0 <= i,
    ensures
        i <= block_start(toks, i) || block_start(toks, i) == toks.len(),
        block_start(toks, i) <= toks.len(),
        block_start(toks, i) < toks.len() ==> {
            &&& toks[block_start(toks, i)] is Const
            &&& block_from(toks, i) == parse_block(toks, block_start(toks, i)).0
            &&& block_from(toks, i) is Some
            &&& block_from(toks, i)->0 is Keymaps
        },
        block_start(toks, i) == toks.len() ==> block_from(toks, i) is None,
    decreases toks.len() + 1 - i,
{
    if i < toks.len() {
        lemma_parse_statement_cursor(toks, i);
        let (statement, end) = parse_statement(toks, i);
        if statement is Some && statement->0 is Keymaps {
        } else {
            lemma_block_start(toks, end + 1);
        }
    }
}

proof fn lemma_first_block_push(acc: Seq<Statement>, statement: Statement, from: int)
    requires
        0 <= from <= acc.len(),
    ensures
        first_block(acc.push(statement), from) == (match first_block(acc, from) {
            Some(block) => Some(block),
            None => if statement is Keymaps {
                Some(statement)
            } else {
                None
            },
        }),
    decreases acc.len() - from,
{
    let more = acc.push(statement);
    if from < acc.len() {
        assert(more[from] == acc[from]);
        if !(acc[from] is Keymaps) {
            lemma_first_block_push(acc, statement, from + 1);
        }
    } else {
        assert(more[from] == statement);
        assert(first_block(more, from + 1) is None);
    }
}

/// The first keymaps block among the statements of a token sequence is the
/// first that the parser finds.
pub proof fn lemma_first_block_is_block_from(toks: Seq<Token>, i: int, acc: Seq<Statement>)
    requires
        0 <= i,
    ensures
        first_block(parse_program(toks, i, acc), 0) == (match first_block(acc, 0) {
            Some(block) => Some(block),
            None => block_from(toks, i),
        }),
    decreases toks.len() + 1 - i,
{
    if i < toks.len() {
        lemma_parse_statement_cursor(toks, i);
        let (statement, end) = parse_statement(toks, i);
        match statement {
            Some(statement) => {
                lemma_first_block_push(acc, statement, 0);
                lemma_first_block_is_block_from(toks, end + 1, acc.push(statement));
            },
            None => {
                lemma_first_block_is_block_from(toks, end + 1, acc);
            },
        }
    }
}

proof fn lemma_closing_agrees(a: Seq<Token>, b: Seq<Token>, m: int, from: int)
    requires
        same_start(a, b, m),
        0 <= from,
        closing_paren(a, from) < m,
    ensures
        closing_paren(b, from) == closing_paren(a, from),
    decreases a.len() - from,
{
    if from < a.len() && !(a[from] is RParen) {
        lemma_closing_agrees(a, b, m, from + 1);
        lemma_closing_paren(a, from + 1);
    }
}

proof fn lemma_joined_agrees(a: Seq<Token>, b: Seq<Token>, m: int, from: int, to: int)
    requires
        same_start(a, b, m),
        0 <= from,
        to <= m,
    ensures
        joined_text(b, from, to) == joined_text(a, from, to),
    decreases to - from,
{
    if from < to {
        lemma_joined_agrees(a, b, m, from, to - 1);
    }
}

/// The keys of a table are the same in two token sequences that agree up
/// to and with the parenthesis that closes the keys.
pub proof fn lemma_keys_agree(a: Seq<Token>, b: Seq<Token>, m: int, i: int, acc: Seq<Seq<char>>)
    requires
        same_start(a, b, m),
        0 <= i,
        parse_keys(a, i, acc).1 < m,
    ensures
        parse_keys(b, i, acc) == parse_keys(a, i, acc),
    decreases a.len() - i,
{
    if i < a.len() {
        lemma_parse_keys_cursor(a, i, acc);
        lemma_closing_paren(a, i + 1);
        match a[i] {
            Token::RParen(_) => {},
            Token::Ident(_, text) => {
                if peek(a, i + 1) is LParen {
                    let close = closing_paren(a, i + 1);
                    if close < a.len() {
                        let key = joined_text(a, i, close + 1);
                        lemma_parse_keys_cursor(a, close + 1, acc.push(key));
                        lemma_closing_agrees(a, b, m, i + 1);
                        lemma_joined_agrees(a, b, m, i, close + 1);
                        lemma_keys_agree(a, b, m, close + 1, acc.push(key));
                    }
                } else {
                    lemma_parse_keys_cursor(a, i + 1, acc.push(text));
                    lemma_keys_agree(a, b, m, i + 1, acc.push(text));
                }
            },
            Token::Blank(_) => {
                lemma_parse_keys_cursor(a, i + 1, acc.push(Seq::empty()));
                lemma_keys_agree(a, b, m, i + 1, acc.push(Seq::empty()));
            },
            _ => {
                lemma_parse_keys_cursor(a, i + 1, acc);
                lemma_keys_agree(a, b, m, i + 1, acc);
            },
        }
    }
}

/// A key table is the same in two token sequences that agree one token
/// further than the parser comes.
pub proof fn lemma_table_agrees(a: Seq<Token>, b: Seq<Token>, m: int, i: int)
    requires
        same_start(a, b, m),
        0 <= i,
        parse_table(a, i).1 + 1 < m,
    ensures
        parse_table(b, i) == parse_table(a, i),
{
    if peek(a, i + 1) is Ident && peek(a, i + 2) is RSqBrace {
        lemma_parse_table_cursor(a, i + 2);
        lemma_layout_agrees(a, b, m, i + 2);
        assert(b[i + 1] == a[i + 1]);
        assert(b[i + 2] == a[i + 2]);
    }
}

proof fn lemma_layout_agrees(a: Seq<Token>, b: Seq<Token>, m: int, i: int)
    requires
        same_start(a, b, m),
        0 <= i,
        parse_layout(a, i).1 + 1 < m,
    ensures
        parse_layout(b, i) == parse_layout(a, i),
{
    if peek(a, i + 1) is Equals && peek(a, i + 2) is Layout && peek(a, i + 3) is LParen {
        lemma_parse_keys_cursor(a, i + 4, Seq::empty());
        lemma_keys_agree(a, b, m, i + 4, Seq::empty());
    }
}

/// The header of the block is matched as far in two token sequences that
/// agree one token further than it is matched.
pub proof fn lemma_header_agrees(a: Seq<Token>, b: Seq<Token>, m: int, i: int, k: int)
    requires
        same_start(a, b, m),
        0 <= i,
        0 <= k <= header_len(),
        i + header_matched(a, i, k) + 1 < m,
    ensures
        header_matched(b, i, k) == header_matched(a, i, k),
    decreases header_len() - k,
{
    lemma_header_matched(a, i, k);
    if k < header_len() && same_kind(peek(a, i + 1 + k), header_token(k)) {
        lemma_header_agrees(a, b, m, i, k + 1);
    }
}

proof fn lemma_body_agrees(a: Seq<Token>, b: Seq<Token>, m: int, i: int, acc: Seq<KeyTable>)
    requires
        same_start(a, b, m),
        0 <= i,
        block_body(a, i, acc).1 + 1 < m,
    ensures
        block_body(b, i, acc) == block_body(a, i, acc),
    decreases a.len() - i,
{
    if i <= a.len() {
        lemma_block_body_cursor(a, i, acc);
    }
    if i + 1 < a.len() && !(a[i + 1] is RBrace) {
        if a[i + 1] is LSqBrace {
            lemma_parse_table_cursor(a, i + 1);
            let (table, end) = parse_table(a, i + 1);
            let more = match table {
                Some(table) => acc.push(table),
                None => acc,
            };
            lemma_block_body_cursor(a, end, more);
            lemma_table_agrees(a, b, m, i + 1);
            lemma_body_agrees(a, b, m, end, more);
        } else {
            lemma_block_body_cursor(a, i + 1, acc);
            lemma_body_agrees(a, b, m, i + 1, acc);
        }
    }
}

/// The keymaps block is the same in two token sequences that agree up to
/// and with its closing brace.
pub proof fn lemma_block_agrees(a: Seq<Token>, b: Seq<Token>, m: int, i: int)
    requires
        same_start(a, b, m),
        0 <= i < a.len(),
        parse_block(a, i).1 + 1 < m,
    ensures
        parse_block(b, i) == parse_block(a, i),
{
    lemma_header_matched(a, i, 0);
    if header_matched(a, i, 0) == header_len() {
        if peek(a, i + 13) is LBrace {
            lemma_block_body_cursor(a, i + 12, Seq::empty());
            lemma_header_agrees(a, b, m, i, 0);
            lemma_body_agrees(a, b, m, i + 12, Seq::empty());
        } else {
            lemma_header_agrees(a, b, m, i, 0);
        }
    } else {
        lemma_header_agrees(a, b, m, i, 0);
    }
}

/// A statement is the same in two token sequences that agree one token
/// further than the parser comes.
pub proof fn lemma_statement_agrees(a: Seq<Token>, b: Seq<Token>, m: int, i: int)
    requires
        same_start(a, b, m),
        0 <= i < a.len(),
        parse_statement(a, i).1 + 1 < m,
    ensures
        parse_statement(b, i) == parse_statement(a, i),
{
    lemma_parse_statement_cursor(a, i);
    match peek(a, i) {
        Token::LSqBrace(_) => {
            lemma_table_agrees(a, b, m, i);
        },
        Token::Const(_) => {
            lemma_block_agrees(a, b, m, i);
        },
        _ => {},
    }
}

/// Where two token sequences agree up to the `const` of the first keymaps
/// block of the one, and the other holds a keymaps block at that `const`
/// too, that block is the first of the other.
pub proof fn lemma_block_from_agrees(a: Seq<Token>, b: Seq<Token>, m: int, j: int)
    requires
        same_start(a, b, m),
        0 <= j,
        block_start(a, j) < m,
        parse_block(b, block_start(a, j)).0 is Some,
    ensures
        block_from(b, j) == parse_block(b, block_start(a, j)).0,
    decreases a.len() + 1 - j,
{
    let i = block_start(a, j);
    lemma_block_start(a, j);
    if j < a.len() {
        lemma_parse_statement_cursor(a, j);
        let (statement, end) = parse_statement(a, j);
        if statement is Some && statement->0 is Keymaps {
            assert(i == j);
            assert(b[j] is Const);
        } else {
            lemma_block_start(a, end + 1);
            assert(end + 1 <= i);
            lemma_statement_agrees(a, b, m, j);
            lemma_block_from_agrees(a, b, m, end + 1);
        }
    }
}

} // verus!
