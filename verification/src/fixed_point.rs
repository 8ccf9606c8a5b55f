//! Rewriting a source twice gives what rewriting it once gives: the
//! rewritten text is read back as the tables that it was rendered from.

use crate::ast::{KeyList, KeyTable, Statement};
use crate::formatter::{diagram, key_list, text_of, Mark};
use crate::lexer::{is_word_byte, lemma_token_placed, tokens_of, Token};
use crate::lexing_laws::{
    agree, has_at, lemma_has_at_byte, lemma_read, lemma_ready_skip, lemma_token_place,
    lemma_tokens_agree, lemma_word_lexeme, place, ready, spells,
};
use crate::parser::{
    block_body, header_len, header_matched, lemma_header_matched, parse_block, parse_keys,
    parse_layout, parse_table, parse_tokens, peek,
};
use crate::parsing_laws::{
    block_start, lemma_block_from_agrees, lemma_block_start, lemma_first_block_is_block_from,
    lemma_header_agrees, same_start,
};
use crate::patcher::{
    first_block, first_misfit, formatted, lemma_first_block_bounds, lemma_first_misfit,
    lemma_patched_bytes, name_of, outcome, patched, table_fits, table_text, tables_text, Outcome,
};
use crate::rendering_laws::{
    is_name, lemma_bytes_bracket, lemma_bytes_empty_line, lemma_bytes_line_feed,
    lemma_bytes_list_end, lemma_bytes_table_head, lemma_name_bytes, steady_keys,
};
use crate::rereading::{
    diagram_lines, lemma_body_steps, lemma_diagram_read, lemma_key_list_read, lemma_read_name,
    lemma_spells_concat,
};
use crate::text::{byte_len, bytes_of, text_between};
use vstd::prelude::*;
use vstd::utf8::*;

verus! {

/// A table that is read back as it was written: an identifier for its
/// name, and keys that are blanks, identifiers or calls.
pub open spec fn steady_table(table: KeyTable) -> bool {
    is_name(name_of(table)) && steady_keys(table.layout_statement.keys)
}

/// Tables that are read back as they were written.
pub open spec fn steady_tables(tables: Seq<KeyTable>) -> bool {
    forall|k: int| 0 <= k < tables.len() ==> steady_table(#[trigger] tables[k])
}

/// A source whose keymaps block, if it has one, holds only tables that are
/// read back as they were written.
pub open spec fn steady_source(src: Seq<char>) -> bool {
    first_block(parse_tokens(tokens_of(bytes_of(src))), 0) matches Some(
        Statement::Keymaps(_, _, tables),
    ) ==> steady_tables(tables)
}

/// Two tables of one name and with the same keys.
pub open spec fn same_table(a: KeyTable, b: KeyTable) -> bool {
    name_of(a) == name_of(b) && a.layout_statement.keys == b.layout_statement.keys
}

/// Two runs of tables, one by one of one name and with the same keys.
pub open spec fn same_tables(a: Seq<KeyTable>, b: Seq<KeyTable>) -> bool {
    a.len() == b.len() && forall|k: int| 0 <= k < a.len() ==> same_table(#[trigger] a[k], b[k])
}

/// Every table fits the grid.
pub open spec fn all_fit(tables: Seq<KeyTable>, grid: Seq<Seq<Mark>>) -> bool {
    forall|k: int| 0 <= k < tables.len() ==> table_fits(#[trigger] tables[k], grid)
}

/// Tables of the same names and keys are written back as the same text.
pub proof fn lemma_same_tables_text(
    a: Seq<KeyTable>,
    b: Seq<KeyTable>,
    grid: Seq<Seq<Mark>>,
    n: int,
)
    requires
        same_tables(a, b),
        n <= a.len(),
    ensures
        tables_text(a, grid, n) == tables_text(b, grid, n),
    decreases n,
{
    if n > 0 {
        lemma_same_tables_text(a, b, grid, n - 1);
        assert(same_table(a[n - 1], b[n - 1]));
        assert(same_table(a[0], b[0]));
    }
}

/// The lexer reads the head of a table, from its opening bracket to the
/// parenthesis that opens its keys, as six tokens.
proof fn lemma_table_head_read(src: Seq<u8>, n: int, p: int, name: Seq<char>)
    requires
        0 <= n,
        ready(src, n, p),
        is_name(name),
        spells(src, p, "["@ + name + "] = LAYOUT(\n"@),
    ensures
        n + 5 < tokens_of(src).len(),
        tokens_of(src)[n] is LSqBrace,
        tokens_of(src)[n + 1] matches Token::Ident(_, text) && text == name,
        tokens_of(src)[n + 2] is RSqBrace,
        tokens_of(src)[n + 3] is Equals,
        tokens_of(src)[n + 4] is Layout,
        tokens_of(src)[n + 5] is LParen,
        byte_len("["@ + name + "] = LAYOUT(\n"@) == name.len() + 13,
        ready(src, n + 6, p + name.len() + 13),
{
    let toks = tokens_of(src);
    lemma_spells_concat(src, p, "["@ + name, "] = LAYOUT(\n"@);
    lemma_spells_concat(src, p, "["@, name);
    lemma_bytes_bracket();
    lemma_bytes_table_head();
    lemma_name_bytes(name);
    let p2 = p + 1;
    let p3 = p2 + name.len();
    let head = bytes_of("] = LAYOUT(\n"@);
    lemma_has_at_byte(src, p, bytes_of("["@), 0);
    lemma_has_at_byte(src, p3, head, 0);
    lemma_has_at_byte(src, p3, head, 1);
    lemma_has_at_byte(src, p3, head, 2);
    lemma_has_at_byte(src, p3, head, 3);
    lemma_has_at_byte(src, p3, head, 4);
    lemma_has_at_byte(src, p3, head, 5);
    lemma_has_at_byte(src, p3, head, 6);
    lemma_has_at_byte(src, p3, head, 7);
    lemma_has_at_byte(src, p3, head, 8);
    lemma_has_at_byte(src, p3, head, 9);
    lemma_has_at_byte(src, p3, head, 10);
    lemma_has_at_byte(src, p3, head, 11);
    lemma_read(src, n, p);
    lemma_read_name(src, n + 1, p2, name);
    lemma_read(src, n + 2, p3);
    lemma_ready_skip(src, n + 3, p3 + 1, p3 + 2);
    lemma_read(src, n + 3, p3 + 2);
    lemma_ready_skip(src, n + 4, p3 + 3, p3 + 4);
    lemma_layout_read(src, n + 4, p3 + 4);
    lemma_read(src, n + 5, p3 + 10);
    lemma_ready_skip(src, n + 6, p3 + 11, p3 + 12);
}

/// The lexer reads the word `LAYOUT`, with an opening parenthesis behind
/// it, as the token of that word.
proof fn lemma_layout_read(src: Seq<u8>, n: int, p: int)
    requires
        ready(src, n, p),
        p + 6 < src.len(),
        src[p] == 0x4c,
        src[p + 1] == 0x41,
        src[p + 2] == 0x59,
        src[p + 3] == 0x4f,
        src[p + 4] == 0x55,
        src[p + 5] == 0x54,
        src[p + 6] == 0x28,
    ensures
        n < tokens_of(src).len(),
        tokens_of(src)[n] == Token::Layout(p),
        ready(src, n + 1, p + 6),
{
    lemma_bytes_table_head();
    assert forall|j: int| p <= j < p + 6 implies is_word_byte(#[trigger] src[j]) by {
        if j == p {
        } else if j == p + 1 {
        } else if j == p + 2 {
        } else if j == p + 3 {
        } else if j == p + 4 {
        } else {
            assert(j == p + 5);
        }
    }
    lemma_word_lexeme(src, p, p + 6);
    lemma_read(src, n, p);
    assert(src.subrange(p, p + 6) =~= bytes_of("LAYOUT"@));
    assert(text_between(src, p, p + 6) == "LAYOUT"@);
}

/// The parser, inside the block and before the tokens of a table with a
/// comma behind it, reads the table and stands on the comma then.
proof fn lemma_table_parsed(
    toks: Seq<Token>,
    c: int,
    keys: Seq<Seq<char>>,
    close: int,
    acc: Seq<KeyTable>,
) -> (found: KeyTable)
    requires
        0 <= c,
        c + 7 <= close,
        close + 1 < toks.len(),
        toks[c + 1] is LSqBrace,
        toks[c + 2] is Ident,
        toks[c + 3] is RSqBrace,
        toks[c + 4] is Equals,
        toks[c + 5] is Layout,
        toks[c + 6] is LParen,
        parse_keys(toks, c + 7, Seq::empty()) == (Some(keys), close),
        toks[close + 1] is Comma,
    ensures
        block_body(toks, c, acc) == block_body(toks, close + 1, acc.push(found)),
        found.token == toks[c + 2],
        found.layout_statement.keys == keys,
{
    let layout = KeyList { token: toks[c + 5], keys };
    let found = KeyTable { token: toks[c + 2], layout_statement: layout };
    assert(parse_layout(toks, c + 3) == (Some(layout), close));
    assert(parse_table(toks, c + 1) == (Some(found), close));
    assert(block_body(toks, c, acc) == block_body(toks, close, acc.push(found)));
    lemma_body_steps(toks, close, acc.push(found));
    found
}

/// The parser, inside the block, reads a table that was written back as a
/// table of the same name and with the same keys, and stands on the comma
/// behind it then.
pub proof fn lemma_table_read(
    src: Seq<u8>,
    c: int,
    p: int,
    table: KeyTable,
    grid: Seq<Seq<Mark>>,
    acc: Seq<KeyTable>,
) -> (r: (KeyTable, int))
    requires
        0 <= c,
        ready(src, c + 1, p),
        spells(src, p, table_text(table, grid)),
        steady_table(table),
        table_fits(table, grid),
    ensures
        c < r.1,
        block_body(tokens_of(src), c, acc) == block_body(tokens_of(src), r.1, acc.push(r.0)),
        same_table(r.0, table),
        ready(src, r.1 + 1, p + byte_len(table_text(table, grid))),
{
    let toks = tokens_of(src);
    let keys = table.layout_statement.keys;
    let name = name_of(table);
    let d = text_of(diagram(grid, keys));
    let l = text_of(key_list(grid, keys));
    let t1 = d + "\n"@;
    let head = "["@ + name + "] = LAYOUT(\n"@;
    assert(table_text(table, grid) =~= t1 + head + l + "),"@);
    lemma_spells_concat(src, p, t1 + head + l, "),"@);
    lemma_spells_concat(src, p, t1 + head, l);
    lemma_spells_concat(src, p, t1, head);
    lemma_spells_concat(src, p, d, "\n"@);
    lemma_bytes_line_feed();
    lemma_bytes_list_end();
    let pd = p + byte_len(d);
    let p1 = pd + 1;
    lemma_has_at_byte(src, pd, bytes_of("\n"@), 0);
    lemma_diagram_read(src, c, p, grid, keys, acc);
    let c1 = c + diagram_lines(grid);
    lemma_table_head_read(src, c1 + 1, p1, name);
    let p4 = p1 + name.len() + 13;
    let p5 = p4 + byte_len(l);
    lemma_has_at_byte(src, p5, bytes_of("),"@), 0);
    lemma_has_at_byte(src, p5, bytes_of("),"@), 1);
    let close = lemma_key_list_read(src, c1 + 7, p4, grid, keys);
    lemma_read(src, close + 1, p5 + 1);
    assert(toks[close + 1] is Comma);
    let found = lemma_table_parsed(toks, c1, keys, close, acc);
    (found, close + 1)
}

/// The parser, inside the block, reads the first tables that were written
/// back as tables of the same names and with the same keys.
pub proof fn lemma_tables_read(
    src: Seq<u8>,
    c: int,
    p: int,
    tables: Seq<KeyTable>,
    grid: Seq<Seq<Mark>>,
    m: int,
) -> (r: (Seq<KeyTable>, int))
    requires
        0 <= c,
        ready(src, c + 1, p),
        spells(src, p, tables_text(tables, grid, m)),
        0 <= m <= tables.len(),
        steady_tables(tables),
        all_fit(tables, grid),
    ensures
        c <= r.1,
        block_body(tokens_of(src), c, Seq::empty()) == block_body(tokens_of(src), r.1, r.0),
        same_tables(r.0, tables.take(m)),
        ready(src, r.1 + 1, p + byte_len(tables_text(tables, grid, m))),
    decreases m,
{
    let toks = tokens_of(src);
    if m == 0 {
        assert(bytes_of(Seq::<char>::empty()) =~= Seq::<u8>::empty());
        assert(tables_text(tables, grid, m) =~= Seq::<char>::empty());
        (Seq::empty(), c)
    } else {
        let table = tables[m - 1];
        assert(steady_table(table));
        assert(table_fits(table, grid));
        let text = table_text(table, grid);
        if m == 1 {
            let (found, next) = lemma_table_read(src, c, p, table, grid, Seq::empty());
            let all = Seq::<KeyTable>::empty().push(found);
            assert(same_tables(all, tables.take(m)));
            (all, next)
        } else {
            let before = tables_text(tables, grid, m - 1);
            assert(tables_text(tables, grid, m) == before + "\n\n"@ + text);
            lemma_spells_concat(src, p, before + "\n\n"@, text);
            lemma_spells_concat(src, p, before, "\n\n"@);
            lemma_bytes_empty_line();
            let (read, at) = lemma_tables_read(src, c, p, tables, grid, m - 1);
            let p1 = p + byte_len(before);
            lemma_has_at_byte(src, p1, bytes_of("\n\n"@), 0);
            lemma_has_at_byte(src, p1, bytes_of("\n\n"@), 1);
            lemma_ready_skip(src, at + 1, p1, p1 + 2);
            let (found, next) = lemma_table_read(src, at, p1 + 2, table, grid, read);
            let all = read.push(found);
            assert(same_tables(all, tables.take(m))) by {
                assert forall|k: int| 0 <= k < all.len() implies same_table(
                    #[trigger] all[k],
                    tables.take(m)[k],
                ) by {
                    if k < m - 1 {
                        assert(same_table(read[k], tables.take(m - 1)[k]));
                    }
                }
            }
            (all, next)
        }
    }
}

/// The first keymaps block of a token sequence starts at a `const` with
/// the header and the opening brace behind it.
proof fn lemma_block_found(toks: Seq<Token>) -> (i: int)
    requires
        first_block(parse_tokens(toks), 0) is Some,
    ensures
        0 <= i,
        i + 13 < toks.len(),
        i == block_start(toks, 0),
        header_matched(toks, i, 0) == header_len(),
        parse_block(toks, i).0 == first_block(parse_tokens(toks), 0),
        first_block(parse_tokens(toks), 0) matches Some(Statement::Keymaps(start, _, _))
            && toks[i + 13] == Token::LBrace(start),
{
    assert(first_block(Seq::<Statement>::empty(), 0) is None);
    lemma_first_block_is_block_from(toks, 0, Seq::empty());
    lemma_block_start(toks, 0);
    let i = block_start(toks, 0);
    lemma_header_matched(toks, i, 0);
    i
}

/// The bytes of a rewritten source: those of the source up to and with
/// the opening brace, the body on lines of its own, and those of the source
/// from the closing brace on.
proof fn lemma_rewritten_bytes(src: Seq<char>, start: int, end: int, body: Seq<char>)
    requires
        0 <= start < end < bytes_of(src).len(),
        bytes_of(src)[start] == 0x7b,
        bytes_of(src)[end] == 0x7d,
    ensures
        ({
            let x = bytes_of(src);
            let y = bytes_of(patched(src, start, end, body));
            let e = start + 2 + byte_len(body);
            &&& agree(x, y, start + 1)
            &&& e + 1 < y.len()
            &&& y[start + 1] == 0x0a
            &&& spells(y, start + 2, body)
            &&& y[e] == 0x0a
            &&& y[e + 1] == 0x7d
            &&& text_between(y, 0, start + 1) == text_between(x, 0, start + 1)
            &&& text_between(y, e + 1, y.len() as int) == text_between(x, end, x.len() as int)
        }),
{
    let x = bytes_of(src);
    let y = bytes_of(patched(src, start, end, body));
    let e = start + 2 + byte_len(body);
    lemma_patched_bytes(src, start, end, body);
    let middle = bytes_of("\n"@ + body + "\n"@);
    let head = x.subrange(0, start + 1);
    let tail = x.subrange(end, x.len() as int);
    assert(y == head + middle + tail);
    let q = start + 1;
    assert forall|j: int| 0 <= j < q implies x[j] == y[j] by {
        assert(y[j] == head[j]);
    }
    lemma_bytes_line_feed();
    assert(has_at(y, q, middle)) by {
        assert(y.subrange(q, q + middle.len()) =~= middle);
    }
    lemma_spells_concat(y, q, "\n"@ + body, "\n"@);
    lemma_spells_concat(y, q, "\n"@, body);
    lemma_has_at_byte(y, q, bytes_of("\n"@), 0);
    lemma_has_at_byte(y, e, bytes_of("\n"@), 0);
    assert(middle.len() == byte_len(body) + 2);
    assert(y[e + 1] == tail[0]);
    assert(y.subrange(0, start + 1) =~= x.subrange(0, start + 1));
    assert(y.subrange(e + 1, y.len() as int) =~= x.subrange(end, x.len() as int));
}

/// The tokens of a rewritten source, up to and with the opening brace of
/// the block, are those of the source.
proof fn lemma_tokens_stay(x: Seq<u8>, y: Seq<u8>, a: int, start: int)
    requires
        0 <= a < tokens_of(x).len(),
        tokens_of(x)[a] == Token::LBrace(start),
        agree(x, y, start + 1),
    ensures
        same_start(tokens_of(x), tokens_of(y), a + 1),
        place(y, a + 1) == start + 1,
        ready(y, a + 1, start + 1),
{
    let toks = tokens_of(x);
    let toks_y = tokens_of(y);
    lemma_token_place(x, a);
    lemma_token_placed(x, place(x, a));
    assert(place(x, a + 1) == start + 1);
    lemma_tokens_agree(x, y, start + 1, a);
    assert forall|j: int| 0 <= j < a + 1 implies toks[j] == toks_y[j] by {
        assert(peek(toks_y, j) == peek(toks, j));
    }
    assert(place(y, a + 1) == place(x, a + 1));
    lemma_token_place(y, a + 1);
}

/// The parser reads the block of a rewritten source as a block with tables
/// of the same names and with the same keys.
proof fn lemma_block_read_back(
    y: Seq<u8>,
    i: int,
    start: int,
    tables: Seq<KeyTable>,
    grid: Seq<Seq<Mark>>,
) -> (r: (Seq<KeyTable>, int))
    requires
        0 <= i,
        i + 13 < tokens_of(y).len(),
        header_matched(tokens_of(y), i, 0) == header_len(),
        tokens_of(y)[i + 13] == Token::LBrace(start),
        ready(y, i + 14, start + 1),
        start + 3 + byte_len(tables_text(tables, grid, tables.len() as int)) < y.len(),
        y[start + 1] == 0x0a,
        spells(y, start + 2, tables_text(tables, grid, tables.len() as int)),
        y[start + 2 + byte_len(tables_text(tables, grid, tables.len() as int))] == 0x0a,
        y[start + 3 + byte_len(tables_text(tables, grid, tables.len() as int))] == 0x7d,
        steady_tables(tables),
        all_fit(tables, grid),
    ensures
        parse_block(tokens_of(y), i) == (
            Some(
                Statement::Keymaps(
                    start,
                    start + 3 + byte_len(tables_text(tables, grid, tables.len() as int)),
                    r.0,
                ),
            ),
            r.1,
        ),
        same_tables(r.0, tables),
{
    let toks_y = tokens_of(y);
    let n = tables.len() as int;
    let body = tables_text(tables, grid, n);
    let a = i + 13;
    let q = start + 1;
    let e = q + 1 + byte_len(body);
    lemma_ready_skip(y, a + 1, q, q + 1);
    let (found, next) = lemma_tables_read(y, a, q + 1, tables, grid, n);
    lemma_ready_skip(y, next + 1, e, e + 1);
    lemma_read(y, next + 1, e + 1);
    assert(toks_y[next + 1] == Token::RBrace(e + 1));
    assert(block_body(toks_y, next, found) == (found, next));
    lemma_body_steps(toks_y, i + 12, Seq::empty());
    assert(block_body(toks_y, i + 12, Seq::empty()) == (found, next));
    assert(peek(toks_y, i + 13) == Token::LBrace(start));
    assert(peek(toks_y, next + 1) == Token::RBrace(e + 1));
    assert(tables.take(n) =~= tables);
    (found, next)
}

/// A rewritten source is rewritten to itself, where the tables of its
/// keymaps block are read back as they were written.
pub proof fn lemma_rewritten_is_fixed(src: Seq<char>, grid: Seq<Seq<Mark>>)
    requires
        steady_source(src),
        outcome(src, grid) is Rewritten,
    ensures
        outcome(formatted(src, grid), grid) == Outcome::Rewritten(formatted(src, grid)),
{
    let x = bytes_of(src);
    let toks = tokens_of(x);
    let block = first_block(parse_tokens(toks), 0);
    if let Some(Statement::Keymaps(start, end, tables)) = block {
        let n = tables.len() as int;
        let body = tables_text(tables, grid, n);
        let out = patched(src, start, end, body);
        assert(formatted(src, grid) == out);
        let y = bytes_of(out);
        let toks_y = tokens_of(y);
        let e = start + 2 + byte_len(body);
        lemma_first_misfit(tables, grid, 0);
        assert(all_fit(tables, grid));
        assert(steady_tables(tables));
        let i = lemma_block_found(toks);
        lemma_first_block_bounds(x);
        lemma_rewritten_bytes(src, start, end, body);
        lemma_tokens_stay(x, y, i + 13, start);
        lemma_header_agrees(toks, toks_y, i + 14, i, 0);
        assert(toks_y[i + 13] == toks[i + 13]);
        let (found, next) = lemma_block_read_back(y, i, start, tables, grid);
        let again = Statement::Keymaps(start, e + 1, found);
        lemma_block_from_agrees(toks, toks_y, i + 14, 0);
        lemma_first_block_is_block_from(toks_y, 0, Seq::empty());
        assert(first_block(Seq::<Statement>::empty(), 0) is None);
        assert(first_block(parse_tokens(toks_y), 0) == Some(again));
        lemma_fit_again(found, tables, grid);
        lemma_same_tables_text(found, tables, grid, n);
        assert(outcome(out, grid) == Outcome::Rewritten(patched(out, start, e + 1, body)));
        assert(patched(out, start, e + 1, body) == out);
    }
}

/// Tables with the keys of tables that fit have no first that does not
/// fit.
proof fn lemma_fit_again(found: Seq<KeyTable>, tables: Seq<KeyTable>, grid: Seq<Seq<Mark>>)
    requires
        same_tables(found, tables),
        all_fit(tables, grid),
    ensures
        first_misfit(found, grid, 0) is None,
{
    assert forall|k: int| 0 <= k < found.len() implies table_fits(#[trigger] found[k], grid) by {
        assert(same_table(found[k], tables[k]));
        assert(table_fits(tables[k], grid));
    }
    lemma_first_misfit(found, grid, 0);
}

/// Rewriting twice is rewriting once. This holds of every source that is
/// not rewritten at all, and of every source whose key tables are read back
/// as they were written: tables with an identifier for their name, and with
/// blanks, identifiers and calls for their keys.
pub proof fn lemma_formatting_twice(src: Seq<char>, grid: Seq<Seq<Mark>>)
    requires
        outcome(src, grid) is Rewritten ==> steady_source(src),
    ensures
        formatted(formatted(src, grid), grid) == formatted(src, grid),
{
    if outcome(src, grid) is Rewritten {
        lemma_rewritten_is_fixed(src, grid);
    }
}

} // verus!
