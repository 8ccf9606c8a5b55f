//! The patcher: puts the rendered tables in the place of the keymaps block
//! of a source text, and leaves the rest of the text as it is.

use crate::ast::{KeyTable, KeymapStatement, Statement, StatementEnum};
use crate::formatter::{
    diagram, fits, get_keymap_string, grid_of, key_list, occupied_count, render, text_of, Layout,
    Mark,
};
use crate::lexer::{tokens_of, Lexer, Token, TokenType};
use crate::parser::{lemma_block_bounds, parse_tokens, Parser};
use crate::text::{
    bytes_of, lemma_ascii_ends_char, lemma_ascii_starts_char, lemma_boundary_by_byte,
    lemma_bytes_of_concat, lemma_text_between_bytes, slice_text, text_between, text_len,
};
use vstd::prelude::*;
use vstd::utf8::*;

verus! {

/// How the rewriting of a source text ended.
#[derive(Debug, PartialEq)]
pub enum Formatted {
    /// The source holds no keymaps block.
    NoKeymaps,
    /// A table of the block gives this many keys, which is not the number
    /// that the grid holds.
    Mismatch(usize),
    /// The source with its key tables rendered.
    Rewritten(String),
}

/// What a `Formatted` stands for.
pub enum Outcome {
    NoKeymaps,
    Mismatch(int),
    Rewritten(Seq<char>),
}

impl View for Formatted {
    type V = Outcome;

    open spec fn view(&self) -> Outcome {
        match self {
            Formatted::NoKeymaps => Outcome::NoKeymaps,
            Formatted::Mismatch(keys) => Outcome::Mismatch(*keys as int),
            Formatted::Rewritten(text) => Outcome::Rewritten(text@),
        }
    }
}

/// The first keymaps block among `statements`, from place `from` on.
pub open spec fn first_block(statements: Seq<Statement>, from: int) -> Option<Statement>
    decreases statements.len() - from,
{
    if !(0 <= from < statements.len()) {
        None
    } else if statements[from] is Keymaps {
        Some(statements[from])
    } else {
        first_block(statements, from + 1)
    }
}

/// The name of a table: the text of its identifier.
pub open spec fn name_of(table: KeyTable) -> Seq<char> {
    match table.token {
        Token::Ident(_, text) => text,
        _ => Seq::empty(),
    }
}

/// Whether the grid holds as many keys as the table gives.
pub open spec fn table_fits(table: KeyTable, grid: Seq<Seq<Mark>>) -> bool {
    table.layout_statement.keys.len() == occupied_count(grid)
}

/// The place of the first table, from place `from` on, that does not fit
/// the grid.
pub open spec fn first_misfit(tables: Seq<KeyTable>, grid: Seq<Seq<Mark>>, from: int) -> Option<
    int,
>
    decreases tables.len() - from,
{
    if !(0 <= from < tables.len()) {
        None
    } else if !table_fits(tables[from], grid) {
        Some(from)
    } else {
        first_misfit(tables, grid, from + 1)
    }
}

/// A table as it is written back: its diagram, and under it the table with
/// its name and its key list.
pub open spec fn table_text(table: KeyTable, grid: Seq<Seq<Mark>>) -> Seq<char> {
    let keys = table.layout_statement.keys;
    text_of(diagram(grid, keys)) + "\n"@ + "["@ + name_of(table) + "] = LAYOUT(\n"@ + text_of(
        key_list(grid, keys),
    ) + "),"@
}

/// The first `n` tables as they are written back, with an empty line
/// between one and the next.
pub open spec fn tables_text(tables: Seq<KeyTable>, grid: Seq<Seq<Mark>>, n: int) -> Seq<char>
    decreases n,
{
    if n <= 0 {
        Seq::empty()
    } else if n == 1 {
        table_text(tables[0], grid)
    } else {
        tables_text(tables, grid, n - 1) + "\n\n"@ + table_text(tables[n - 1], grid)
    }
}

/// The source with `body`, on lines of its own, in the place of what stood
/// between the braces at the byte offsets `start` and `end`.
pub open spec fn patched(src: Seq<char>, start: int, end: int, body: Seq<char>) -> Seq<char> {
    let bytes = bytes_of(src);
    text_between(bytes, 0, start + 1) + "\n"@ + body + "\n"@ + text_between(
        bytes,
        end,
        bytes.len() as int,
    )
}

/// How the rewriting of `src` over `grid` ends. Only the first keymaps block
/// is looked at. Where one of its tables gives more or fewer keys than the
/// grid holds, nothing is rewritten, and the outcome tells the number of
/// keys of the first such table. Otherwise every table of the block is
/// rendered, and the tables are written back in the place of what stood
/// between the braces of the block.
pub open spec fn outcome(src: Seq<char>, grid: Seq<Seq<Mark>>) -> Outcome {
    match first_block(parse_tokens(tokens_of(bytes_of(src))), 0) {
        Some(Statement::Keymaps(start, end, tables)) => {
            match first_misfit(tables, grid, 0) {
                Some(k) => Outcome::Mismatch(tables[k].layout_statement.keys.len() as int),
                None => Outcome::Rewritten(
                    patched(src, start, end, tables_text(tables, grid, tables.len() as int)),
                ),
            }
        },
        _ => Outcome::NoKeymaps,
    }
}

/// The source with its key tables rendered over `grid`, or the source as it
/// is where nothing is rewritten.
pub open spec fn formatted(src: Seq<char>, grid: Seq<Seq<Mark>>) -> Seq<char> {
    match outcome(src, grid) {
        Outcome::Rewritten(text) => text,
        _ => src,
    }
}

/// The first table that does not fit is found where one does not fit, and
/// is the first.
pub proof fn lemma_first_misfit(tables: Seq<KeyTable>, grid: Seq<Seq<Mark>>, from: int)
    requires
        0 <= from,
    ensures
        match first_misfit(tables, grid, from) {
            Some(k) => from <= k < tables.len() && !table_fits(tables[k], grid) && forall|j: int|
                from <= j < k ==> table_fits(#[trigger] tables[j], grid),
            None => forall|j: int|
                from <= j < tables.len() ==> table_fits(#[trigger] tables[j], grid),
        },
    decreases tables.len() - from,
{
    if from < tables.len() && table_fits(tables[from], grid) {
        lemma_first_misfit(tables, grid, from + 1);
    }
}

/// A source without a keymaps block stays as it is.
pub proof fn lemma_no_block_keeps_source(src: Seq<char>, grid: Seq<Seq<Mark>>)
    requires
        first_block(parse_tokens(tokens_of(bytes_of(src))), 0) is None,
    ensures
        formatted(src, grid) == src,
{
}

/// A source stays as it is where table `k` of its keymaps block gives more
/// or fewer keys than the grid holds.
pub proof fn lemma_mismatch_keeps_source(src: Seq<char>, grid: Seq<Seq<Mark>>, k: int)
    requires
        first_block(parse_tokens(tokens_of(bytes_of(src))), 0) matches Some(
            Statement::Keymaps(_, _, tables),
        ) && 0 <= k < tables.len() && tables[k].layout_statement.keys.len() != occupied_count(
            grid,
        ),
    ensures
        formatted(src, grid) == src,
{
    if let Some(Statement::Keymaps(_, _, tables)) = first_block(
        parse_tokens(tokens_of(bytes_of(src))),
        0,
    ) {
        lemma_first_misfit(tables, grid, 0);
        assert(!table_fits(tables[k], grid));
    }
}

/// The first keymaps block among statements is one of them, and a keymaps
/// block.
pub proof fn lemma_first_block_found(statements: Seq<Statement>, from: int)
    requires
        0 <= from,
    ensures
        first_block(statements, from) matches Some(statement) ==> statement is Keymaps && exists|
            k: int,
        |
            from <= k < statements.len() && statements[k] == statement,
    decreases statements.len() - from,
{
    if from < statements.len() && !(statements[from] is Keymaps) {
        lemma_first_block_found(statements, from + 1);
    }
}

/// The first keymaps block of a source, where there is one, lies between
/// an opening brace of the source and a closing brace behind it.
pub proof fn lemma_first_block_bounds(src: Seq<u8>)
    ensures
        first_block(parse_tokens(tokens_of(src)), 0) matches Some(
            Statement::Keymaps(start, end, _),
        ) ==> 0 <= start < end < src.len() && src[start] == 0x7b && src[end] == 0x7d,
{
    lemma_first_block_found(parse_tokens(tokens_of(src)), 0);
    if let Some(statement) = first_block(parse_tokens(tokens_of(src)), 0) {
        let k = choose|k: int|
            0 <= k < parse_tokens(tokens_of(src)).len() && parse_tokens(tokens_of(src))[k]
                == statement;
        lemma_block_bounds(src, k);
    }
}

/// Rewriting keeps the bytes of the source up to and with the opening
/// brace, and from the closing brace on; between them stand the bytes of
/// the new body, on lines of its own.
pub proof fn lemma_patched_bytes(src: Seq<char>, start: int, end: int, body: Seq<char>)
    requires
        0 <= start < end < bytes_of(src).len(),
        bytes_of(src)[start] == 0x7b,
        bytes_of(src)[end] == 0x7d,
    ensures
        bytes_of(patched(src, start, end, body)) == bytes_of(src).subrange(0, start + 1)
            + bytes_of("\n"@ + body + "\n"@) + bytes_of(src).subrange(
            end,
            bytes_of(src).len() as int,
        ),
{
    broadcast use encode_utf8_valid_utf8;

    let bytes = bytes_of(src);
    let n = bytes.len() as int;
    lemma_boundary_by_byte(bytes, 0);
    lemma_ascii_ends_char(bytes, start);
    lemma_ascii_starts_char(bytes, end);
    lemma_boundary_by_byte(bytes, n);
    lemma_text_between_bytes(bytes, 0, start + 1);
    lemma_text_between_bytes(bytes, end, n);
    let head = text_between(bytes, 0, start + 1);
    let tail = text_between(bytes, end, n);
    let middle = "\n"@ + body + "\n"@;
    assert(patched(src, start, end, body) =~= head + (middle + tail));
    lemma_bytes_of_concat(head, middle + tail);
    lemma_bytes_of_concat(middle, tail);
    assert(bytes_of(patched(src, start, end, body)) =~= bytes.subrange(0, start + 1) + bytes_of(
        middle,
    ) + bytes.subrange(end, n));
}

/// A table as it is written back.
fn table_string(table: &KeymapStatement, layout: &Layout) -> (s: String)
    requires
        table_fits(table@, grid_of(layout@)),
    ensures
        s@ == table_text(table@, grid_of(layout@)),
{
    let (display, list) = render(table, layout);
    let mut s = get_keymap_string(display);
    s.append("\n");
    s.append("[");
    match &table.token {
        TokenType::Ident(_, name) => s.append(name.as_str()),
        _ => {},
    }
    s.append("] = LAYOUT(\n");
    let keys = get_keymap_string(list);
    s.append(keys.as_str());
    s.append("),");
    assert(s@ =~= table_text(table@, grid_of(layout@)));
    s
}

/// The content with `body` in the place of what stood between two braces.
fn splice(content: &str, start: usize, end: usize, body: &str) -> (out: String)
    requires
        start < end < bytes_of(content@).len(),
        bytes_of(content@)[start as int] == 0x7b,
        bytes_of(content@)[end as int] == 0x7d,
    ensures
        out@ == patched(content@, start as int, end as int, body@),
{
    broadcast use encode_utf8_valid_utf8;

    let ghost bytes = bytes_of(content@);
    let n = text_len(content);
    proof {
        lemma_boundary_by_byte(bytes, 0);
        lemma_ascii_ends_char(bytes, start as int);
        lemma_ascii_starts_char(bytes, end as int);
        lemma_boundary_by_byte(bytes, n as int);
    }
    let first = slice_text(content, 0, start + 1);
    let ending = slice_text(content, end, n);
    let mut out = String::from_str(first);
    out.append("\n");
    out.append(body);
    out.append("\n");
    out.append(ending);
    assert(out@ =~= patched(content@, start as int, end as int, body@));
    out
}

/// The tables of a keymaps block as they are written back, or the number of
/// keys of the first of them that does not fit the grid.
fn tables_string(tables: &Vec<KeymapStatement>, layout: &Layout) -> (body: Result<String, usize>)
    ensures
        match body {
            Ok(body) => first_misfit(tables.deep_view(), grid_of(layout@), 0) is None && body@
                == tables_text(tables.deep_view(), grid_of(layout@), tables.len() as int),
            Err(keys) => first_misfit(tables.deep_view(), grid_of(layout@), 0) matches Some(k)
                && keys == tables.deep_view()[k].layout_statement.keys.len(),
        },
{
    let ghost grid = grid_of(layout@);
    let ghost views = tables.deep_view();
    let mut body = String::new();
    let mut i: usize = 0;
    while i < tables.len()
        invariant
            i <= tables.len(),
            grid == grid_of(layout@),
            views == tables.deep_view(),
            first_misfit(views, grid, i as int) == first_misfit(views, grid, 0),
            body@ == tables_text(views, grid, i as int),
        decreases tables.len() - i,
    {
        let table = &tables[i];
        assert(views[i as int] == table@);
        if !fits(table, layout) {
            let keys = table.layout_statement.keys.len();
            assert(table@.layout_statement.keys.len() == keys);
            return Err(keys);
        }
        if i > 0 {
            body.append("\n\n");
        }
        let text = table_string(table, layout);
        body.append(text.as_str());
        assert(body@ =~= tables_text(views, grid, i + 1));
        i = i + 1;
    }
    Ok(body)
}

/// Rewrites the keymaps block of `content` over the grid `layout`, and
/// tells how that ended.
pub fn format_source(content: &str, layout: &Layout) -> (result: Formatted)
    ensures
        result@ == outcome(content@, grid_of(layout@)),
{
    let ghost bytes = bytes_of(content@);
    let ghost grid = grid_of(layout@);
    let lexer = Lexer::new(content);
    let mut parser = Parser::new(lexer);
    let ast = parser.parse();
    let ghost statements = ast@;
    assert(statements == parse_tokens(tokens_of(bytes)));
    let mut i: usize = 0;
    while i < ast.statements.len()
        invariant
            i <= ast.statements.len(),
            statements == ast@,
            statements == parse_tokens(tokens_of(bytes)),
            bytes == bytes_of(content@),
            grid == grid_of(layout@),
            first_block(statements, i as int) == first_block(statements, 0),
        decreases ast.statements.len() - i,
    {
        match &ast.statements[i] {
            StatementEnum::Keymaps(start, end, tables) => {
                proof {
                    assert(statements[i as int] == ast.statements[i as int]@);
                    lemma_block_bounds(bytes, i as int);
                }
                return match tables_string(tables, layout) {
                    Ok(body) => Formatted::Rewritten(splice(content, *start, *end, body.as_str())),
                    Err(keys) => Formatted::Mismatch(keys),
                };
            },
            _ => {
                assert(statements[i as int] == ast.statements[i as int]@);
            },
        }
        i = i + 1;
    }
    Formatted::NoKeymaps
}

/// Rewrites the keymaps block of `content`: each of its key tables is
/// rendered over `layout` and written back under its diagram. Everything up
/// to the opening brace of the block and from its closing brace on stays as
/// it is. Where nothing can be rewritten the content comes back as it is.
pub fn get_formatted_file_contents(content: &str, layout: Layout) -> (out: String)
    ensures
        out@ == formatted(content@, grid_of(layout@)),
{
    match format_source(content, &layout) {
        Formatted::Rewritten(text) => text,
        _ => String::from_str(content),
    }
}

} // verus!
