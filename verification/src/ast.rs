//! What the parser finds: key tables, alone or inside the keymaps block.

use crate::lexer::{Token, TokenType};
use vstd::prelude::*;

verus! {

/// What a `LayoutStatement` stands for.
pub struct KeyList {
    pub token: Token,
    pub keys: Seq<Seq<char>>,
}

/// What a `KeymapStatement` stands for.
pub struct KeyTable {
    pub token: Token,
    pub layout_statement: KeyList,
}

/// What a `StatementEnum` stands for.
pub enum Statement {
    KeymapStatement(KeyTable),
    Keymaps(int, int, Seq<KeyTable>),
}

/// The statements of a source text, in the order in which they were found.
pub struct AST {
    pub statements: Vec<StatementEnum>,
}

/// A statement: a key table outside the keymaps block, or the keymaps block
/// with the offsets of its two braces and the key tables inside it.
#[derive(Debug, PartialEq)]
pub enum StatementEnum {
    KeymapStatement(KeymapStatement),
    Keymaps(usize, usize, Vec<KeymapStatement>),
}

/// A key table: the identifier that names it, and its keys.
#[derive(Debug, PartialEq)]
pub struct KeymapStatement {
    pub token: TokenType,
    pub layout_statement: LayoutStatement,
}

/// The keys of a table, behind the `LAYOUT` token that opens them. A key is
/// an identifier, a call written out as it stood, or empty for a blank.
#[derive(Debug, PartialEq)]
pub struct LayoutStatement {
    pub token: TokenType,
    pub keys: Vec<String>,
}

impl View for LayoutStatement {
    type V = KeyList;

    open spec fn view(&self) -> KeyList {
        KeyList { token: self.token@, keys: self.keys.deep_view() }
    }
}

impl DeepView for LayoutStatement {
    type V = KeyList;

    open spec fn deep_view(&self) -> KeyList {
        self@
    }
}

impl View for KeymapStatement {
    type V = KeyTable;

    open spec fn view(&self) -> KeyTable {
        KeyTable { token: self.token@, layout_statement: self.layout_statement@ }
    }
}

impl DeepView for KeymapStatement {
    type V = KeyTable;

    open spec fn deep_view(&self) -> KeyTable {
        self@
    }
}

impl View for StatementEnum {
    type V = Statement;

    open spec fn view(&self) -> Statement {
        match self {
            StatementEnum::KeymapStatement(table) => Statement::KeymapStatement(table@),
            StatementEnum::Keymaps(start, end, tables) => Statement::Keymaps(
                *start as int,
                *end as int,
                tables.deep_view(),
            ),
        }
    }
}

impl DeepView for StatementEnum {
    type V = Statement;

    open spec fn deep_view(&self) -> Statement {
        self@
    }
}

impl View for AST {
    type V = Seq<Statement>;

    open spec fn view(&self) -> Seq<Statement> {
        self.statements.deep_view()
    }
}

impl KeymapStatement {
    pub fn new(token: TokenType, layout_statement: LayoutStatement) -> (statement: Self)
        ensures
            statement@ == (KeyTable { token: token@, layout_statement: layout_statement@ }),
    {
        Self { token, layout_statement }
    }
}

impl LayoutStatement {
    pub fn new(token: TokenType, keys: Vec<String>) -> (statement: Self)
        ensures
            statement@ == (KeyList { token: token@, keys: keys.deep_view() }),
    {
        Self { token, keys }
    }
}

impl AST {
    pub fn new() -> (ast: Self)
        ensures
            ast@ == Seq::<Statement>::empty(),
    {
        let ast = Self { statements: Vec::new() };
        assert(ast.statements.deep_view() =~= Seq::<Statement>::empty());
        ast
    }
}

/// Appends `item` to `list`; the views follow.
pub(crate) fn push_text(list: &mut Vec<String>, item: String)
    ensures
        final(list).deep_view() == old(list).deep_view().push(item@),
{
    list.push(item);
    assert(list.deep_view() =~= old(list).deep_view().push(item@));
}

/// Appends `table` to `list`; the views follow.
pub(crate) fn push_table(list: &mut Vec<KeymapStatement>, table: KeymapStatement)
    ensures
        final(list).deep_view() == old(list).deep_view().push(table@),
{
    list.push(table);
    assert(list.deep_view() =~= old(list).deep_view().push(table@));
}

/// Appends `statement` to `list`; the views follow.
pub(crate) fn push_statement(list: &mut Vec<StatementEnum>, statement: StatementEnum)
    ensures
        final(list).deep_view() == old(list).deep_view().push(statement@),
{
    list.push(statement);
    assert(list.deep_view() =~= old(list).deep_view().push(statement@));
}

} // verus!
