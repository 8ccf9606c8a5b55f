//! The parser: from tokens to key tables and the keymaps block.
//!
//! The parser walks the tokens with a cursor. What it finds is stated by
//! spec functions from a token sequence and a cursor to a result and the
//! cursor left behind; the executable parser computes the same.

use crate::ast::{
    push_statement, push_table, push_text, KeyList, KeyTable, KeymapStatement, LayoutStatement,
    Statement, StatementEnum, AST,
};
use crate::lexer::{
    lemma_tokens_ordered, lemma_tokens_placed, tokens_from, tokens_of, Lexer, Token, TokenType,
};
use vstd::prelude::*;

verus! {

/// The token under the cursor at `i`; `EOF` outside the sequence.
pub open spec fn peek(toks: Seq<Token>, i: int) -> Token {
    if 0 <= i < toks.len() {
        toks[i]
    } else {
        Token::EOF
    }
}

/// Two tokens of one variant, whatever they carry.
pub open spec fn same_kind(a: Token, b: Token) -> bool {
    match (a, b) {
        (Token::LParen(_), Token::LParen(_)) => true,
        (Token::RParen(_), Token::RParen(_)) => true,
        (Token::LSqBrace(_), Token::LSqBrace(_)) => true,
        (Token::RSqBrace(_), Token::RSqBrace(_)) => true,
        (Token::Equals(_), Token::Equals(_)) => true,
        (Token::Comma(_), Token::Comma(_)) => true,
        (Token::Layout(_), Token::Layout(_)) => true,
        (Token::Blank(_), Token::Blank(_)) => true,
        (Token::Ident(_, _), Token::Ident(_, _)) => true,
        (Token::Const(_), Token::Const(_)) => true,
        (Token::Comment(_, _, _), Token::Comment(_, _, _)) => true,
        (Token::Progmem(_), Token::Progmem(_)) => true,
        (Token::EOF, Token::EOF) => true,
        (Token::LBrace(_), Token::LBrace(_)) => true,
        (Token::RBrace(_), Token::RBrace(_)) => true,
        _ => false,
    }
}

/// The first place at or after `from` that holds a closing parenthesis, or
/// the end of the tokens where none follows.
pub open spec fn closing_paren(toks: Seq<Token>, from: int) -> int
    decreases toks.len() - from,
{
    if 0 <= from < toks.len() && !(toks[from] is RParen) {
        closing_paren(toks, from + 1)
    } else {
        from
    }
}

/// The texts of the tokens from `from` up to `to`, one behind the other.
pub open spec fn joined_text(toks: Seq<Token>, from: int, to: int) -> Seq<char>
    decreases to - from,
{
    if from < to {
        joined_text(toks, from, to - 1) + peek(toks, to - 1).text()
    } else {
        Seq::empty()
    }
}

/// A key written as a call, with the cursor on its name: the texts of all
/// tokens up to and with the first closing parenthesis, as one key, and the
/// cursor on that parenthesis. Nothing where the tokens end before it.
pub open spec fn compound_key(toks: Seq<Token>, i: int) -> (Option<Seq<char>>, int) {
    let close = closing_paren(toks, i + 1);
    if close < toks.len() {
        (Some(joined_text(toks, i, close + 1)), close)
    } else {
        (None, close)
    }
}

/// The keys of a table, with the cursor behind the opening parenthesis and
/// `acc` the keys read before: a blank gives an empty key, an identifier
/// before an opening parenthesis a call, any other identifier its text, and
/// other tokens nothing. The list ends at the closing parenthesis, where
/// the cursor stays. Nothing where the tokens end before it.
pub open spec fn parse_keys(toks: Seq<Token>, i: int, acc: Seq<Seq<char>>) -> (
    Option<Seq<Seq<char>>>,
    int,
)
    decreases toks.len() - i,
    via parse_keys_decreases
{
    if !(0 <= i < toks.len()) {
        (None, i)
    } else {
        match toks[i] {
            Token::RParen(_) => (Some(acc), i),
            Token::Ident(_, text) => {
                if peek(toks, i + 1) is LParen {
                    match compound_key(toks, i) {
                        (Some(key), close) => parse_keys(toks, close + 1, acc.push(key)),
                        (None, end) => (None, end),
                    }
                } else {
                    parse_keys(toks, i + 1, acc.push(text))
                }
            },
            Token::Blank(_) => parse_keys(toks, i + 1, acc.push(Seq::empty())),
            _ => parse_keys(toks, i + 1, acc),
        }
    }
}

#[via_fn]
proof fn parse_keys_decreases(toks: Seq<Token>, i: int, acc: Seq<Seq<char>>) {
    if 0 <= i < toks.len() {
        lemma_closing_paren(toks, i + 1);
    }
}

/// The keys of a table behind its name, with the cursor on the closing
/// bracket of the name: `=`, `LAYOUT`, `(` and the keys. Where one of them
/// is missing there is no result, and the cursor stays before it.
pub open spec fn parse_layout(toks: Seq<Token>, i: int) -> (Option<KeyList>, int) {
    if !(peek(toks, i + 1) is Equals) {
        (None, i)
    } else if !(peek(toks, i + 2) is Layout) {
        (None, i + 1)
    } else if !(peek(toks, i + 3) is LParen) {
        (None, i + 2)
    } else {
        let (keys, end) = parse_keys(toks, i + 4, Seq::empty());
        match keys {
            Some(keys) => (Some(KeyList { token: toks[i + 2], keys }), end),
            None => (None, end),
        }
    }
}

/// A key table, with the cursor on its opening bracket: an identifier, the
/// closing bracket and the keys.
pub open spec fn parse_table(toks: Seq<Token>, i: int) -> (Option<KeyTable>, int) {
    if !(peek(toks, i + 1) is Ident) {
        (None, i)
    } else if !(peek(toks, i + 2) is RSqBrace) {
        (None, i + 1)
    } else {
        let (layout, end) = parse_layout(toks, i + 2);
        match layout {
            Some(layout) => (Some(KeyTable { token: toks[i + 1], layout_statement: layout }), end),
            None => (None, end),
        }
    }
}

/// The number of tokens between `const` and the opening brace of the
/// keymaps block.
pub open spec fn header_len() -> int {
    12
}

/// The token of place `k` behind `const` in the header of the keymaps
/// block, `<ident> PROGMEM <ident>[][<ident>][<ident>] =`. Only its variant
/// counts.
pub open spec fn header_token(k: int) -> Token {
    if k == 0 || k == 2 || k == 6 || k == 9 {
        Token::Ident(0, Seq::empty())
    } else if k == 1 {
        Token::Progmem(0)
    } else if k == 3 || k == 5 || k == 8 {
        Token::LSqBrace(0)
    } else if k == 4 || k == 7 || k == 10 {
        Token::RSqBrace(0)
    } else {
        Token::Equals(0)
    }
}

/// How far the tokens behind the `const` at `i` follow the header, given
/// that the first `k` of them do.
pub open spec fn header_matched(toks: Seq<Token>, i: int, k: int) -> int
    decreases header_len() - k,
{
    if 0 <= k < header_len() && same_kind(peek(toks, i + 1 + k), header_token(k)) {
        header_matched(toks, i, k + 1)
    } else {
        k
    }
}

/// The key tables inside the keymaps block, with `acc` those found before
/// and the cursor `i` somewhere in the block: the parser moves on token by
/// token, reads a key table at each opening bracket that it comes to, and
/// stops with the closing brace, or the end of the tokens, next.
pub open spec fn block_body(toks: Seq<Token>, i: int, acc: Seq<KeyTable>) -> (Seq<KeyTable>, int)
    decreases toks.len() - i,
    via block_body_decreases
{
    if !(0 <= i && i + 1 < toks.len()) || toks[i + 1] is RBrace {
        (acc, i)
    } else if toks[i + 1] is LSqBrace {
        let (table, end) = parse_table(toks, i + 1);
        match table {
            Some(table) => block_body(toks, end, acc.push(table)),
            None => block_body(toks, end, acc),
        }
    } else {
        block_body(toks, i + 1, acc)
    }
}

#[via_fn]
proof fn block_body_decreases(toks: Seq<Token>, i: int, acc: Seq<KeyTable>) {
    if 0 <= i && i + 1 < toks.len() {
        lemma_parse_table_cursor(toks, i + 1);
    }
}

/// The keymaps block, with the cursor on `const`: the header, the opening
/// brace, the key tables, and the closing brace, which stays ahead of the
/// cursor. The result holds the offsets of the two braces.
pub open spec fn parse_block(toks: Seq<Token>, i: int) -> (Option<Statement>, int) {
    let matched = header_matched(toks, i, 0);
    if matched < header_len() {
        (None, i + matched)
    } else {
        match peek(toks, i + 13) {
            Token::LBrace(start) => {
                let (tables, last) = block_body(toks, i + 12, Seq::empty());
                match peek(toks, last + 1) {
                    Token::RBrace(end) => (Some(Statement::Keymaps(start, end, tables)), last),
                    _ => (None, last),
                }
            },
            _ => (None, i + 12),
        }
    }
}

/// The statement that starts under the cursor, if one does: a key table at
/// an opening bracket, the keymaps block at `const`.
pub open spec fn parse_statement(toks: Seq<Token>, i: int) -> (Option<Statement>, int) {
    match peek(toks, i) {
        Token::LSqBrace(_) => {
            let (table, end) = parse_table(toks, i);
            match table {
                Some(table) => (Some(Statement::KeymapStatement(table)), end),
                None => (None, end),
            }
        },
        Token::Const(_) => parse_block(toks, i),
        _ => (None, i),
    }
}

/// All statements from the cursor on, behind those of `acc`: the parser
/// tries a statement at the cursor, steps over the token it is left on, and
/// goes on so to the end of the tokens.
pub open spec fn parse_program(toks: Seq<Token>, i: int, acc: Seq<Statement>) -> Seq<Statement>
    decreases toks.len() + 1 - i,
    via parse_program_decreases
{
    if !(0 <= i < toks.len()) {
        acc
    } else {
        let (statement, end) = parse_statement(toks, i);
        match statement {
            Some(statement) => parse_program(toks, end + 1, acc.push(statement)),
            None => parse_program(toks, end + 1, acc),
        }
    }
}

#[via_fn]
proof fn parse_program_decreases(toks: Seq<Token>, i: int, acc: Seq<Statement>) {
    if 0 <= i < toks.len() {
        lemma_parse_statement_cursor(toks, i);
    }
}

/// The statements of a token sequence.
pub open spec fn parse_tokens(toks: Seq<Token>) -> Seq<Statement> {
    parse_program(toks, 0, Seq::empty())
}

/// The closing parenthesis is looked for forward and inside the tokens.
pub proof fn lemma_closing_paren(toks: Seq<Token>, from: int)
    requires
        0 <= from <= toks.len(),
    ensures
        from <= closing_paren(toks, from) <= toks.len(),
        closing_paren(toks, from) < toks.len() ==> toks[closing_paren(toks, from)] is RParen,
        forall|k: int| from <= k < closing_paren(toks, from) ==> !(toks[k] is RParen),
    decreases toks.len() - from,
{
    if from < toks.len() && !(toks[from] is RParen) {
        lemma_closing_paren(toks, from + 1);
    }
}

/// Reading keys moves the cursor forward and not behind the tokens; with a
/// result it is left on a closing parenthesis.
pub proof fn lemma_parse_keys_cursor(toks: Seq<Token>, i: int, acc: Seq<Seq<char>>)
    requires
        0 <= i <= toks.len(),
    ensures
        i <= parse_keys(toks, i, acc).1 <= toks.len(),
        parse_keys(toks, i, acc).0 is Some ==> peek(toks, parse_keys(toks, i, acc).1) is RParen,
        parse_keys(toks, i, acc).0 is None ==> parse_keys(toks, i, acc).1 == toks.len(),
    decreases toks.len() - i,
{
    if i < toks.len() {
        lemma_closing_paren(toks, i + 1);
        match toks[i] {
            Token::RParen(_) => {},
            Token::Ident(_, text) => {
                if peek(toks, i + 1) is LParen {
                    match compound_key(toks, i) {
                        (Some(key), close) => {
                            lemma_parse_keys_cursor(toks, close + 1, acc.push(key));
                        },
                        (None, end) => {},
                    }
                } else {
                    lemma_parse_keys_cursor(toks, i + 1, acc.push(text));
                }
            },
            Token::Blank(_) => {
                lemma_parse_keys_cursor(toks, i + 1, acc.push(Seq::empty()));
            },
            _ => {
                lemma_parse_keys_cursor(toks, i + 1, acc);
            },
        }
    }
}

/// Reading a key table moves the cursor forward and not behind the tokens;
/// with a result it is left on a closing parenthesis.
pub proof fn lemma_parse_table_cursor(toks: Seq<Token>, i: int)
    requires
        0 <= i < toks.len(),
    ensures
        i <= parse_table(toks, i).1 <= toks.len(),
        parse_table(toks, i).0 is Some ==> peek(toks, parse_table(toks, i).1) is RParen,
        i <= parse_layout(toks, i).1 <= toks.len(),
        parse_layout(toks, i).0 is Some ==> peek(toks, parse_layout(toks, i).1) is RParen,
{
    if peek(toks, i + 3) is LParen {
        lemma_parse_keys_cursor(toks, i + 4, Seq::empty());
    }
    if peek(toks, i + 5) is LParen {
        lemma_parse_keys_cursor(toks, i + 6, Seq::empty());
    }
}

/// The header is matched token by token, from none to all twelve.
pub proof fn lemma_header_matched(toks: Seq<Token>, i: int, k: int)
    requires
        0 <= k <= header_len(),
    ensures
        k <= header_matched(toks, i, k) <= header_len(),
        header_matched(toks, i, k) > k ==> i + header_matched(toks, i, k) < toks.len(),
    decreases header_len() - k,
{
    if k < header_len() && same_kind(peek(toks, i + 1 + k), header_token(k)) {
        lemma_header_matched(toks, i, k + 1);
    }
}

/// Reading the body of the block moves the cursor forward and not behind
/// the tokens.
pub proof fn lemma_block_body_cursor(toks: Seq<Token>, i: int, acc: Seq<KeyTable>)
    requires
        0 <= i <= toks.len(),
    ensures
        i <= block_body(toks, i, acc).1 <= toks.len(),
    decreases toks.len() - i,
{
    if i + 1 < toks.len() && !(toks[i + 1] is RBrace) {
        if toks[i + 1] is LSqBrace {
            lemma_parse_table_cursor(toks, i + 1);
            let (table, end) = parse_table(toks, i + 1);
            match table {
                Some(table) => lemma_block_body_cursor(toks, end, acc.push(table)),
                None => lemma_block_body_cursor(toks, end, acc),
            }
        } else {
            lemma_block_body_cursor(toks, i + 1, acc);
        }
    }
}

/// Reading a statement moves the cursor forward and not behind the tokens.
pub proof fn lemma_parse_statement_cursor(toks: Seq<Token>, i: int)
    requires
        0 <= i < toks.len(),
    ensures
        i <= parse_statement(toks, i).1 <= toks.len(),
{
    match peek(toks, i) {
        Token::LSqBrace(_) => {
            lemma_parse_table_cursor(toks, i);
        },
        Token::Const(_) => {
            lemma_header_matched(toks, i, 0);
            if header_matched(toks, i, 0) == header_len() && peek(toks, i + 13) is LBrace {
                lemma_block_body_cursor(toks, i + 12, Seq::empty());
            }
        },
        _ => {},
    }
}

/// The two offsets of a keymaps block are those of an opening brace among
/// the tokens and of a closing brace behind it.
pub open spec fn braces_found(toks: Seq<Token>, statement: Statement) -> bool {
    statement matches Statement::Keymaps(start, end, _) ==> exists|a: int, b: int|
        #![trigger toks[a], toks[b]]
        0 <= a < b < toks.len() && toks[a] == Token::LBrace(start) && toks[b] == Token::RBrace(
            end,
        )
}

/// A keymaps block lies between two braces of the tokens.
pub proof fn lemma_block_braces(toks: Seq<Token>, i: int)
    requires
        0 <= i < toks.len(),
    ensures
        parse_block(toks, i).0 matches Some(statement) ==> braces_found(toks, statement),
{
    lemma_header_matched(toks, i, 0);
    if header_matched(toks, i, 0) == header_len() {
        if let Token::LBrace(start) = peek(toks, i + 13) {
            lemma_block_body_cursor(toks, i + 12, Seq::empty());
            let (tables, last) = block_body(toks, i + 12, Seq::empty());
            if let Token::RBrace(end) = peek(toks, last + 1) {
                assert(toks[i + 13] == Token::LBrace(start) && toks[last + 1] == Token::RBrace(
                    end,
                ));
            }
        }
    }
}

/// Every keymaps block that the parser finds lies between two braces of the
/// tokens.
pub proof fn lemma_program_braces(toks: Seq<Token>, i: int, acc: Seq<Statement>)
    requires
        0 <= i,
        forall|k: int| 0 <= k < acc.len() ==> braces_found(toks, #[trigger] acc[k]),
    ensures
        forall|k: int|
            0 <= k < parse_program(toks, i, acc).len() ==> braces_found(
                toks,
                #[trigger] parse_program(toks, i, acc)[k],
            ),
    decreases toks.len() + 1 - i,
{
    if i < toks.len() {
        lemma_parse_statement_cursor(toks, i);
        let (statement, end) = parse_statement(toks, i);
        match statement {
            Some(statement) => {
                if peek(toks, i) is Const {
                    lemma_block_braces(toks, i);
                }
                assert(braces_found(toks, statement));
                let found = acc.push(statement);
                assert forall|k: int| 0 <= k < found.len() implies braces_found(
                    toks,
                    #[trigger] found[k],
                ) by {
                    if k < acc.len() {
                        assert(found[k] == acc[k]);
                    }
                }
                lemma_program_braces(toks, end + 1, found);
                assert(parse_program(toks, i, acc) == parse_program(toks, end + 1, found));
            },
            None => {
                lemma_program_braces(toks, end + 1, acc);
                assert(parse_program(toks, i, acc) == parse_program(toks, end + 1, acc));
            },
        }
    } else {
        assert(parse_program(toks, i, acc) == acc);
    }
}

/// The offsets of a keymaps block bound the block exactly: the first is
/// that of an opening brace of the source, the second that of a closing
/// brace behind it.
pub proof fn lemma_block_bounds(src: Seq<u8>, k: int)
    requires
        0 <= k < parse_tokens(tokens_of(src)).len(),
    ensures
        parse_tokens(tokens_of(src))[k] matches Statement::Keymaps(start, end, _) ==> 0 <= start
            < end < src.len() && src[start] == 0x7b && src[end] == 0x7d,
{
    let toks = tokens_of(src);
    lemma_program_braces(toks, 0, Seq::empty());
    let statement = parse_tokens(toks)[k];
    assert(braces_found(toks, statement));
    if let Statement::Keymaps(start, end, _) = statement {
        let (a, b) = choose|a: int, b: int|
            #![trigger toks[a], toks[b]]
            0 <= a < b < toks.len() && toks[a] == Token::LBrace(start) && toks[b]
                == Token::RBrace(end);
        lemma_tokens_placed(src, 0, a);
        lemma_tokens_placed(src, 0, b);
        lemma_tokens_ordered(src, 0, a, b);
    }
}

fn kind_matches(a: &TokenType, b: &TokenType) -> (yes: bool)
    ensures
        yes == same_kind(a@, b@),
{
    match (a, b) {
        (TokenType::LParen(_), TokenType::LParen(_)) => true,
        (TokenType::RParen(_), TokenType::RParen(_)) => true,
        (TokenType::LSqBrace(_), TokenType::LSqBrace(_)) => true,
        (TokenType::RSqBrace(_), TokenType::RSqBrace(_)) => true,
        (TokenType::Equals(_), TokenType::Equals(_)) => true,
        (TokenType::Comma(_), TokenType::Comma(_)) => true,
        (TokenType::Layout(_), TokenType::Layout(_)) => true,
        (TokenType::Blank(_), TokenType::Blank(_)) => true,
        (TokenType::Ident(_, _), TokenType::Ident(_, _)) => true,
        (TokenType::Const(_), TokenType::Const(_)) => true,
        (TokenType::Comment(_, _, _), TokenType::Comment(_, _, _)) => true,
        (TokenType::Progmem(_), TokenType::Progmem(_)) => true,
        (TokenType::EOF, TokenType::EOF) => true,
        (TokenType::LBrace(_), TokenType::LBrace(_)) => true,
        (TokenType::RBrace(_), TokenType::RBrace(_)) => true,
        _ => false,
    }
}

fn expected_in_header(k: usize) -> (token: TokenType)
    ensures
        token@ == header_token(k as int),
{
    if k == 0 || k == 2 || k == 6 || k == 9 {
        TokenType::Ident(0, String::new())
    } else if k == 1 {
        TokenType::Progmem(0)
    } else if k == 3 || k == 5 || k == 8 {
        TokenType::LSqBrace(0)
    } else if k == 4 || k == 7 || k == 10 {
        TokenType::RSqBrace(0)
    } else {
        TokenType::Equals(0)
    }
}

/// Reads the statements of a source text from its tokens.
pub struct Parser {
    tokens: Vec<TokenType>,
    position: usize,
}

impl Parser {
    #[verifier::type_invariant]
    spec fn inv(self) -> bool {
        self.position <= self.tokens.len()
    }

    /// The tokens that the parser walks, without the closing `EOF`.
    pub closed spec fn tokens(&self) -> Seq<Token> {
        self.tokens.deep_view()
    }

    /// The place of the current token among the tokens.
    pub closed spec fn cursor(&self) -> int {
        self.position as int
    }

    /// A parser on the tokens that `lexer` has still to give, with the
    /// cursor on the first of them.
    pub fn new(lexer: Lexer) -> (parser: Self)
        ensures
            parser.tokens() == tokens_from(lexer.source(), lexer.offset()),
            parser.cursor() == 0,
    {
        let ghost src = lexer.source();
        let ghost start = lexer.offset();
        let mut reader = lexer;
        let mut tokens: Vec<TokenType> = Vec::new();
        assert(tokens.deep_view() =~= Seq::<Token>::empty());
        loop
            invariant
                reader.source() == src,
                tokens_from(src, start) == tokens.deep_view() + tokens_from(src, reader.offset()),
            ensures
                tokens.deep_view() == tokens_from(src, start),
            decreases src.len() - reader.offset(),
        {
            let ghost read = tokens.deep_view();
            let token = reader.next_token();
            match token {
                TokenType::EOF => {
                    assert(read + Seq::<Token>::empty() =~= read);
                    break;
                },
                _ => {
                    tokens.push(token);
                    assert(tokens.deep_view() =~= read.push(token@));
                    assert(read.push(token@) + tokens_from(src, reader.offset()) =~= read + (
                    seq![token@] + tokens_from(src, reader.offset())));
                },
            }
        }
        Parser { tokens, position: 0 }
    }

    /// The token `ahead` places behind the current one, if the tokens reach
    /// that far.
    fn peek(&self, ahead: usize) -> (token: Option<&TokenType>)
        ensures
            self.cursor() <= self.tokens().len(),
            match token {
                Some(token) => self.cursor() + ahead < self.tokens().len() && token@
                    == self.tokens()[self.cursor() + ahead],
                None => self.cursor() + ahead >= self.tokens().len(),
            },
    {
        proof {
            use_type_invariant(self);
        }
        if ahead < self.tokens.len() - self.position {
            Some(&self.tokens[self.position + ahead])
        } else {
            None
        }
    }

    /// Moves the cursor to the next token, unless it is behind the last.
    fn next_token(&mut self)
        ensures
            final(self).tokens() == old(self).tokens(),
            old(self).cursor() <= old(self).tokens().len(),
            final(self).cursor() == (if old(self).cursor() < old(self).tokens().len() {
                old(self).cursor() + 1
            } else {
                old(self).cursor()
            }),
    {
        proof {
            use_type_invariant(&*self);
        }
        if self.position < self.tokens.len() {
            self.position = self.position + 1;
        }
    }

    /// Reads all statements from the cursor on.
    pub fn parse(&mut self) -> (ast: AST)
        ensures
            final(self).tokens() == old(self).tokens(),
            final(self).cursor() == old(self).tokens().len(),
            ast@ == parse_program(old(self).tokens(), old(self).cursor(), Seq::empty()),
    {
        let ghost toks = self.tokens();
        let ghost start = self.cursor();
        let mut ast = AST::new();
        proof {
            use_type_invariant(&*self);
        }
        while self.position < self.tokens.len()
            invariant
                self.tokens() == toks,
                0 <= self.cursor() <= toks.len(),
                parse_program(toks, self.cursor(), ast@) == parse_program(toks, start, Seq::empty()),
            decreases toks.len() - self.cursor(),
        {
            proof {
                lemma_parse_statement_cursor(toks, self.cursor());
            }
            if let Some(statement) = self.parse_statement() {
                push_statement(&mut ast.statements, statement);
            }
            self.next_token();
            proof {
                let n = toks.len() as int;
                assert(parse_program(toks, n, ast@) == ast@);
                assert(parse_program(toks, n + 1, ast@) == ast@);
            }
        }
        proof {
            assert(parse_program(toks, self.cursor(), ast@) == ast@);
        }
        ast
    }

    fn parse_statement(&mut self) -> (statement: Option<StatementEnum>)
        requires
            old(self).cursor() < old(self).tokens().len(),
        ensures
            final(self).tokens() == old(self).tokens(),
            statement.deep_view() == parse_statement(old(self).tokens(), old(self).cursor()).0,
            final(self).cursor() == parse_statement(old(self).tokens(), old(self).cursor()).1,
    {
        let kind: u8 = match self.peek(0) {
            Some(TokenType::LSqBrace(_)) => 1,
            Some(TokenType::Const(_)) => 2,
            _ => 0,
        };
        if kind == 1 {
            match self.parse_keymap_statement() {
                Some(table) => Some(StatementEnum::KeymapStatement(table)),
                None => None,
            }
        } else if kind == 2 {
            self.parse_assignment()
        } else {
            None
        }
    }

    /// Moves to the next token where it is of the variant of `expected`.
    fn expect_peek(&mut self, expected: &TokenType) -> (found: bool)
        requires
            !(expected@ is EOF),
        ensures
            final(self).tokens() == old(self).tokens(),
            found == same_kind(peek(old(self).tokens(), old(self).cursor() + 1), expected@),
            final(self).cursor() == (if found {
                old(self).cursor() + 1
            } else {
                old(self).cursor()
            }),
    {
        let found = match self.peek(1) {
            Some(token) => kind_matches(token, expected),
            None => kind_matches(&TokenType::EOF, expected),
        };
        if found {
            self.next_token();
        }
        found
    }

    fn parse_assignment(&mut self) -> (statement: Option<StatementEnum>)
        requires
            old(self).cursor() < old(self).tokens().len(),
        ensures
            final(self).tokens() == old(self).tokens(),
            statement.deep_view() == parse_block(old(self).tokens(), old(self).cursor()).0,
            final(self).cursor() == parse_block(old(self).tokens(), old(self).cursor()).1,
    {
        let ghost toks = self.tokens();
        let ghost at = self.cursor();
        let mut k: usize = 0;
        while k < 12
            invariant
                self.tokens() == toks,
                toks == old(self).tokens(),
                at == old(self).cursor(),
                0 <= k <= 12,
                self.cursor() == at + k,
                at + k < toks.len(),
                header_matched(toks, at, k as int) == header_matched(toks, at, 0),
            decreases 12 - k,
        {
            let expected = expected_in_header(k);
            if !self.expect_peek(&expected) {
                return None;
            }
            k = k + 1;
        }
        let start: usize = match self.peek(1) {
            Some(TokenType::LBrace(start)) => *start,
            _ => {
                return None;
            },
        };
        let mut keymaps: Vec<KeymapStatement> = Vec::new();
        assert(keymaps.deep_view() =~= Seq::<KeyTable>::empty());
        loop
            invariant
                self.tokens() == toks,
                0 <= self.cursor() <= toks.len(),
                block_body(toks, self.cursor(), keymaps.deep_view()) == block_body(
                    toks,
                    at + 12,
                    Seq::empty(),
                ),
            ensures
                block_body(toks, at + 12, Seq::empty()) == (keymaps.deep_view(), self.cursor()),
            decreases toks.len() - self.cursor(),
        {
            let more = match self.peek(1) {
                Some(TokenType::RBrace(_)) => false,
                Some(_) => true,
                None => false,
            };
            if !more {
                break;
            }
            self.next_token();
            let table_here = match self.peek(0) {
                Some(TokenType::LSqBrace(_)) => true,
                _ => false,
            };
            if table_here {
                proof {
                    lemma_parse_table_cursor(toks, self.cursor());
                }
                if let Some(table) = self.parse_keymap_statement() {
                    push_table(&mut keymaps, table);
                }
            }
        }
        let end: usize = match self.peek(1) {
            Some(TokenType::RBrace(end)) => *end,
            _ => {
                return None;
            },
        };
        Some(StatementEnum::Keymaps(start, end, keymaps))
    }

    fn parse_keymap_statement(&mut self) -> (statement: Option<KeymapStatement>)
        requires
            old(self).cursor() < old(self).tokens().len(),
        ensures
            final(self).tokens() == old(self).tokens(),
            statement.deep_view() == parse_table(old(self).tokens(), old(self).cursor()).0,
            final(self).cursor() == parse_table(old(self).tokens(), old(self).cursor()).1,
    {
        let token = match self.peek(1) {
            Some(TokenType::Ident(at, text)) => TokenType::Ident(*at, text.clone()),
            _ => {
                return None;
            },
        };
        self.next_token();
        match self.peek(1) {
            Some(TokenType::RSqBrace(_)) => {},
            _ => {
                return None;
            },
        }
        self.next_token();
        match self.parse_layout_statement() {
            Some(layout) => Some(KeymapStatement::new(token, layout)),
            None => None,
        }
    }

    fn parse_layout_statement(&mut self) -> (statement: Option<LayoutStatement>)
        requires
            old(self).cursor() < old(self).tokens().len(),
        ensures
            final(self).tokens() == old(self).tokens(),
            statement.deep_view() == parse_layout(old(self).tokens(), old(self).cursor()).0,
            final(self).cursor() == parse_layout(old(self).tokens(), old(self).cursor()).1,
    {
        if !self.expect_peek(&TokenType::Equals(0)) {
            return None;
        }
        if !self.expect_peek(&TokenType::Layout(0)) {
            return None;
        }
        let token = match self.peek(0) {
            Some(token) => token.clone(),
            None => {
                return None;
            },
        };
        match self.peek(1) {
            Some(TokenType::LParen(_)) => {},
            _ => {
                return None;
            },
        }
        self.next_token();
        match self.parse_layout_keys() {
            Some(keys) => Some(LayoutStatement::new(token, keys)),
            None => None,
        }
    }

    fn parse_layout_keys(&mut self) -> (keys: Option<Vec<String>>)
        requires
            old(self).cursor() < old(self).tokens().len(),
        ensures
            final(self).tokens() == old(self).tokens(),
            keys.deep_view() == parse_keys(
                old(self).tokens(),
                old(self).cursor() + 1,
                Seq::empty(),
            ).0,
            final(self).cursor() == parse_keys(
                old(self).tokens(),
                old(self).cursor() + 1,
                Seq::empty(),
            ).1,
    {
        let ghost toks = self.tokens();
        let ghost at = self.cursor();
        self.next_token();
        let mut keys: Vec<String> = Vec::new();
        assert(keys.deep_view() =~= Seq::<Seq<char>>::empty());
        loop
            invariant
                self.tokens() == toks,
                toks == old(self).tokens(),
                at == old(self).cursor(),
                0 <= self.cursor() <= toks.len(),
                parse_keys(toks, self.cursor(), keys.deep_view()) == parse_keys(
                    toks,
                    at + 1,
                    Seq::empty(),
                ),
            decreases toks.len() - self.cursor(),
        {
            let kind: u8 = match self.peek(0) {
                None => 0,
                Some(TokenType::RParen(_)) => 1,
                Some(TokenType::Ident(_, _)) => match self.peek(1) {
                    Some(TokenType::LParen(_)) => 2,
                    _ => 3,
                },
                Some(TokenType::Blank(_)) => 4,
                Some(_) => 5,
            };
            if kind == 0 {
                return None;
            } else if kind == 1 {
                return Some(keys);
            } else if kind == 2 {
                proof {
                    lemma_closing_paren(toks, self.cursor() + 1);
                }
                match self.parse_function_keymap() {
                    Some(key) => push_text(&mut keys, key),
                    None => {
                        return None;
                    },
                }
            } else if kind == 3 {
                let text = match self.peek(0) {
                    Some(token) => token.to_string(),
                    None => String::new(),
                };
                push_text(&mut keys, text);
            } else if kind == 4 {
                push_text(&mut keys, String::new());
            }
            self.next_token();
        }
    }

    fn parse_function_keymap(&mut self) -> (key: Option<String>)
        requires
            old(self).cursor() < old(self).tokens().len(),
        ensures
            final(self).tokens() == old(self).tokens(),
            key.deep_view() == compound_key(old(self).tokens(), old(self).cursor()).0,
            final(self).cursor() == compound_key(old(self).tokens(), old(self).cursor()).1,
    {
        let ghost toks = self.tokens();
        let ghost at = self.cursor();
        let mut key = String::new();
        loop
            invariant_except_break
                closing_paren(toks, self.cursor() + 1) == closing_paren(toks, at + 1),
            invariant
                self.tokens() == toks,
                toks == old(self).tokens(),
                at == old(self).cursor(),
                at <= self.cursor() < toks.len(),
                key@ == joined_text(toks, at, self.cursor()),
            ensures
                self.cursor() == closing_paren(toks, at + 1),
                toks[self.cursor()] is RParen,
            decreases toks.len() - self.cursor(),
        {
            let text = match self.peek(0) {
                Some(token) => token.to_string(),
                None => String::new(),
            };
            key.append(text.as_str());
            self.next_token();
            match self.peek(0) {
                None => {
                    return None;
                },
                Some(TokenType::RParen(_)) => {
                    break;
                },
                Some(_) => {},
            }
        }
        key.append(")");
        Some(key)
    }
}

} // verus!
