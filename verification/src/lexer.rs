//! The lexer: from the bytes of a source text to tokens that know where they
//! start.

use crate::text::{
    bytes_of, is_ascii_byte, lemma_ascii_ends_char, lemma_ascii_starts_char,
    lemma_boundary_by_byte, lemma_decode_ascii_byte, slice_text, text_between,
};
use vstd::prelude::*;
use vstd::utf8::*;

verus! {

/// A token. Every variant but `EOF` carries the byte offset at which the
/// token starts; a comment also carries the offset at which it ends.
#[derive(Debug, PartialEq)]
pub enum TokenType {
    LParen(usize),
    RParen(usize),
    LSqBrace(usize),
    RSqBrace(usize),
    Equals(usize),
    Comma(usize),
    Layout(usize),
    Blank(usize),
    Ident(usize, String),
    Const(usize),
    Comment(usize, usize, String),
    Progmem(usize),
    EOF,
    LBrace(usize),
    RBrace(usize),
}

/// What a `TokenType` stands for: the same variants over mathematical
/// integers and sequences of characters.
pub enum Token {
    LParen(int),
    RParen(int),
    LSqBrace(int),
    RSqBrace(int),
    Equals(int),
    Comma(int),
    Layout(int),
    Blank(int),
    Ident(int, Seq<char>),
    Const(int),
    Comment(int, int, Seq<char>),
    Progmem(int),
    EOF,
    LBrace(int),
    RBrace(int),
}

impl View for TokenType {
    type V = Token;

    open spec fn view(&self) -> Token {
        match self {
            TokenType::LParen(p) => Token::LParen(*p as int),
            TokenType::RParen(p) => Token::RParen(*p as int),
            TokenType::LSqBrace(p) => Token::LSqBrace(*p as int),
            TokenType::RSqBrace(p) => Token::RSqBrace(*p as int),
            TokenType::Equals(p) => Token::Equals(*p as int),
            TokenType::Comma(p) => Token::Comma(*p as int),
            TokenType::Layout(p) => Token::Layout(*p as int),
            TokenType::Blank(p) => Token::Blank(*p as int),
            TokenType::Ident(p, text) => Token::Ident(*p as int, text@),
            TokenType::Const(p) => Token::Const(*p as int),
            TokenType::Comment(p, q, text) => Token::Comment(*p as int, *q as int, text@),
            TokenType::Progmem(p) => Token::Progmem(*p as int),
            TokenType::EOF => Token::EOF,
            TokenType::LBrace(p) => Token::LBrace(*p as int),
            TokenType::RBrace(p) => Token::RBrace(*p as int),
        }
    }
}

impl DeepView for TokenType {
    type V = Token;

    open spec fn deep_view(&self) -> Token {
        self@
    }
}

impl Token {
    /// The text that a token is written back as. A blank is written as seven
    /// underscores, however many the source had.
    pub open spec fn text(self) -> Seq<char> {
        match self {
            Token::LParen(_) => "("@,
            Token::RParen(_) => ")"@,
            Token::LSqBrace(_) => "["@,
            Token::RSqBrace(_) => "]"@,
            Token::Equals(_) => "="@,
            Token::Comma(_) => ","@,
            Token::Layout(_) => "LAYOUT"@,
            Token::Blank(_) => "_______"@,
            Token::Ident(_, text) => text,
            Token::Const(_) => "const"@,
            Token::Comment(_, _, text) => text,
            Token::Progmem(_) => "PROGMEM"@,
            Token::EOF => Seq::<char>::empty(),
            Token::LBrace(_) => "{"@,
            Token::RBrace(_) => "}"@,
        }
    }
}

impl Clone for TokenType {
    fn clone(&self) -> (copy: Self)
        ensures
            copy@ == self@,
    {
        match self {
            TokenType::LParen(p) => TokenType::LParen(*p),
            TokenType::RParen(p) => TokenType::RParen(*p),
            TokenType::LSqBrace(p) => TokenType::LSqBrace(*p),
            TokenType::RSqBrace(p) => TokenType::RSqBrace(*p),
            TokenType::Equals(p) => TokenType::Equals(*p),
            TokenType::Comma(p) => TokenType::Comma(*p),
            TokenType::Layout(p) => TokenType::Layout(*p),
            TokenType::Blank(p) => TokenType::Blank(*p),
            TokenType::Ident(p, text) => TokenType::Ident(*p, text.clone()),
            TokenType::Const(p) => TokenType::Const(*p),
            TokenType::Comment(p, q, text) => TokenType::Comment(*p, *q, text.clone()),
            TokenType::Progmem(p) => TokenType::Progmem(*p),
            TokenType::EOF => TokenType::EOF,
            TokenType::LBrace(p) => TokenType::LBrace(*p),
            TokenType::RBrace(p) => TokenType::RBrace(*p),
        }
    }
}

impl TokenType {
    /// The text that the token is written back as.
    pub fn to_string(&self) -> (s: String)
        ensures
            s@ == self@.text(),
    {
        match self {
            TokenType::LParen(_) => String::from_str("("),
            TokenType::RParen(_) => String::from_str(")"),
            TokenType::LSqBrace(_) => String::from_str("["),
            TokenType::RSqBrace(_) => String::from_str("]"),
            TokenType::Equals(_) => String::from_str("="),
            TokenType::Comma(_) => String::from_str(","),
            TokenType::Layout(_) => String::from_str("LAYOUT"),
            TokenType::Blank(_) => String::from_str("_______"),
            TokenType::Ident(_, text) => text.clone(),
            TokenType::Const(_) => String::from_str("const"),
            TokenType::Comment(_, _, text) => text.clone(),
            TokenType::Progmem(_) => String::from_str("PROGMEM"),
            TokenType::EOF => String::new(),
            TokenType::LBrace(_) => String::from_str("{"),
            TokenType::RBrace(_) => String::from_str("}"),
        }
    }
}

/// Space, tab, line feed and carriage return separate tokens.
pub open spec fn is_space(b: u8) -> bool {
    b == 0x20 || b == 0x09 || b == 0x0a || b == 0x0d
}

/// The bytes of an identifier: ASCII letters, digits and the underscore.
pub open spec fn is_word_byte(b: u8) -> bool {
    (0x30 <= b <= 0x39) || (0x41 <= b <= 0x5a) || (0x61 <= b <= 0x7a) || b == 0x5f
}

/// The first place at or after `pos` that holds no white space.
pub open spec fn skip_spaces(src: Seq<u8>, pos: int) -> int
    decreases src.len() - pos,
{
    if 0 <= pos < src.len() && is_space(src[pos]) {
        skip_spaces(src, pos + 1)
    } else {
        pos
    }
}

/// The first place at or after `pos` that holds no byte of an identifier.
pub open spec fn word_end(src: Seq<u8>, pos: int) -> int
    decreases src.len() - pos,
{
    if 0 <= pos < src.len() && is_word_byte(src[pos]) {
        word_end(src, pos + 1)
    } else {
        pos
    }
}

/// The place of the first line feed at or after `pos`, or the end of the
/// source where there is none.
pub open spec fn line_end(src: Seq<u8>, pos: int) -> int
    decreases src.len() - pos,
{
    if 0 <= pos < src.len() && src[pos] != 0x0a {
        line_end(src, pos + 1)
    } else {
        pos
    }
}

/// Every byte from `from` up to `to` is an underscore.
pub open spec fn all_underscores(src: Seq<u8>, from: int, to: int) -> bool {
    forall|i: int| from <= i < to ==> src[i] == 0x5f
}

/// The token that the word from `from` up to `to` makes: one of the three
/// reserved words, a blank where it is made of underscores alone, and
/// otherwise an identifier with the word as its text.
pub open spec fn word_token(src: Seq<u8>, from: int, to: int) -> Token {
    let word = text_between(src, from, to);
    if word == "LAYOUT"@ {
        Token::Layout(from)
    } else if word == "const"@ {
        Token::Const(from)
    } else if word == "PROGMEM"@ {
        Token::Progmem(from)
    } else if all_underscores(src, from, to) {
        Token::Blank(from)
    } else {
        Token::Ident(from, word)
    }
}

/// The text of an identifier made of one byte that means nothing else: the
/// character itself for an ASCII byte, and the replacement character for a
/// byte that is only part of a character.
pub open spec fn byte_text(b: u8) -> Seq<char> {
    if is_ascii_byte(b) {
        seq![b as char]
    } else {
        "\u{fffd}"@
    }
}

/// Two slashes open a comment.
pub open spec fn comment_starts(src: Seq<u8>, at: int) -> bool {
    0 <= at && at + 1 < src.len() && src[at] == 0x2f && src[at + 1] == 0x2f
}

/// The token that starts at `at`, a place that holds no white space, and
/// the place where it ends.
pub open spec fn lexeme_at(src: Seq<u8>, at: int) -> (Token, int) {
    if !(0 <= at < src.len()) {
        (Token::EOF, at)
    } else if src[at] == 0x28 {
        (Token::LParen(at), at + 1)
    } else if src[at] == 0x29 {
        (Token::RParen(at), at + 1)
    } else if src[at] == 0x7b {
        (Token::LBrace(at), at + 1)
    } else if src[at] == 0x7d {
        (Token::RBrace(at), at + 1)
    } else if src[at] == 0x5b {
        (Token::LSqBrace(at), at + 1)
    } else if src[at] == 0x5d {
        (Token::RSqBrace(at), at + 1)
    } else if src[at] == 0x2c {
        (Token::Comma(at), at + 1)
    } else if src[at] == 0x3d {
        (Token::Equals(at), at + 1)
    } else if comment_starts(src, at) {
        let end = line_end(src, at);
        (Token::Comment(at, end, text_between(src, at, end)), end)
    } else if is_word_byte(src[at]) {
        let end = word_end(src, at);
        (word_token(src, at, end), end)
    } else {
        (Token::Ident(at, byte_text(src[at])), at + 1)
    }
}

/// The next token at or after `pos`.
pub open spec fn token_at(src: Seq<u8>, pos: int) -> Token {
    lexeme_at(src, skip_spaces(src, pos)).0
}

/// The place where the next token at or after `pos` ends.
pub open spec fn token_end(src: Seq<u8>, pos: int) -> int {
    lexeme_at(src, skip_spaces(src, pos)).1
}

/// The tokens of `src` from `pos` on, without the closing `EOF`.
pub open spec fn tokens_from(src: Seq<u8>, pos: int) -> Seq<Token>
    decreases src.len() - pos,
    when 0 <= pos <= src.len()
    via tokens_from_decreases
{
    if token_at(src, pos) is EOF {
        Seq::empty()
    } else {
        seq![token_at(src, pos)] + tokens_from(src, token_end(src, pos))
    }
}

#[via_fn]
proof fn tokens_from_decreases(src: Seq<u8>, pos: int) {
    lemma_token_advances(src, pos);
}

/// The tokens of a source text, without the closing `EOF`.
pub open spec fn tokens_of(src: Seq<u8>) -> Seq<Token> {
    tokens_from(src, 0)
}

/// Skipping white space moves forward, stays inside the source, and stops
/// at its end or before a byte that is no white space.
pub proof fn lemma_skip_spaces(src: Seq<u8>, pos: int)
    requires
        0 <= pos <= src.len(),
    ensures
        pos <= skip_spaces(src, pos) <= src.len(),
        skip_spaces(src, pos) < src.len() ==> !is_space(src[skip_spaces(src, pos)]),
    decreases src.len() - pos,
{
    if pos < src.len() && is_space(src[pos]) {
        lemma_skip_spaces(src, pos + 1);
    }
}

/// A word ends inside the source, holds bytes of an identifier only, and is
/// followed by none.
pub proof fn lemma_word_end(src: Seq<u8>, pos: int)
    requires
        0 <= pos <= src.len(),
    ensures
        pos <= word_end(src, pos) <= src.len(),
        forall|i: int| pos <= i < word_end(src, pos) ==> is_word_byte(src[i]),
        word_end(src, pos) < src.len() ==> !is_word_byte(src[word_end(src, pos)]),
        pos < src.len() && is_word_byte(src[pos]) ==> pos < word_end(src, pos),
    decreases src.len() - pos,
{
    if pos < src.len() && is_word_byte(src[pos]) {
        lemma_word_end(src, pos + 1);
    }
}

/// A line ends inside the source, at a line feed or at the end, and holds
/// no line feed.
pub proof fn lemma_line_end(src: Seq<u8>, pos: int)
    requires
        0 <= pos <= src.len(),
    ensures
        pos <= line_end(src, pos) <= src.len(),
        forall|i: int| pos <= i < line_end(src, pos) ==> src[i] != 0x0a,
        line_end(src, pos) < src.len() ==> src[line_end(src, pos)] == 0x0a,
    decreases src.len() - pos,
{
    if pos < src.len() && src[pos] != 0x0a {
        lemma_line_end(src, pos + 1);
    }
}

/// Every token but `EOF` takes at least one byte, and none ends behind the
/// source. `EOF` comes at the end of the source and nowhere else.
pub proof fn lemma_token_advances(src: Seq<u8>, pos: int)
    requires
        0 <= pos <= src.len(),
    ensures
        pos <= token_end(src, pos) <= src.len(),
        token_at(src, pos) != Token::EOF ==> pos < token_end(src, pos),
        token_at(src, pos) == Token::EOF <==> skip_spaces(src, pos) == src.len(),
{
    lemma_skip_spaces(src, pos);
    let at = skip_spaces(src, pos);
    if at < src.len() {
        lemma_line_end(src, at);
        lemma_word_end(src, at);
    }
}

impl Token {
    /// The byte offset at which the token starts; `EOF` has none, and gets
    /// `-1`.
    pub open spec fn offset(self) -> int {
        match self {
            Token::LParen(at) => at,
            Token::RParen(at) => at,
            Token::LSqBrace(at) => at,
            Token::RSqBrace(at) => at,
            Token::Equals(at) => at,
            Token::Comma(at) => at,
            Token::Layout(at) => at,
            Token::Blank(at) => at,
            Token::Ident(at, _) => at,
            Token::Const(at) => at,
            Token::Comment(at, _, _) => at,
            Token::Progmem(at) => at,
            Token::EOF => -1,
            Token::LBrace(at) => at,
            Token::RBrace(at) => at,
        }
    }
}

/// A token of one character stands where the source holds that character.
pub open spec fn spelled(src: Seq<u8>, token: Token) -> bool {
    match token {
        Token::LParen(at) => src[at] == 0x28,
        Token::RParen(at) => src[at] == 0x29,
        Token::LSqBrace(at) => src[at] == 0x5b,
        Token::RSqBrace(at) => src[at] == 0x5d,
        Token::Equals(at) => src[at] == 0x3d,
        Token::Comma(at) => src[at] == 0x2c,
        Token::LBrace(at) => src[at] == 0x7b,
        Token::RBrace(at) => src[at] == 0x7d,
        _ => true,
    }
}

/// A token starts where it says, inside the source and before its end, and
/// a token of one character is the character found there.
pub proof fn lemma_token_placed(src: Seq<u8>, pos: int)
    requires
        0 <= pos <= src.len(),
        !(token_at(src, pos) is EOF),
    ensures
        pos <= token_at(src, pos).offset() < token_end(src, pos) <= src.len(),
        token_at(src, pos).offset() == skip_spaces(src, pos),
        spelled(src, token_at(src, pos)),
{
    lemma_token_advances(src, pos);
    lemma_skip_spaces(src, pos);
    let at = skip_spaces(src, pos);
    lemma_line_end(src, at);
    lemma_word_end(src, at);
}

/// Every token of a source starts inside the source, at or behind the place
/// from which the tokens were read, and is spelled there. None is `EOF`.
pub proof fn lemma_tokens_placed(src: Seq<u8>, pos: int, k: int)
    requires
        0 <= pos <= src.len(),
        0 <= k < tokens_from(src, pos).len(),
    ensures
        pos <= tokens_from(src, pos)[k].offset() < src.len(),
        spelled(src, tokens_from(src, pos)[k]),
        !(tokens_from(src, pos)[k] is EOF),
    decreases k,
{
    lemma_token_advances(src, pos);
    lemma_token_placed(src, pos);
    if k > 0 {
        let rest = tokens_from(src, token_end(src, pos));
        assert(tokens_from(src, pos)[k] == rest[k - 1]);
        lemma_tokens_placed(src, token_end(src, pos), k - 1);
    }
}

/// The tokens of a source come in the order of their offsets.
pub proof fn lemma_tokens_ordered(src: Seq<u8>, pos: int, j: int, k: int)
    requires
        0 <= pos <= src.len(),
        0 <= j < k < tokens_from(src, pos).len(),
    ensures
        tokens_from(src, pos)[j].offset() < tokens_from(src, pos)[k].offset(),
    decreases j,
{
    lemma_token_advances(src, pos);
    lemma_token_placed(src, pos);
    let rest = tokens_from(src, token_end(src, pos));
    assert(tokens_from(src, pos)[k] == rest[k - 1]);
    if j == 0 {
        lemma_tokens_placed(src, token_end(src, pos), k - 1);
    } else {
        assert(tokens_from(src, pos)[j] == rest[j - 1]);
        lemma_tokens_ordered(src, token_end(src, pos), j - 1, k - 1);
    }
}

fn space(b: u8) -> (yes: bool)
    ensures
        yes == is_space(b),
{
    b == 0x20 || b == 0x09 || b == 0x0a || b == 0x0d
}

fn word_byte(b: u8) -> (yes: bool)
    ensures
        yes == is_word_byte(b),
{
    (0x30 <= b && b <= 0x39) || (0x41 <= b && b <= 0x5a) || (0x61 <= b && b <= 0x7a) || b == 0x5f
}

/// Reads a source text token by token.
pub struct Lexer {
    content: String,
    position: usize,
}

impl Lexer {
    #[verifier::type_invariant]
    spec fn inv(self) -> bool {
        self.position <= bytes_of(self.content@).len()
    }

    /// The bytes of the text that is read.
    pub closed spec fn source(&self) -> Seq<u8> {
        bytes_of(self.content@)
    }

    /// The place in the source where the next token is looked for.
    pub closed spec fn offset(&self) -> int {
        self.position as int
    }

    /// A lexer at the start of `content`.
    pub fn new(content: &str) -> (lexer: Self)
        ensures
            lexer.source() == bytes_of(content@),
            lexer.offset() == 0,
    {
        Lexer { content: String::from_str(content), position: 0 }
    }

    /// Reads the next token and moves behind it. At the end of the source
    /// the token is `EOF`, and the lexer stays where it is.
    pub fn next_token(&mut self) -> (token: TokenType)
        ensures
            final(self).source() == old(self).source(),
            token@ == token_at(old(self).source(), old(self).offset()),
            final(self).offset() == token_end(old(self).source(), old(self).offset()),
            0 <= old(self).offset() <= final(self).offset() <= old(self).source().len(),
            !(token@ is EOF) ==> old(self).offset() < final(self).offset(),
    {
        broadcast use encode_utf8_valid_utf8;

        proof {
            use_type_invariant(&*self);
            lemma_token_advances(self.source(), self.offset());
        }
        let text = self.content.as_str();
        let bytes = text.as_bytes();
        let ghost src = bytes@;
        let at = Self::skip_whitespace(bytes, self.position);
        if at >= bytes.len() {
            self.position = at;
            return TokenType::EOF;
        }
        let b = bytes[at];
        if b == 0x28 {
            self.position = at + 1;
            TokenType::LParen(at)
        } else if b == 0x29 {
            self.position = at + 1;
            TokenType::RParen(at)
        } else if b == 0x7b {
            self.position = at + 1;
            TokenType::LBrace(at)
        } else if b == 0x7d {
            self.position = at + 1;
            TokenType::RBrace(at)
        } else if b == 0x5b {
            self.position = at + 1;
            TokenType::LSqBrace(at)
        } else if b == 0x5d {
            self.position = at + 1;
            TokenType::RSqBrace(at)
        } else if b == 0x2c {
            self.position = at + 1;
            TokenType::Comma(at)
        } else if b == 0x3d {
            self.position = at + 1;
            TokenType::Equals(at)
        } else if b == 0x2f && Self::peek_char(bytes, at) == 0x2f {
            let end = Self::read_to_end_of_line(bytes, at);
            proof {
                lemma_ascii_starts_char(src, at as int);
                lemma_boundary_by_byte(src, end as int);
            }
            let line = String::from_str(slice_text(text, at, end));
            self.position = end;
            TokenType::Comment(at, end, line)
        } else if word_byte(b) {
            let end = Self::read_identifier(bytes, at);
            proof {
                lemma_ascii_starts_char(src, at as int);
                lemma_ascii_ends_char(src, end - 1);
            }
            let word = String::from_str(slice_text(text, at, end));
            let blank = Self::only_underscores(bytes, at, end);
            self.position = end;
            if word == String::from_str("LAYOUT") {
                TokenType::Layout(at)
            } else if word == String::from_str("const") {
                TokenType::Const(at)
            } else if word == String::from_str("PROGMEM") {
                TokenType::Progmem(at)
            } else if blank {
                TokenType::Blank(at)
            } else {
                TokenType::Ident(at, word)
            }
        } else if b < 0x80 {
            proof {
                lemma_ascii_starts_char(src, at as int);
                lemma_ascii_ends_char(src, at as int);
                lemma_decode_ascii_byte(b);
                assert(src.subrange(at as int, at + 1) =~= seq![b]);
            }
            let one = String::from_str(slice_text(text, at, at + 1));
            self.position = at + 1;
            TokenType::Ident(at, one)
        } else {
            self.position = at + 1;
            TokenType::Ident(at, String::from_str("\u{fffd}"))
        }
    }

    /// The place of the first line feed at or after `pos`, or the end.
    fn read_to_end_of_line(bytes: &[u8], pos: usize) -> (end: usize)
        requires
            pos <= bytes@.len(),
        ensures
            end == line_end(bytes@, pos as int),
            pos <= end <= bytes@.len(),
            end < bytes@.len() ==> bytes@[end as int] == 0x0a,
    {
        let mut end = pos;
        while end < bytes.len() && bytes[end] != 0x0a
            invariant
                pos <= end <= bytes@.len(),
                line_end(bytes@, end as int) == line_end(bytes@, pos as int),
            decreases bytes@.len() - end,
        {
            end = end + 1;
        }
        end
    }

    /// The place where the word that starts at `pos` ends.
    fn read_identifier(bytes: &[u8], pos: usize) -> (end: usize)
        requires
            pos < bytes@.len(),
            is_word_byte(bytes@[pos as int]),
        ensures
            end == word_end(bytes@, pos as int),
            pos < end <= bytes@.len(),
            forall|i: int| pos <= i < end ==> is_word_byte(bytes@[i]),
    {
        let n = bytes.len();
        let mut end = pos + 1;
        while end < n && word_byte(bytes[end])
            invariant
                n == bytes@.len(),
                pos < end <= n,
                word_end(bytes@, end as int) == word_end(bytes@, pos as int),
                forall|i: int| pos <= i < end ==> is_word_byte(bytes@[i]),
            decreases bytes@.len() - end,
        {
            end = end + 1;
        }
        end
    }

    /// The byte behind the one at `pos`, or zero where the source ends.
    fn peek_char(bytes: &[u8], pos: usize) -> (b: u8)
        requires
            pos < bytes@.len(),
        ensures
            b == (if pos + 1 < bytes@.len() { bytes@[pos + 1] } else { 0 }),
    {
        let n = bytes.len();
        if pos + 1 < n {
            bytes[pos + 1]
        } else {
            0
        }
    }

    /// The first place at or after `pos` that holds no white space.
    fn skip_whitespace(bytes: &[u8], pos: usize) -> (at: usize)
        requires
            pos <= bytes@.len(),
        ensures
            at == skip_spaces(bytes@, pos as int),
            pos <= at <= bytes@.len(),
    {
        let mut at = pos;
        while at < bytes.len() && space(bytes[at])
            invariant
                pos <= at <= bytes@.len(),
                skip_spaces(bytes@, at as int) == skip_spaces(bytes@, pos as int),
            decreases bytes@.len() - at,
        {
            at = at + 1;
        }
        at
    }

    /// Whether the bytes from `from` up to `to` are underscores all.
    fn only_underscores(bytes: &[u8], from: usize, to: usize) -> (yes: bool)
        requires
            from <= to <= bytes@.len(),
        ensures
            yes == all_underscores(bytes@, from as int, to as int),
    {
        let mut i = from;
        while i < to
            invariant
                from <= i <= to <= bytes@.len(),
                all_underscores(bytes@, from as int, i as int),
            decreases to - i,
        {
            if bytes[i] != 0x5f {
                return false;
            }
            i = i + 1;
        }
        true
    }
}

} // verus!
