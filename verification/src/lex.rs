//! The lexer: source text to positioned tokens.

use vstd::prelude::*;
use vstd::string::StringSliceAdditionalSpecFns;
use vstd::utf8::{encode_utf8, is_ascii_chars, is_ascii_chars_encode_utf8, is_char_boundary};
use rustc_lexer::TokenKind;
use crate::text::{
    byte_len, lemma_encode_concat, skip_bytes, split_at_bytes, str_byte_len, strip_prefix,
    take_bytes,
};

verus! {

/// Whether a token must be kept apart from a neighbour of its own kind.
#[derive(Debug, PartialEq, Eq, Clone, Copy, Structural)]
pub enum Affinity {
    Repel,
    Tight,
}

/// A value together with the line and column (both from 1, the column in
/// bytes) at which it starts in the source.
#[derive(Debug, PartialEq, Eq, Clone, Copy)]
pub struct Spanned<T> {
    pub inner: T,
    pub line: usize,
    pub char: usize,
}

impl<T> Spanned<T> {
    pub fn new(inner: T, line: usize, char: usize) -> (s: Self)
        ensures
            s.inner == inner,
            s.line == line,
            s.char == char,
    {
        Self { inner, line, char }
    }

    pub fn into_inner(self) -> (inner: T)
        ensures
            inner == self.inner,
    {
        self.inner
    }

    /// Two spanned values align when they start at the same position.
    pub open spec fn aligned<U>(self, other: Spanned<U>) -> bool {
        self.line == other.line && self.char == other.char
    }

    pub fn aligns_with<U>(&self, other: &Spanned<U>) -> (b: bool)
        ensures
            b == self.aligned(*other),
    {
        self.line == other.line && self.char == other.char
    }
}

/// The coarse classes of lexemes. The first four are the textual tokens,
/// the next three are consumed without producing a token, `Punctuation`
/// stands for every operator and delimiter.
#[derive(Debug, PartialEq, Eq, Clone, Copy, Structural)]
pub enum LexemeKind {
    Ident,
    Lifetime,
    Literal,
    RawIdent,
    Whitespace,
    LineComment,
    BlockComment,
    Unknown,
    Punctuation,
}

impl LexemeKind {
    /// The kinds that become tokens with their own text.
    pub open spec fn is_textual(self) -> bool {
        self is Ident || self is Lifetime || self is Literal || self is RawIdent
    }

    /// The kinds that are consumed and dropped.
    pub open spec fn is_trivia(self) -> bool {
        self is Whitespace || self is LineComment || self is BlockComment
    }
}

/// The model of a token: its class and its exact text.
pub struct Lexeme {
    pub kind: LexemeKind,
    pub text: Seq<char>,
}

/// Number of punctuation tokens.
pub const PUNCTUATION_COUNT: usize = 51;

/// A lexeme of the source.
#[derive(Debug, PartialEq, Eq, Clone, Copy)]
pub enum Token<'a> {
    Ident(&'a str),
    Lifetime(&'a str),
    Literal(&'a str),
    RawIdent(&'a str),
    RangeInclusive,
    VariadicArgs,
    Range,
    PathSeparator,
    ParameterArrow,
    FatArrow,
    EqualCheck,
    NotEqual,
    LessThanEq,
    GreaterThanEq,
    BooleanAnd,
    BooleanOr,
    ShiftRightAssign,
    ShiftLeftAssign,
    ShiftRight,
    ShiftLeft,
    AddAssign,
    SubAssign,
    MulAssign,
    DivAssign,
    ModAssign,
    XorAssign,
    AndAssign,
    OrAssign,
    OpenParen,
    CloseParen,
    OpenBrace,
    CloseBrace,
    OpenBracket,
    CloseBracket,
    Colon,
    Semi,
    Comma,
    Dot,
    At,
    Pound,
    Tilde,
    Question,
    Dollar,
    Eq,
    Not,
    LessThan,
    GreatherThan,
    Minus,
    And,
    Or,
    Plus,
    Star,
    Slash,
    Caret,
    Percent,
}

impl<'a> View for Token<'a> {
    type V = Lexeme;

    open spec fn view(&self) -> Lexeme {
        Lexeme { kind: self.kind(), text: self.text() }
    }
}

impl<'a> Token<'a> {
    /// The class of this token.
    pub open spec fn kind(self) -> LexemeKind {
        match self {
            Token::Ident(_) => LexemeKind::Ident,
            Token::Lifetime(_) => LexemeKind::Lifetime,
            Token::Literal(_) => LexemeKind::Literal,
            Token::RawIdent(_) => LexemeKind::RawIdent,
            _ => LexemeKind::Punctuation,
        }
    }

    /// The exact source text of this token.
    pub open spec fn text(self) -> Seq<char> {
        match self {
            Token::Ident(s) => s@,
            Token::Lifetime(s) => s@,
            Token::Literal(s) => s@,
            Token::RawIdent(s) => s@,
            Token::RangeInclusive => "..="@,
            Token::VariadicArgs => "..."@,
            Token::Range => ".."@,
            Token::PathSeparator => "::"@,
            Token::ParameterArrow => "->"@,
            Token::FatArrow => "=>"@,
            Token::EqualCheck => "=="@,
            Token::NotEqual => "!="@,
            Token::LessThanEq => "<="@,
            Token::GreaterThanEq => ">="@,
            Token::BooleanAnd => "&&"@,
            Token::BooleanOr => "||"@,
            Token::ShiftRightAssign => ">>="@,
            Token::ShiftLeftAssign => "<<="@,
            Token::ShiftRight => ">>"@,
            Token::ShiftLeft => "<<"@,
            Token::AddAssign => "+="@,
            Token::SubAssign => "-="@,
            Token::MulAssign => "*="@,
            Token::DivAssign => "/="@,
            Token::ModAssign => "%="@,
            Token::XorAssign => "^="@,
            Token::AndAssign => "&="@,
            Token::OrAssign => "|="@,
            Token::OpenParen => "("@,
            Token::CloseParen => ")"@,
            Token::OpenBrace => "{"@,
            Token::CloseBrace => "}"@,
            Token::OpenBracket => "["@,
            Token::CloseBracket => "]"@,
            Token::Colon => ":"@,
            Token::Semi => ";"@,
            Token::Comma => ","@,
            Token::Dot => "."@,
            Token::At => "@"@,
            Token::Pound => "#"@,
            Token::Tilde => "~"@,
            Token::Question => "?"@,
            Token::Dollar => "$"@,
            Token::Eq => "="@,
            Token::Not => "!"@,
            Token::LessThan => "<"@,
            Token::GreatherThan => ">"@,
            Token::Minus => "-"@,
            Token::And => "&"@,
            Token::Or => "|"@,
            Token::Plus => "+"@,
            Token::Star => "*"@,
            Token::Slash => "/"@,
            Token::Caret => "^"@,
            Token::Percent => "%"@,
        }
    }

    /// Identifier-like, literal-like and lifetime-like tokens repel; all
    /// punctuation is tight.
    pub open spec fn affinity_of(self) -> Affinity {
        if self.kind().is_textual() {
            Affinity::Repel
        } else {
            Affinity::Tight
        }
    }

    pub fn as_str(&self) -> (s: &'a str)
        ensures
            s@ == self.text(),
    {
        match self {
            Token::Ident(s) => s,
            Token::Lifetime(s) => s,
            Token::Literal(s) => s,
            Token::RawIdent(s) => s,
            Token::RangeInclusive => "..=",
            Token::VariadicArgs => "...",
            Token::Range => "..",
            Token::PathSeparator => "::",
            Token::ParameterArrow => "->",
            Token::FatArrow => "=>",
            Token::EqualCheck => "==",
            Token::NotEqual => "!=",
            Token::LessThanEq => "<=",
            Token::GreaterThanEq => ">=",
            Token::BooleanAnd => "&&",
            Token::BooleanOr => "||",
            Token::ShiftRightAssign => ">>=",
            Token::ShiftLeftAssign => "<<=",
            Token::ShiftRight => ">>",
            Token::ShiftLeft => "<<",
            Token::AddAssign => "+=",
            Token::SubAssign => "-=",
            Token::MulAssign => "*=",
            Token::DivAssign => "/=",
            Token::ModAssign => "%=",
            Token::XorAssign => "^=",
            Token::AndAssign => "&=",
            Token::OrAssign => "|=",
            Token::OpenParen => "(",
            Token::CloseParen => ")",
            Token::OpenBrace => "{",
            Token::CloseBrace => "}",
            Token::OpenBracket => "[",
            Token::CloseBracket => "]",
            Token::Colon => ":",
            Token::Semi => ";",
            Token::Comma => ",",
            Token::Dot => ".",
            Token::At => "@",
            Token::Pound => "#",
            Token::Tilde => "~",
            Token::Question => "?",
            Token::Dollar => "$",
            Token::Eq => "=",
            Token::Not => "!",
            Token::LessThan => "<",
            Token::GreatherThan => ">",
            Token::Minus => "-",
            Token::And => "&",
            Token::Or => "|",
            Token::Plus => "+",
            Token::Star => "*",
            Token::Slash => "/",
            Token::Caret => "^",
            Token::Percent => "%",
        }
    }

    /// Length of the token's text in bytes.
    #[allow(clippy::len_without_is_empty)]
    pub fn len(&self) -> (n: usize)
        ensures
            n == byte_len(self.text()),
    {
        str_byte_len(self.as_str())
    }

    pub fn affinity(&self) -> (a: Affinity)
        ensures
            a == self.affinity_of(),
    {
        match self {
            Token::Ident(_) | Token::Lifetime(_) | Token::Literal(_) | Token::RawIdent(_) => {
                Affinity::Repel
            },
            _ => Affinity::Tight,
        }
    }
}

/// The punctuation tokens in the order in which the lexer tries them.
/// A token that begins with another one comes before it.
pub open spec fn punctuation_at(rank: int) -> Token<'static> {
    if rank == 0 {
        Token::RangeInclusive
    } else if rank == 1 {
        Token::VariadicArgs
    } else if rank == 2 {
        Token::Range
    } else if rank == 3 {
        Token::PathSeparator
    } else if rank == 4 {
        Token::ParameterArrow
    } else if rank == 5 {
        Token::FatArrow
    } else if rank == 6 {
        Token::EqualCheck
    } else if rank == 7 {
        Token::NotEqual
    } else if rank == 8 {
        Token::LessThanEq
    } else if rank == 9 {
        Token::GreaterThanEq
    } else if rank == 10 {
        Token::BooleanAnd
    } else if rank == 11 {
        Token::BooleanOr
    } else if rank == 12 {
        Token::ShiftRightAssign
    } else if rank == 13 {
        Token::ShiftLeftAssign
    } else if rank == 14 {
        Token::ShiftRight
    } else if rank == 15 {
        Token::ShiftLeft
    } else if rank == 16 {
        Token::AddAssign
    } else if rank == 17 {
        Token::SubAssign
    } else if rank == 18 {
        Token::MulAssign
    } else if rank == 19 {
        Token::DivAssign
    } else if rank == 20 {
        Token::ModAssign
    } else if rank == 21 {
        Token::XorAssign
    } else if rank == 22 {
        Token::AndAssign
    } else if rank == 23 {
        Token::OrAssign
    } else if rank == 24 {
        Token::OpenParen
    } else if rank == 25 {
        Token::CloseParen
    } else if rank == 26 {
        Token::OpenBrace
    } else if rank == 27 {
        Token::CloseBrace
    } else if rank == 28 {
        Token::OpenBracket
    } else if rank == 29 {
        Token::CloseBracket
    } else if rank == 30 {
        Token::Colon
    } else if rank == 31 {
        Token::Semi
    } else if rank == 32 {
        Token::Comma
    } else if rank == 33 {
        Token::Dot
    } else if rank == 34 {
        Token::At
    } else if rank == 35 {
        Token::Pound
    } else if rank == 36 {
        Token::Tilde
    } else if rank == 37 {
        Token::Question
    } else if rank == 38 {
        Token::Dollar
    } else if rank == 39 {
        Token::Eq
    } else if rank == 40 {
        Token::Not
    } else if rank == 41 {
        Token::LessThan
    } else if rank == 42 {
        Token::GreatherThan
    } else if rank == 43 {
        Token::Minus
    } else if rank == 44 {
        Token::And
    } else if rank == 45 {
        Token::Or
    } else if rank == 46 {
        Token::Plus
    } else if rank == 47 {
        Token::Star
    } else if rank == 48 {
        Token::Slash
    } else if rank == 49 {
        Token::Caret
    } else {
        Token::Percent
    }
}

/// The punctuation token at `rank` in the recognition order.
pub fn punctuation(rank: usize) -> (t: Token<'static>)
    requires
        rank < PUNCTUATION_COUNT,
    ensures
        t == punctuation_at(rank as int),
{
    match rank {
        0 => Token::RangeInclusive,
        1 => Token::VariadicArgs,
        2 => Token::Range,
        3 => Token::PathSeparator,
        4 => Token::ParameterArrow,
        5 => Token::FatArrow,
        6 => Token::EqualCheck,
        7 => Token::NotEqual,
        8 => Token::LessThanEq,
        9 => Token::GreaterThanEq,
        10 => Token::BooleanAnd,
        11 => Token::BooleanOr,
        12 => Token::ShiftRightAssign,
        13 => Token::ShiftLeftAssign,
        14 => Token::ShiftRight,
        15 => Token::ShiftLeft,
        16 => Token::AddAssign,
        17 => Token::SubAssign,
        18 => Token::MulAssign,
        19 => Token::DivAssign,
        20 => Token::ModAssign,
        21 => Token::XorAssign,
        22 => Token::AndAssign,
        23 => Token::OrAssign,
        24 => Token::OpenParen,
        25 => Token::CloseParen,
        26 => Token::OpenBrace,
        27 => Token::CloseBrace,
        28 => Token::OpenBracket,
        29 => Token::CloseBracket,
        30 => Token::Colon,
        31 => Token::Semi,
        32 => Token::Comma,
        33 => Token::Dot,
        34 => Token::At,
        35 => Token::Pound,
        36 => Token::Tilde,
        37 => Token::Question,
        38 => Token::Dollar,
        39 => Token::Eq,
        40 => Token::Not,
        41 => Token::LessThan,
        42 => Token::GreatherThan,
        43 => Token::Minus,
        44 => Token::And,
        45 => Token::Or,
        46 => Token::Plus,
        47 => Token::Star,
        48 => Token::Slash,
        49 => Token::Caret,
        _ => Token::Percent,
    }
}

/// Every punctuation token is one to three ASCII characters long, so its
/// length in bytes is its length in characters.
pub proof fn lemma_punctuation_text(rank: int)
    requires
        0 <= rank < PUNCTUATION_COUNT,
    ensures
        punctuation_at(rank).kind() is Punctuation,
        1 <= punctuation_at(rank).text().len() <= 3,
        is_ascii_chars(punctuation_at(rank).text()),
        byte_len(punctuation_at(rank).text()) == punctuation_at(rank).text().len(),
{
    reveal_strlit("..=");
    reveal_strlit("...");
    reveal_strlit("..");
    reveal_strlit("::");
    reveal_strlit("->");
    reveal_strlit("=>");
    reveal_strlit("==");
    reveal_strlit("!=");
    reveal_strlit("<=");
    reveal_strlit(">=");
    reveal_strlit("&&");
    reveal_strlit("||");
    reveal_strlit(">>=");
    reveal_strlit("<<=");
    reveal_strlit(">>");
    reveal_strlit("<<");
    reveal_strlit("+=");
    reveal_strlit("-=");
    reveal_strlit("*=");
    reveal_strlit("/=");
    reveal_strlit("%=");
    reveal_strlit("^=");
    reveal_strlit("&=");
    reveal_strlit("|=");
    reveal_strlit("(");
    reveal_strlit(")");
    reveal_strlit("{");
    reveal_strlit("}");
    reveal_strlit("[");
    reveal_strlit("]");
    reveal_strlit(":");
    reveal_strlit(";");
    reveal_strlit(",");
    reveal_strlit(".");
    reveal_strlit("@");
    reveal_strlit("#");
    reveal_strlit("~");
    reveal_strlit("?");
    reveal_strlit("$");
    reveal_strlit("=");
    reveal_strlit("!");
    reveal_strlit("<");
    reveal_strlit(">");
    reveal_strlit("-");
    reveal_strlit("&");
    reveal_strlit("|");
    reveal_strlit("+");
    reveal_strlit("*");
    reveal_strlit("/");
    reveal_strlit("^");
    reveal_strlit("%");
    is_ascii_chars_encode_utf8(punctuation_at(rank).text());
}

/// A position in the source: line and column, both counted from 1, the
/// column in bytes.
pub struct Position {
    pub line: nat,
    pub column: nat,
}

/// Number of line feeds in `bytes`.
pub open spec fn newline_count(bytes: Seq<u8>) -> nat
    decreases bytes.len(),
{
    if bytes.len() == 0 {
        0
    } else {
        newline_count(bytes.drop_last()) + if bytes.last() == 0x0a {
            1nat
        } else {
            0nat
        }
    }
}

/// Number of bytes that follow the last line feed in `bytes`, or all of them
/// where it has none.
pub open spec fn tail_len(bytes: Seq<u8>) -> nat
    decreases bytes.len(),
{
    if bytes.len() == 0 {
        0
    } else if bytes.last() == 0x0a {
        0
    } else {
        tail_len(bytes.drop_last()) + 1
    }
}

/// Line feeds and the bytes after the last of them never count more than
/// the bytes there are.
pub proof fn lemma_newlines_and_tail(bytes: Seq<u8>)
    ensures
        newline_count(bytes) + tail_len(bytes) <= bytes.len(),
        newline_count(bytes) == 0 ==> tail_len(bytes) == bytes.len(),
    decreases bytes.len(),
{
    if bytes.len() > 0 {
        lemma_newlines_and_tail(bytes.drop_last());
    }
}

impl Position {
    /// Where lexing begins.
    pub open spec fn start() -> Position {
        Position { line: 1, column: 1 }
    }

    /// The position after `bytes` have been consumed from this one.
    pub open spec fn advance(self, bytes: Seq<u8>) -> Position {
        Position {
            line: self.line + newline_count(bytes),
            column: if newline_count(bytes) == 0 {
                self.column + bytes.len()
            } else {
                tail_len(bytes) + 1
            },
        }
    }

    /// Both counters still fit a machine word after `remaining` more bytes.
    pub open spec fn fits(self, remaining: nat) -> bool {
        self.line + remaining <= usize::MAX && self.column + remaining <= usize::MAX
    }
}

/// Why lexing stopped.
#[derive(Debug, PartialEq, Eq, Clone)]
pub enum LexError {
    /// The syntax check refused the source; the message says where.
    InvalidSyntax(String),
    /// No token could be recognized at this position.
    UnknownLexeme { line: usize, char: usize },
}

/// `syn::Error`: the error of the syntax check, carried as it is.
#[verifier::external_type_specification]
#[verifier::external_body]
pub struct ExSynError(syn::Error);

/// Whether `syn::parse_file` accepts a source text.
pub uninterp spec fn syntax_valid(src: Seq<char>) -> bool;

/// `syn::parse_file`, keeping only whether the source was accepted and, if
/// it was not, the error.
#[verifier::external_body]
pub(crate) fn parse_file(src: &str) -> (r: Result<(), syn::Error>)
    ensures
        r is Ok <==> syntax_valid(src@),
{
    match syn::parse_file(src) {
        Ok(_) => Ok(()),
        Err(e) => Err(e),
    }
}

/// Formats a `syn::Error` with the position at which it arose; `syn`'s own
/// rendering leaves the position out. Nothing is claimed of the text.
#[verifier::external_body]
pub fn display_syn_error(e: syn::Error) -> String {
    format!("error @ {:?}: {e}", e.span().start())
}

/// What `rustc_lexer::first_token` reports for a non-empty source: the class
/// of its first lexeme and that lexeme's length in bytes.
pub uninterp spec fn first_lexeme(src: Seq<char>) -> (LexemeKind, nat);

/// `rustc_lexer::first_token`. The lexeme it reports is never empty, lies
/// within the source and ends between two characters. Identifiers, raw
/// identifiers, literals, lifetimes, whitespace, the two kinds of comments
/// and unknown characters keep their kind; every other kind that the lexer
/// knows is a punctuation character and is reported as punctuation.
#[verifier::external_body]
pub(crate) fn first_token(src: &str) -> (r: (LexemeKind, usize))
    requires
        src@.len() > 0,
    ensures
        r.0 == first_lexeme(src@).0,
        r.1 == first_lexeme(src@).1,
        0 < r.1 <= byte_len(src@),
        is_char_boundary(src.spec_bytes(), r.1 as int),
{
    let token = rustc_lexer::first_token(src);
    let kind = match token.kind {
        TokenKind::Ident => LexemeKind::Ident,
        TokenKind::RawIdent => LexemeKind::RawIdent,
        TokenKind::Literal { .. } => LexemeKind::Literal,
        TokenKind::Lifetime { .. } => LexemeKind::Lifetime,
        TokenKind::Whitespace => LexemeKind::Whitespace,
        TokenKind::LineComment => LexemeKind::LineComment,
        TokenKind::BlockComment { .. } => LexemeKind::BlockComment,
        TokenKind::Unknown => LexemeKind::Unknown,
        _ => LexemeKind::Punctuation,
    };
    (kind, token.len)
}

/// The first punctuation token, from `rank` on in the recognition order,
/// whose text begins `src`.
pub open spec fn first_punctuation(src: Seq<char>, rank: int) -> Option<int>
    decreases PUNCTUATION_COUNT - rank,
{
    if rank < 0 || rank >= PUNCTUATION_COUNT {
        None
    } else if punctuation_at(rank).text().is_prefix_of(src) {
        Some(rank)
    } else {
        first_punctuation(src, rank + 1)
    }
}

/// What [`first_punctuation`] finds lies in the recognition order, not
/// before `rank`, and begins `src`.
pub proof fn lemma_first_punctuation(src: Seq<char>, rank: int)
    requires
        0 <= rank,
    ensures
        first_punctuation(src, rank) matches Some(found) ==> rank <= found < PUNCTUATION_COUNT
            && punctuation_at(found).text().is_prefix_of(src),
    decreases PUNCTUATION_COUNT - rank,
{
    if rank < PUNCTUATION_COUNT && !punctuation_at(rank).text().is_prefix_of(src) {
        lemma_first_punctuation(src, rank + 1);
    }
}

/// A punctuation token never begins a token that comes after it in the
/// recognition order, so no token hides a longer one.
pub proof fn lemma_recognition_order(earlier: int, later: int)
    requires
        0 <= earlier < later < PUNCTUATION_COUNT,
    ensures
        !punctuation_at(earlier).text().is_prefix_of(punctuation_at(later).text()),
{
    let short = punctuation_at(earlier).text();
    let long = punctuation_at(later).text();
    lemma_punctuation_chars(earlier);
    lemma_punctuation_chars(later);
    if short.is_prefix_of(long) {
        assert(short.len() <= long.len());
        assert(long.subrange(0, short.len() as int)[0] == long[0]);
        assert(short[0] == long[0]);
        if short.len() >= 2 {
            assert(long.subrange(0, short.len() as int)[1] == long[1]);
            assert(short[1] == long[1]);
        }
        assert(false);
    }
}

/// The first characters of the punctuation tokens, as numbers: the second
/// and the third are 0 where the token has none.
pub open spec fn punctuation_code(rank: int) -> (int, int, int) {
    let text = punctuation_at(rank).text();
    (
        text[0] as int,
        if text.len() >= 2 {
            text[1] as int
        } else {
            0
        },
        if text.len() >= 3 {
            text[2] as int
        } else {
            0
        },
    )
}

/// The tokens of the recognition order, character by character.
proof fn lemma_punctuation_chars(rank: int)
    requires
        0 <= rank < PUNCTUATION_COUNT,
    ensures
        1 <= punctuation_at(rank).text().len() <= 3,
        punctuation_code(rank) == punctuation_codes(rank),
        rank < 24 <==> punctuation_at(rank).text().len() >= 2,
{
    reveal_strlit("..=");
    reveal_strlit("...");
    reveal_strlit("..");
    reveal_strlit("::");
    reveal_strlit("->");
    reveal_strlit("=>");
    reveal_strlit("==");
    reveal_strlit("!=");
    reveal_strlit("<=");
    reveal_strlit(">=");
    reveal_strlit("&&");
    reveal_strlit("||");
    reveal_strlit(">>=");
    reveal_strlit("<<=");
    reveal_strlit(">>");
    reveal_strlit("<<");
    reveal_strlit("+=");
    reveal_strlit("-=");
    reveal_strlit("*=");
    reveal_strlit("/=");
    reveal_strlit("%=");
    reveal_strlit("^=");
    reveal_strlit("&=");
    reveal_strlit("|=");
    reveal_strlit("(");
    reveal_strlit(")");
    reveal_strlit("{");
    reveal_strlit("}");
    reveal_strlit("[");
    reveal_strlit("]");
    reveal_strlit(":");
    reveal_strlit(";");
    reveal_strlit(",");
    reveal_strlit(".");
    reveal_strlit("@");
    reveal_strlit("#");
    reveal_strlit("~");
    reveal_strlit("?");
    reveal_strlit("$");
    reveal_strlit("=");
    reveal_strlit("!");
    reveal_strlit("<");
    reveal_strlit(">");
    reveal_strlit("-");
    reveal_strlit("&");
    reveal_strlit("|");
    reveal_strlit("+");
    reveal_strlit("*");
    reveal_strlit("/");
    reveal_strlit("^");
    reveal_strlit("%");
}

/// The table that [`lemma_punctuation_chars`] holds the tokens against.
pub open spec fn punctuation_codes(rank: int) -> (int, int, int) {
    if rank == 0 {
        (46, 46, 61)
    } else if rank == 1 {
        (46, 46, 46)
    } else if rank == 2 {
        (46, 46, 0)
    } else if rank == 3 {
        (58, 58, 0)
    } else if rank == 4 {
        (45, 62, 0)
    } else if rank == 5 {
        (61, 62, 0)
    } else if rank == 6 {
        (61, 61, 0)
    } else if rank == 7 {
        (33, 61, 0)
    } else if rank == 8 {
        (60, 61, 0)
    } else if rank == 9 {
        (62, 61, 0)
    } else if rank == 10 {
        (38, 38, 0)
    } else if rank == 11 {
        (124, 124, 0)
    } else if rank == 12 {
        (62, 62, 61)
    } else if rank == 13 {
        (60, 60, 61)
    } else if rank == 14 {
        (62, 62, 0)
    } else if rank == 15 {
        (60, 60, 0)
    } else if rank == 16 {
        (43, 61, 0)
    } else if rank == 17 {
        (45, 61, 0)
    } else if rank == 18 {
        (42, 61, 0)
    } else if rank == 19 {
        (47, 61, 0)
    } else if rank == 20 {
        (37, 61, 0)
    } else if rank == 21 {
        (94, 61, 0)
    } else if rank == 22 {
        (38, 61, 0)
    } else if rank == 23 {
        (124, 61, 0)
    } else if rank == 24 {
        (40, 0, 0)
    } else if rank == 25 {
        (41, 0, 0)
    } else if rank == 26 {
        (123, 0, 0)
    } else if rank == 27 {
        (125, 0, 0)
    } else if rank == 28 {
        (91, 0, 0)
    } else if rank == 29 {
        (93, 0, 0)
    } else if rank == 30 {
        (58, 0, 0)
    } else if rank == 31 {
        (59, 0, 0)
    } else if rank == 32 {
        (44, 0, 0)
    } else if rank == 33 {
        (46, 0, 0)
    } else if rank == 34 {
        (64, 0, 0)
    } else if rank == 35 {
        (35, 0, 0)
    } else if rank == 36 {
        (126, 0, 0)
    } else if rank == 37 {
        (63, 0, 0)
    } else if rank == 38 {
        (36, 0, 0)
    } else if rank == 39 {
        (61, 0, 0)
    } else if rank == 40 {
        (33, 0, 0)
    } else if rank == 41 {
        (60, 0, 0)
    } else if rank == 42 {
        (62, 0, 0)
    } else if rank == 43 {
        (45, 0, 0)
    } else if rank == 44 {
        (38, 0, 0)
    } else if rank == 45 {
        (124, 0, 0)
    } else if rank == 46 {
        (43, 0, 0)
    } else if rank == 47 {
        (42, 0, 0)
    } else if rank == 48 {
        (47, 0, 0)
    } else if rank == 49 {
        (94, 0, 0)
    } else {
        (37, 0, 0)
    }
}

/// The punctuation token that the lexer finds is the longest one that
/// begins the source.
pub proof fn lemma_longest_match(src: Seq<char>, other: int)
    requires
        0 <= other < PUNCTUATION_COUNT,
        punctuation_at(other).text().is_prefix_of(src),
    ensures
        first_punctuation(src, 0) matches Some(found) && punctuation_at(other).text().len()
            <= punctuation_at(found).text().len(),
{
    lemma_finds_punctuation(src, 0, other);
    lemma_first_punctuation(src, 0);
    let found = first_punctuation(src, 0)->0;
    let short = punctuation_at(found).text();
    let long = punctuation_at(other).text();
    if short.len() < long.len() {
        assert(found < other);
        assert(short =~= long.subrange(0, short.len() as int)) by {
            assert(short =~= src.subrange(0, short.len() as int));
            assert(long =~= src.subrange(0, long.len() as int));
        }
        lemma_recognition_order(found, other);
    }
}

/// Where some token from `rank` on begins the source, one is found, and
/// none of those before it begins the source.
pub proof fn lemma_finds_punctuation(src: Seq<char>, rank: int, other: int)
    requires
        0 <= rank <= other < PUNCTUATION_COUNT,
        punctuation_at(other).text().is_prefix_of(src),
    ensures
        first_punctuation(src, rank) matches Some(found) && found <= other,
    decreases other - rank,
{
    if !punctuation_at(rank).text().is_prefix_of(src) {
        lemma_finds_punctuation(src, rank + 1, other);
    }
}

/// One step of the lexer.
pub enum Step {
    /// A token, the text that follows it, and the position there.
    Token(Lexeme, Seq<char>, Position),
    /// Whitespace or a comment was consumed.
    Skip(Seq<char>, Position),
    /// Nothing can be recognized here.
    Stuck,
}

/// The step that the lexer takes on a non-empty `src` at position `at`.
/// Textual lexemes, whitespace and comments are delimited by
/// [`first_lexeme`]; punctuation is matched against the recognition order.
pub open spec fn lex_step(src: Seq<char>, at: Position) -> Step {
    let (kind, n) = first_lexeme(src);
    let text = take_bytes(src, n);
    if kind.is_textual() {
        Step::Token(Lexeme { kind, text }, skip_bytes(src, n), at.advance(encode_utf8(text)))
    } else if kind.is_trivia() {
        Step::Skip(skip_bytes(src, n), at.advance(encode_utf8(text)))
    } else if kind is Unknown {
        Step::Stuck
    } else {
        match first_punctuation(src, 0) {
            Some(rank) => {
                let text = punctuation_at(rank).text();
                Step::Token(
                    punctuation_at(rank)@,
                    src.skip(text.len() as int),
                    Position { line: at.line, column: at.column + byte_len(text) },
                )
            },
            None => Step::Stuck,
        }
    }
}

/// A lexeme placed at a position.
pub open spec fn spanned_at(lexeme: Lexeme, at: Position) -> Spanned<Lexeme> {
    Spanned { inner: lexeme, line: at.line as usize, char: at.column as usize }
}

/// The tokens of `src`, lexed from position `at`, or `None` where some
/// lexeme cannot be recognized.
pub open spec fn lex_from(src: Seq<char>, at: Position) -> Option<Seq<Spanned<Lexeme>>>
    decreases byte_len(src),
{
    if src.len() == 0 {
        Some(Seq::empty())
    } else {
        match lex_step(src, at) {
            Step::Token(lexeme, rest, next) => {
                if byte_len(rest) < byte_len(src) {
                    match lex_from(rest, next) {
                        Some(tail) => Some(seq![spanned_at(lexeme, at)] + tail),
                        None => None,
                    }
                } else {
                    None
                }
            },
            Step::Skip(rest, next) => {
                if byte_len(rest) < byte_len(src) {
                    lex_from(rest, next)
                } else {
                    None
                }
            },
            Step::Stuck => None,
        }
    }
}

/// Where lexing stops: the position of the first lexeme that cannot be
/// recognized, or the end of the source where there is none.
pub open spec fn stuck_at(src: Seq<char>, at: Position) -> Position
    decreases byte_len(src),
{
    if src.len() == 0 {
        at
    } else {
        match lex_step(src, at) {
            Step::Token(_, rest, next) => {
                if byte_len(rest) < byte_len(src) {
                    stuck_at(rest, next)
                } else {
                    at
                }
            },
            Step::Skip(rest, next) => {
                if byte_len(rest) < byte_len(src) {
                    stuck_at(rest, next)
                } else {
                    at
                }
            },
            Step::Stuck => at,
        }
    }
}

/// The number of characters of all the tokens together.
pub open spec fn texts_len(tokens: Seq<Spanned<Token<'_>>>) -> nat
    decreases tokens.len(),
{
    if tokens.len() == 0 {
        0
    } else {
        texts_len(tokens.drop_last()) + tokens.last().inner.text().len()
    }
}

/// The models of a sequence of positioned tokens.
pub open spec fn lexemes(tokens: Seq<Spanned<Token<'_>>>) -> Seq<Spanned<Lexeme>> {
    tokens.map_values(
        |t: Spanned<Token<'_>>| Spanned { inner: t.inner@, line: t.line, char: t.char },
    )
}

/// Keeps the line and column while lexing.
#[derive(Debug, PartialEq, Eq)]
pub struct Tokenizer {
    line: usize,
    char: usize,
}

impl View for Tokenizer {
    type V = Position;

    closed spec fn view(&self) -> Position {
        Position { line: self.line as nat, column: self.char as nat }
    }
}

impl Tokenizer {
    pub fn new() -> (t: Self)
        ensures
            t@ == Position::start(),
    {
        Self { line: 1, char: 1 }
    }

    /// A tokenizer that stands at the given line and column.
    pub fn at(line: usize, char: usize) -> (t: Self)
        ensures
            t@ == (Position { line: line as nat, column: char as nat }),
    {
        Self { line, char }
    }

    /// The line and column at which the tokenizer stands.
    pub fn position(&self) -> (at: (usize, usize))
        ensures
            at.0 == self@.line,
            at.1 == self@.column,
    {
        (self.line, self.char)
    }

    /// Recognizes the punctuation token that begins `source`, trying the
    /// tokens in the recognition order, and moves the column past it.
    pub fn lex_punctuation_token<'src>(&mut self, source: &'src str) -> (r: Option<
        (Spanned<Token<'src>>, &'src str),
    >)
        requires
            old(self)@.fits(byte_len(source@)),
        ensures
            match first_punctuation(source@, 0) {
                Some(rank) => {
                    &&& r matches Some((token, rest))
                    &&& token.inner == punctuation_at(rank)
                    &&& token.line == old(self)@.line
                    &&& token.char == old(self)@.column
                    &&& source@ == punctuation_at(rank).text() + rest@
                    &&& byte_len(rest@) < byte_len(source@)
                    &&& final(self)@ == (Position {
                        line: old(self)@.line,
                        column: old(self)@.column + byte_len(punctuation_at(rank).text()),
                    })
                    &&& final(self)@.fits(byte_len(rest@))
                },
                None => r is None && final(self)@ == old(self)@,
            },
    {
        let mut rank: usize = 0;
        while rank < PUNCTUATION_COUNT
            invariant
                rank <= PUNCTUATION_COUNT,
                *self == *old(self),
                self@.fits(byte_len(source@)),
                first_punctuation(source@, 0) == first_punctuation(source@, rank as int),
            decreases PUNCTUATION_COUNT - rank,
        {
            let token = punctuation(rank);
            let text = token.as_str();
            if let Some(rest) = strip_prefix(source, text) {
                proof {
                    lemma_punctuation_text(rank as int);
                    lemma_encode_concat(text@, rest@);
                    assert(text@.is_prefix_of(source@));
                }
                let spanned = Spanned::new(token, self.line, self.char);
                self.char += str_byte_len(text);
                return Some((spanned, rest));
            }
            rank += 1;
        }
        None
    }

    /// Lexes the textual token, the whitespace or the comment that begins
    /// `src`. Punctuation is left to [`Self::lex_punctuation_token`].
    pub fn lex_textual_token<'src>(&mut self, src: &'src str) -> (r: Result<
        Option<(Option<Spanned<Token<'src>>>, &'src str)>,
        LexError,
    >)
        requires
            src@.len() > 0,
            old(self)@.fits(byte_len(src@)),
        ensures
            ({
                let (kind, n) = first_lexeme(src@);
                let text = take_bytes(src@, n);
                match r {
                    Ok(Some((token, rest))) => {
                        &&& rest@ == skip_bytes(src@, n)
                        &&& src@ == text + rest@
                        &&& text.len() > 0
                        &&& byte_len(rest@) < byte_len(src@)
                        &&& final(self)@ == old(self)@.advance(encode_utf8(text))
                        &&& final(self)@.fits(byte_len(rest@))
                        &&& match token {
                            Some(token) => {
                                &&& kind.is_textual()
                                &&& token.inner@ == Lexeme { kind, text }
                                &&& token.line == old(self)@.line
                                &&& token.char == old(self)@.column
                            },
                            None => kind.is_trivia(),
                        }
                    },
                    Ok(None) => kind is Punctuation && final(self)@ == old(self)@,
                    Err(e) => {
                        &&& kind is Unknown
                        &&& final(self)@ == old(self)@
                        &&& e == LexError::UnknownLexeme {
                            line: old(self)@.line as usize,
                            char: old(self)@.column as usize,
                        }
                    },
                }
            }),
    {
        let (kind, len) = first_token(src);
        let (token_str, rest) = split_at_bytes(src, len);
        let token = match kind {
            LexemeKind::Ident => Token::Ident(token_str),
            LexemeKind::Lifetime => Token::Lifetime(token_str),
            LexemeKind::Literal => Token::Literal(token_str),
            LexemeKind::RawIdent => Token::RawIdent(token_str),
            LexemeKind::Whitespace | LexemeKind::LineComment | LexemeKind::BlockComment => {
                self.advance_counts(token_str);
                return Ok(Some((None, rest)));
            },
            LexemeKind::Unknown => {
                return Err(LexError::UnknownLexeme { line: self.line, char: self.char });
            },
            LexemeKind::Punctuation => {
                return Ok(None);
            },
        };
        let token = Spanned::new(token, self.line, self.char);
        self.advance_counts(token_str);
        Ok(Some((Some(token), rest)))
    }

    /// Moves the position past `token`: every line feed starts a new line,
    /// and the column counts the bytes since the last one.
    pub fn advance_counts(&mut self, token: &str)
        requires
            old(self)@.fits(byte_len(token@)),
        ensures
            final(self)@ == old(self)@.advance(encode_utf8(token@)),
            forall|rest: nat|
                old(self)@.fits(byte_len(token@) + rest) ==> #[trigger] final(self)@.fits(rest),
    {
        let bytes = token.as_bytes();
        let mut lines: usize = 0;
        let mut tail: usize = 0;
        let mut i: usize = 0;
        while i < bytes.len()
            invariant
                i <= bytes.len(),
                lines == newline_count(bytes@.take(i as int)),
                tail == tail_len(bytes@.take(i as int)),
                lines + tail <= i,
            decreases bytes.len() - i,
        {
            proof {
                assert(bytes@.take(i + 1).drop_last() =~= bytes@.take(i as int));
            }
            if bytes[i] == 0x0a {
                lines += 1;
                tail = 0;
            } else {
                tail += 1;
            }
            i += 1;
        }
        proof {
            assert(bytes@.take(i as int) =~= bytes@);
            lemma_newlines_and_tail(bytes@);
        }
        self.line += lines;
        if lines == 0 {
            self.char += tail;
        } else {
            self.char = tail + 1;
        }
    }
}

/// Lexes a whole source file. The source is first held against the syntax
/// check; a source that passes is cut into its tokens, with whitespace and
/// comments dropped.
pub fn lex_file(source: &str) -> (r: Result<Vec<Spanned<Token<'_>>>, LexError>)
    requires
        byte_len(source@) < usize::MAX,
    ensures
        match r {
            Ok(tokens) => {
                &&& syntax_valid(source@)
                &&& lex_from(source@, Position::start()) == Some(lexemes(tokens@))
                &&& tokens@.len() <= texts_len(tokens@) <= source@.len()
            },
            Err(LexError::InvalidSyntax(_)) => !syntax_valid(source@),
            Err(LexError::UnknownLexeme { line, char }) => {
                &&& syntax_valid(source@)
                &&& lex_from(source@, Position::start()) is None
                &&& stuck_at(source@, Position::start()) == (Position {
                    line: line as nat,
                    column: char as nat,
                })
            },
        },
{
    match parse_file(source) {
        Ok(_) => {},
        Err(e) => {
            return Err(LexError::InvalidSyntax(display_syn_error(e)));
        },
    }
    lex_tokens(source)
}

/// Prefixes the outcome of lexing the rest with the tokens found so far.
pub open spec fn lexed_after(
    found: Seq<Spanned<Lexeme>>,
    rest: Option<Seq<Spanned<Lexeme>>>,
) -> Option<Seq<Spanned<Lexeme>>> {
    match rest {
        Some(tail) => Some(found + tail),
        None => None,
    }
}

/// Cuts `source` into its tokens without checking its syntax first.
pub fn lex_tokens(source: &str) -> (r: Result<Vec<Spanned<Token<'_>>>, LexError>)
    requires
        byte_len(source@) < usize::MAX,
    ensures
        match r {
            Ok(tokens) => {
                &&& lex_from(source@, Position::start()) == Some(lexemes(tokens@))
                &&& tokens@.len() <= texts_len(tokens@) <= source@.len()
            },
            Err(e) => {
                &&& e matches LexError::UnknownLexeme { line, char }
                &&& lex_from(source@, Position::start()) is None
                &&& stuck_at(source@, Position::start()) == (Position {
                    line: line as nat,
                    column: char as nat,
                })
            },
        },
{
    let mut tokenizer = Tokenizer::new();
    let mut tokens: Vec<Spanned<Token<'_>>> = Vec::new();
    let mut cur = source;
    while !cur.is_empty()
        invariant
            tokenizer@.fits(byte_len(cur@)),
            tokens@.len() <= texts_len(tokens@),
            texts_len(tokens@) + cur@.len() <= source@.len(),
            stuck_at(source@, Position::start()) == stuck_at(cur@, tokenizer@),
            lex_from(source@, Position::start()) == lexed_after(
                lexemes(tokens@),
                lex_from(cur@, tokenizer@),
            ),
        decreases byte_len(cur@),
    {
        let ghost before = tokenizer@;
        let ghost found = lexemes(tokens@);
        let ghost earlier = tokens@;
        match tokenizer.lex_textual_token(cur) {
            Err(e) => {
                return Err(e);
            },
            Ok(Some((token, rest))) => {
                if let Some(token) = token {
                    tokens.push(token);
                    proof {
                        let lexeme = Spanned { inner: token.inner@, line: token.line, char: token.char };
                        assert(lexemes(tokens@) =~= found.push(lexeme));
                        assert(lexeme == spanned_at(token.inner@, before));
                        assert(tokens@.drop_last() =~= earlier);
                        let tail = lex_from(rest@, tokenizer@);
                        if tail is Some {
                            assert(found + (seq![lexeme] + tail->0) =~= found.push(lexeme)
                                + tail->0);
                        }
                    }
                }
                cur = rest;
            },
            Ok(None) => {
                match tokenizer.lex_punctuation_token(cur) {
                    Some((token, rest)) => {
                        tokens.push(token);
                        proof {
                            let rank = first_punctuation(cur@, 0)->0;
                            let lexeme = Spanned {
                                inner: token.inner@,
                                line: token.line,
                                char: token.char,
                            };
                            assert(lexemes(tokens@) =~= found.push(lexeme));
                            assert(rest@ =~= cur@.skip(punctuation_at(rank).text().len() as int));
                            assert(tokens@.drop_last() =~= earlier);
                            lemma_first_punctuation(cur@, 0);
                            lemma_punctuation_text(rank);
                            let tail = lex_from(rest@, tokenizer@);
                            if tail is Some {
                                assert(found + (seq![lexeme] + tail->0) =~= found.push(lexeme)
                                    + tail->0);
                            }
                        }
                        cur = rest;
                    },
                    None => {
                        return Err(
                            LexError::UnknownLexeme { line: tokenizer.line, char: tokenizer.char },
                        );
                    },
                }
            },
        }
    }
    proof {
        assert(lexemes(tokens@) + Seq::<Spanned<Lexeme>>::empty() =~= lexemes(tokens@));
    }
    Ok(tokens)
}

} // verus!
