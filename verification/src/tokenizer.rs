//! A tokenizer that keeps the position of each token as it was counted
//! while the tokens were read: whitespace and comments between the tokens do
//! not move the position on.

use vstd::prelude::*;
use vstd::utf8::encode_utf8;
use crate::lex::{
    display_syn_error, first_lexeme, first_punctuation, first_token, lemma_punctuation_text, lex_step, lexed_after, parse_file, punctuation, punctuation_at,
    spanned_at, syntax_valid, LexError, Lexeme, LexemeKind, Position, Spanned, Step,
    PUNCTUATION_COUNT,
};
use crate::text::{
    byte_len, lemma_encode_concat, skip_bytes, split_at_bytes, str_byte_len, strip_prefix,
    take_bytes,
};

verus! {

/// Whether a token must be kept apart from a neighbour of its own kind.
#[derive(Debug, PartialEq, Eq, Clone, Copy, Structural)]
pub enum Affinity {
    Repel,
    Tight,
}

/// A lexeme and the line and column at which it starts.
#[derive(Debug, PartialEq, Eq, Clone, Copy)]
pub struct Token<'a> {
    pub inner: Token2<'a>,
    pub line: usize,
    pub char: usize,
}

impl<'a> Token<'a> {
    pub fn new(inner: Token2<'a>, line: usize, char: usize) -> (token: Self)
        ensures
            token.inner == inner,
            token.line == line,
            token.char == char,
    {
        Self { inner, line, char }
    }

    /// The model of the token with its position.
    pub open spec fn spanned(self) -> Spanned<Lexeme> {
        Spanned { inner: self.inner@, line: self.line, char: self.char }
    }
}

/// A lexeme of the source.
#[derive(Debug, PartialEq, Eq, Clone, Copy)]
pub enum Token2<'a> {
    Ident(&'a str),
    Lifetime(&'a str),
    Literal(&'a str),
    RawIdent(&'a str),
    RangeInclusive,
    VariadicArgs,
    Range,
    PathSeparator,
    ParameterArrow,
    FatArrow,
    EqualCheck,
    NotEqual,
    LessThanEq,
    GreaterThanEq,
    BooleanAnd,
    BooleanOr,
    ShiftRightAssign,
    ShiftLeftAssign,
    ShiftRight,
    ShiftLeft,
    AddAssign,
    SubAssign,
    MulAssign,
    DivAssign,
    ModAssign,
    XorAssign,
    AndAssign,
    OrAssign,
    OpenParen,
    CloseParen,
    OpenBrace,
    CloseBrace,
    OpenBracket,
    CloseBracket,
    Colon,
    Semi,
    Comma,
    Dot,
    At,
    Pound,
    Tilde,
    Question,
    Dollar,
    Eq,
    Not,
    LessThan,
    GreatherThan,
    Minus,
    And,
    Or,
    Plus,
    Star,
    Slash,
    Caret,
    Percent,
}

impl<'a> View for Token2<'a> {
    type V = Lexeme;

    open spec fn view(&self) -> Lexeme {
        self.as_token()@
    }
}

impl<'a> Token2<'a> {
    /// The same lexeme as a token of the lexer.
    pub open spec fn as_token(self) -> crate::lex::Token<'a> {
        match self {
            Token2::Ident(s) => crate::lex::Token::Ident(s),
            Token2::Lifetime(s) => crate::lex::Token::Lifetime(s),
            Token2::Literal(s) => crate::lex::Token::Literal(s),
            Token2::RawIdent(s) => crate::lex::Token::RawIdent(s),
            Token2::RangeInclusive => crate::lex::Token::RangeInclusive,
            Token2::VariadicArgs => crate::lex::Token::VariadicArgs,
            Token2::Range => crate::lex::Token::Range,
            Token2::PathSeparator => crate::lex::Token::PathSeparator,
            Token2::ParameterArrow => crate::lex::Token::ParameterArrow,
            Token2::FatArrow => crate::lex::Token::FatArrow,
            Token2::EqualCheck => crate::lex::Token::EqualCheck,
            Token2::NotEqual => crate::lex::Token::NotEqual,
            Token2::LessThanEq => crate::lex::Token::LessThanEq,
            Token2::GreaterThanEq => crate::lex::Token::GreaterThanEq,
            Token2::BooleanAnd => crate::lex::Token::BooleanAnd,
            Token2::BooleanOr => crate::lex::Token::BooleanOr,
            Token2::ShiftRightAssign => crate::lex::Token::ShiftRightAssign,
            Token2::ShiftLeftAssign => crate::lex::Token::ShiftLeftAssign,
            Token2::ShiftRight => crate::lex::Token::ShiftRight,
            Token2::ShiftLeft => crate::lex::Token::ShiftLeft,
            Token2::AddAssign => crate::lex::Token::AddAssign,
            Token2::SubAssign => crate::lex::Token::SubAssign,
            Token2::MulAssign => crate::lex::Token::MulAssign,
            Token2::DivAssign => crate::lex::Token::DivAssign,
            Token2::ModAssign => crate::lex::Token::ModAssign,
            Token2::XorAssign => crate::lex::Token::XorAssign,
            Token2::AndAssign => crate::lex::Token::AndAssign,
            Token2::OrAssign => crate::lex::Token::OrAssign,
            Token2::OpenParen => crate::lex::Token::OpenParen,
            Token2::CloseParen => crate::lex::Token::CloseParen,
            Token2::OpenBrace => crate::lex::Token::OpenBrace,
            Token2::CloseBrace => crate::lex::Token::CloseBrace,
            Token2::OpenBracket => crate::lex::Token::OpenBracket,
            Token2::CloseBracket => crate::lex::Token::CloseBracket,
            Token2::Colon => crate::lex::Token::Colon,
            Token2::Semi => crate::lex::Token::Semi,
            Token2::Comma => crate::lex::Token::Comma,
            Token2::Dot => crate::lex::Token::Dot,
            Token2::At => crate::lex::Token::At,
            Token2::Pound => crate::lex::Token::Pound,
            Token2::Tilde => crate::lex::Token::Tilde,
            Token2::Question => crate::lex::Token::Question,
            Token2::Dollar => crate::lex::Token::Dollar,
            Token2::Eq => crate::lex::Token::Eq,
            Token2::Not => crate::lex::Token::Not,
            Token2::LessThan => crate::lex::Token::LessThan,
            Token2::GreatherThan => crate::lex::Token::GreatherThan,
            Token2::Minus => crate::lex::Token::Minus,
            Token2::And => crate::lex::Token::And,
            Token2::Or => crate::lex::Token::Or,
            Token2::Plus => crate::lex::Token::Plus,
            Token2::Star => crate::lex::Token::Star,
            Token2::Slash => crate::lex::Token::Slash,
            Token2::Caret => crate::lex::Token::Caret,
            Token2::Percent => crate::lex::Token::Percent,
        }
    }

    /// Identifier-like, literal-like and lifetime-like lexemes repel; all
    /// punctuation is tight.
    pub open spec fn affinity_of(self) -> Affinity {
        if self@.kind.is_textual() {
            Affinity::Repel
        } else {
            Affinity::Tight
        }
    }

    /// The lexeme of a token of the lexer.
    pub fn from_token(token: crate::lex::Token<'a>) -> (lexeme: Self)
        ensures
            lexeme.as_token() == token,
    {
        match token {
            crate::lex::Token::Ident(s) => Token2::Ident(s),
            crate::lex::Token::Lifetime(s) => Token2::Lifetime(s),
            crate::lex::Token::Literal(s) => Token2::Literal(s),
            crate::lex::Token::RawIdent(s) => Token2::RawIdent(s),
            crate::lex::Token::RangeInclusive => Token2::RangeInclusive,
            crate::lex::Token::VariadicArgs => Token2::VariadicArgs,
            crate::lex::Token::Range => Token2::Range,
            crate::lex::Token::PathSeparator => Token2::PathSeparator,
            crate::lex::Token::ParameterArrow => Token2::ParameterArrow,
            crate::lex::Token::FatArrow => Token2::FatArrow,
            crate::lex::Token::EqualCheck => Token2::EqualCheck,
            crate::lex::Token::NotEqual => Token2::NotEqual,
            crate::lex::Token::LessThanEq => Token2::LessThanEq,
            crate::lex::Token::GreaterThanEq => Token2::GreaterThanEq,
            crate::lex::Token::BooleanAnd => Token2::BooleanAnd,
            crate::lex::Token::BooleanOr => Token2::BooleanOr,
            crate::lex::Token::ShiftRightAssign => Token2::ShiftRightAssign,
            crate::lex::Token::ShiftLeftAssign => Token2::ShiftLeftAssign,
            crate::lex::Token::ShiftRight => Token2::ShiftRight,
            crate::lex::Token::ShiftLeft => Token2::ShiftLeft,
            crate::lex::Token::AddAssign => Token2::AddAssign,
            crate::lex::Token::SubAssign => Token2::SubAssign,
            crate::lex::Token::MulAssign => Token2::MulAssign,
            crate::lex::Token::DivAssign => Token2::DivAssign,
            crate::lex::Token::ModAssign => Token2::ModAssign,
            crate::lex::Token::XorAssign => Token2::XorAssign,
            crate::lex::Token::AndAssign => Token2::AndAssign,
            crate::lex::Token::OrAssign => Token2::OrAssign,
            crate::lex::Token::OpenParen => Token2::OpenParen,
            crate::lex::Token::CloseParen => Token2::CloseParen,
            crate::lex::Token::OpenBrace => Token2::OpenBrace,
            crate::lex::Token::CloseBrace => Token2::CloseBrace,
            crate::lex::Token::OpenBracket => Token2::OpenBracket,
            crate::lex::Token::CloseBracket => Token2::CloseBracket,
            crate::lex::Token::Colon => Token2::Colon,
            crate::lex::Token::Semi => Token2::Semi,
            crate::lex::Token::Comma => Token2::Comma,
            crate::lex::Token::Dot => Token2::Dot,
            crate::lex::Token::At => Token2::At,
            crate::lex::Token::Pound => Token2::Pound,
            crate::lex::Token::Tilde => Token2::Tilde,
            crate::lex::Token::Question => Token2::Question,
            crate::lex::Token::Dollar => Token2::Dollar,
            crate::lex::Token::Eq => Token2::Eq,
            crate::lex::Token::Not => Token2::Not,
            crate::lex::Token::LessThan => Token2::LessThan,
            crate::lex::Token::GreatherThan => Token2::GreatherThan,
            crate::lex::Token::Minus => Token2::Minus,
            crate::lex::Token::And => Token2::And,
            crate::lex::Token::Or => Token2::Or,
            crate::lex::Token::Plus => Token2::Plus,
            crate::lex::Token::Star => Token2::Star,
            crate::lex::Token::Slash => Token2::Slash,
            crate::lex::Token::Caret => Token2::Caret,
            crate::lex::Token::Percent => Token2::Percent,
        }
    }

    pub fn as_str(&self) -> (s: &'a str)
        ensures
            s@ == self@.text,
    {
        match self {
            Token2::Ident(s) => s,
            Token2::Lifetime(s) => s,
            Token2::Literal(s) => s,
            Token2::RawIdent(s) => s,
            Token2::RangeInclusive => "..=",
            Token2::VariadicArgs => "...",
            Token2::Range => "..",
            Token2::PathSeparator => "::",
            Token2::ParameterArrow => "->",
            Token2::FatArrow => "=>",
            Token2::EqualCheck => "==",
            Token2::NotEqual => "!=",
            Token2::LessThanEq => "<=",
            Token2::GreaterThanEq => ">=",
            Token2::BooleanAnd => "&&",
            Token2::BooleanOr => "||",
            Token2::ShiftRightAssign => ">>=",
            Token2::ShiftLeftAssign => "<<=",
            Token2::ShiftRight => ">>",
            Token2::ShiftLeft => "<<",
            Token2::AddAssign => "+=",
            Token2::SubAssign => "-=",
            Token2::MulAssign => "*=",
            Token2::DivAssign => "/=",
            Token2::ModAssign => "%=",
            Token2::XorAssign => "^=",
            Token2::AndAssign => "&=",
            Token2::OrAssign => "|=",
            Token2::OpenParen => "(",
            Token2::CloseParen => ")",
            Token2::OpenBrace => "{",
            Token2::CloseBrace => "}",
            Token2::OpenBracket => "[",
            Token2::CloseBracket => "]",
            Token2::Colon => ":",
            Token2::Semi => ";",
            Token2::Comma => ",",
            Token2::Dot => ".",
            Token2::At => "@",
            Token2::Pound => "#",
            Token2::Tilde => "~",
            Token2::Question => "?",
            Token2::Dollar => "$",
            Token2::Eq => "=",
            Token2::Not => "!",
            Token2::LessThan => "<",
            Token2::GreatherThan => ">",
            Token2::Minus => "-",
            Token2::And => "&",
            Token2::Or => "|",
            Token2::Plus => "+",
            Token2::Star => "*",
            Token2::Slash => "/",
            Token2::Caret => "^",
            Token2::Percent => "%",
        }
    }

    pub fn affinity(&self) -> (a: Affinity)
        ensures
            a == self.affinity_of(),
    {
        match self {
            Token2::Ident(_) | Token2::Lifetime(_) | Token2::Literal(_) | Token2::RawIdent(_) => {
                Affinity::Repel
            },
            _ => Affinity::Tight,
        }
    }
}

/// One step of this tokenizer: the step of the lexer, but that whitespace
/// and comments leave the position where it was.
pub open spec fn token_step(src: Seq<char>, at: Position) -> Step {
    match lex_step(src, at) {
        Step::Skip(rest, _) => Step::Skip(rest, at),
        step => step,
    }
}

/// The tokens of `src`, read from position `at`, or `None` where some
/// lexeme cannot be recognized.
pub open spec fn tokens_from(src: Seq<char>, at: Position) -> Option<Seq<Spanned<Lexeme>>>
    decreases byte_len(src),
{
    if src.len() == 0 {
        Some(Seq::empty())
    } else {
        match token_step(src, at) {
            Step::Token(lexeme, rest, next) => {
                if byte_len(rest) < byte_len(src) {
                    match tokens_from(rest, next) {
                        Some(tail) => Some(seq![spanned_at(lexeme, at)] + tail),
                        None => None,
                    }
                } else {
                    None
                }
            },
            Step::Skip(rest, next) => {
                if byte_len(rest) < byte_len(src) {
                    tokens_from(rest, next)
                } else {
                    None
                }
            },
            Step::Stuck => None,
        }
    }
}

/// The models of a sequence of tokens.
pub open spec fn spanned_lexemes(tokens: Seq<Token<'_>>) -> Seq<Spanned<Lexeme>> {
    tokens.map_values(|t: Token<'_>| t.spanned())
}

/// Keeps the line and column while the tokens are read.
#[derive(Debug, PartialEq, Eq)]
pub struct Tokenizer {
    line: usize,
    char: usize,
}

impl View for Tokenizer {
    type V = Position;

    closed spec fn view(&self) -> Position {
        Position { line: self.line as nat, column: self.char as nat }
    }
}

impl Tokenizer {
    pub fn new() -> (t: Self)
        ensures
            t@ == Position::start(),
    {
        Self { line: 1, char: 1 }
    }

    /// Recognizes the punctuation token at the start of `source`, trying
    /// the tokens in the recognition order, and returns it with what follows
    /// it.
    pub fn recognize_multichar_token<'src>(&mut self, source: &'src str) -> (r: Option<
        (Token<'src>, &'src str),
    >)
        requires
            old(self)@.fits(byte_len(source@)),
        ensures
            match first_punctuation(source@, 0) {
                Some(rank) => {
                    &&& r matches Some((token, rest))
                    &&& token.inner.as_token() == punctuation_at(rank)
                    &&& token.line == old(self)@.line
                    &&& token.char == old(self)@.column
                    &&& source@ == punctuation_at(rank).text() + rest@
                    &&& byte_len(rest@) < byte_len(source@)
                    &&& final(self)@ == (Position {
                        line: old(self)@.line,
                        column: old(self)@.column + byte_len(punctuation_at(rank).text()),
                    })
                    &&& final(self)@.fits(byte_len(rest@))
                },
                None => r is None && final(self)@ == old(self)@,
            },
    {
        let mut rank: usize = 0;
        while rank < PUNCTUATION_COUNT
            invariant
                rank <= PUNCTUATION_COUNT,
                *self == *old(self),
                self@.fits(byte_len(source@)),
                first_punctuation(source@, 0) == first_punctuation(source@, rank as int),
            decreases PUNCTUATION_COUNT - rank,
        {
            let lexeme = Token2::from_token(punctuation(rank));
            let text = lexeme.as_str();
            if let Some(rest) = strip_prefix(source, text) {
                proof {
                    lemma_punctuation_text(rank as int);
                    lemma_encode_concat(text@, rest@);
                    assert(text@.is_prefix_of(source@));
                }
                let token = Token::new(lexeme, self.line, self.char);
                self.char += str_byte_len(text);
                return Some((token, rest));
            }
            rank += 1;
        }
        None
    }

    /// Reads the textual token, the whitespace or the comment at the start
    /// of `src`, which must not be empty. Whitespace and comments are
    /// passed over without a token.
    pub fn recognize_token<'src>(&mut self, src: &'src str) -> (r: Result<
        Option<(Option<Token<'src>>, &'src str)>,
        LexError,
    >)
        requires
            src@.len() > 0,
            old(self)@.fits(byte_len(src@)),
        ensures
            ({
                let (kind, n) = first_lexeme(src@);
                let text = take_bytes(src@, n);
                match r {
                    Ok(Some((token, rest))) => {
                        &&& rest@ == skip_bytes(src@, n)
                        &&& byte_len(rest@) < byte_len(src@)
                        &&& final(self)@.fits(byte_len(rest@))
                        &&& match token {
                            Some(token) => {
                                &&& kind.is_textual()
                                &&& token.inner@ == Lexeme { kind, text }
                                &&& token.line == old(self)@.line
                                &&& token.char == old(self)@.column
                                &&& final(self)@ == old(self)@.advance(encode_utf8(text))
                            },
                            None => kind.is_trivia() && final(self)@ == old(self)@,
                        }
                    },
                    Ok(None) => kind is Punctuation && final(self)@ == old(self)@,
                    Err(e) => {
                        &&& kind is Unknown
                        &&& final(self)@ == old(self)@
                        &&& e == LexError::UnknownLexeme {
                            line: old(self)@.line as usize,
                            char: old(self)@.column as usize,
                        }
                    },
                }
            }),
    {
        let (kind, len) = first_token(src);
        let (token_str, rest) = split_at_bytes(src, len);
        let lexeme = match kind {
            LexemeKind::Ident => Token2::Ident(token_str),
            LexemeKind::Lifetime => Token2::Lifetime(token_str),
            LexemeKind::Literal => Token2::Literal(token_str),
            LexemeKind::RawIdent => Token2::RawIdent(token_str),
            LexemeKind::Whitespace | LexemeKind::LineComment | LexemeKind::BlockComment => {
                return Ok(Some((None, rest)));
            },
            LexemeKind::Unknown => {
                return Err(LexError::UnknownLexeme { line: self.line, char: self.char });
            },
            LexemeKind::Punctuation => {
                return Ok(None);
            },
        };
        let token = Token::new(lexeme, self.line, self.char);
        self.advance_counts(token_str);
        Ok(Some((Some(token), rest)))
    }

    /// Moves the position past `token`.
    fn advance_counts(&mut self, token: &str)
        requires
            old(self)@.fits(byte_len(token@)),
        ensures
            final(self)@ == old(self)@.advance(encode_utf8(token@)),
            forall|rest: nat|
                old(self)@.fits(byte_len(token@) + rest) ==> #[trigger] final(self)@.fits(rest),
    {
        let mut counter = crate::lex::Tokenizer::at(self.line, self.char);
        counter.advance_counts(token);
        let (line, char) = counter.position();
        self.line = line;
        self.char = char;
    }
}

/// Reads the tokens of a whole source file, after it has passed the syntax
/// check.
pub fn tokenize_file(source: &str) -> (r: Result<Vec<Token<'_>>, LexError>)
    requires
        byte_len(source@) < usize::MAX,
    ensures
        match r {
            Ok(tokens) => {
                &&& syntax_valid(source@)
                &&& tokens_from(source@, Position::start()) == Some(spanned_lexemes(tokens@))
            },
            Err(LexError::InvalidSyntax(_)) => !syntax_valid(source@),
            Err(LexError::UnknownLexeme { .. }) => {
                &&& syntax_valid(source@)
                &&& tokens_from(source@, Position::start()) is None
            },
        },
{
    match parse_file(source) {
        Ok(_) => {},
        Err(e) => {
            return Err(LexError::InvalidSyntax(display_syn_error(e)));
        },
    }
    let mut tokenizer = Tokenizer::new();
    let mut tokens: Vec<Token<'_>> = Vec::new();
    let mut cur = source;
    while !cur.is_empty()
        invariant
            syntax_valid(source@),
            tokenizer@.fits(byte_len(cur@)),
            tokens_from(source@, Position::start()) == lexed_after(
                spanned_lexemes(tokens@),
                tokens_from(cur@, tokenizer@),
            ),
        decreases byte_len(cur@),
    {
        let ghost before = tokenizer@;
        let ghost found = spanned_lexemes(tokens@);
        // the lexer reports `&&` as two `&`, so operators are recognized
        // here
        match tokenizer.recognize_token(cur) {
            Err(e) => {
                return Err(e);
            },
            Ok(Some((token, rest))) => {
                if let Some(token) = token {
                    tokens.push(token);
                    proof {
                        let lexeme = token.spanned();
                        assert(spanned_lexemes(tokens@) =~= found.push(lexeme));
                        assert(lexeme == spanned_at(token.inner@, before));
                        let tail = tokens_from(rest@, tokenizer@);
                        if tail is Some {
                            assert(found + (seq![lexeme] + tail->0) =~= found.push(lexeme)
                                + tail->0);
                        }
                    }
                }
                cur = rest;
            },
            Ok(None) => {
                match tokenizer.recognize_multichar_token(cur) {
                    Some((token, rest)) => {
                        tokens.push(token);
                        proof {
                            let rank = first_punctuation(cur@, 0)->0;
                            let lexeme = token.spanned();
                            assert(spanned_lexemes(tokens@) =~= found.push(lexeme));
                            assert(rest@ =~= cur@.skip(punctuation_at(rank).text().len() as int));
                            let tail = tokens_from(rest@, tokenizer@);
                            if tail is Some {
                                assert(found + (seq![lexeme] + tail->0) =~= found.push(lexeme)
                                    + tail->0);
                            }
                        }
                        cur = rest;
                    },
                    None => {
                        return Err(
                            LexError::UnknownLexeme { line: tokenizer.line, char: tokenizer.char },
                        );
                    },
                }
            },
        }
    }
    proof {
        assert(spanned_lexemes(tokens@) + Seq::<Spanned<Lexeme>>::empty() =~= spanned_lexemes(
            tokens@,
        ));
    }
    Ok(tokens)
}

} // verus!
