//! Morphemes: the pieces of a source file, each with the side on which it
//! has to be kept apart from its neighbour.

use vstd::prelude::*;
use crate::lex::{
    display_syn_error, first_lexeme, first_token, lemma_punctuation_text, parse_file, punctuation,
    punctuation_at, syntax_valid, LexError, LexemeKind,
};
use crate::text::{
    byte_len, lemma_encode_concat, skip_bytes, split_at_bytes, strip_prefix, take_bytes,
};

verus! {

/// On which side a morpheme must be kept apart from its neighbour.
#[derive(Debug, PartialEq, Eq, Clone, Copy, Structural)]
pub enum MorphemeKind {
    Repel,
    RepelRight,
    RepelLeft,
    Tight,
}

/// A piece of source text and its kind.
#[derive(Debug, PartialEq, Eq, Clone, Copy)]
pub struct Morpheme<'a> {
    pub str: &'a str,
    pub kind: MorphemeKind,
}

/// The model of a morpheme: its text and its kind.
pub struct Piece {
    pub text: Seq<char>,
    pub kind: MorphemeKind,
}

impl<'a> View for Morpheme<'a> {
    type V = Piece;

    open spec fn view(&self) -> Piece {
        Piece { text: self.str@, kind: self.kind }
    }
}

impl<'a> Morpheme<'a> {
    pub fn new(str: &'a str, kind: MorphemeKind) -> (m: Self)
        ensures
            m.str == str,
            m.kind == kind,
    {
        Self { str, kind }
    }

    pub fn repel(str: &'a str) -> (m: Self)
        ensures
            m.str == str,
            m.kind == MorphemeKind::Repel,
    {
        Morpheme::new(str, MorphemeKind::Repel)
    }

    pub fn repel_right(str: &'a str) -> (m: Self)
        ensures
            m.str == str,
            m.kind == MorphemeKind::RepelRight,
    {
        Morpheme::new(str, MorphemeKind::RepelRight)
    }

    pub fn tight(str: &'a str) -> (m: Self)
        ensures
            m.str == str,
            m.kind == MorphemeKind::Tight,
    {
        Morpheme::new(str, MorphemeKind::Tight)
    }
}

/// The operators of more than one character come first in the recognition
/// order of the punctuation; this is how many there are.
pub const OPERATOR_COUNT: usize = 24;

/// The first operator of more than one character, from `rank` on in the
/// recognition order, whose text begins `src`.
pub open spec fn first_operator(src: Seq<char>, rank: int) -> Option<int>
    decreases OPERATOR_COUNT - rank,
{
    if rank < 0 || rank >= OPERATOR_COUNT {
        None
    } else if punctuation_at(rank).text().is_prefix_of(src) {
        Some(rank)
    } else {
        first_operator(src, rank + 1)
    }
}

/// The kind of the morpheme that a lexeme becomes. Words and literals repel
/// on both sides, a lifetime on its right; everything else is tight.
pub open spec fn morpheme_kind(kind: LexemeKind) -> MorphemeKind {
    match kind {
        LexemeKind::Ident => MorphemeKind::Repel,
        LexemeKind::Lifetime => MorphemeKind::RepelRight,
        LexemeKind::Literal => MorphemeKind::Repel,
        _ => MorphemeKind::Tight,
    }
}

/// The morphemes of a text. Where an operator of more than one character
/// begins the text, it is the first morpheme. The lexeme that follows is the
/// next one, unless it is whitespace or a comment.
pub open spec fn pieces_from(src: Seq<char>) -> Seq<Piece>
    decreases byte_len(src),
{
    if src.len() == 0 {
        Seq::empty()
    } else {
        let operator = match first_operator(src, 0) {
            Some(rank) => seq![
                Piece { text: punctuation_at(rank).text(), kind: MorphemeKind::Tight },
            ],
            None => Seq::empty(),
        };
        let after = match first_operator(src, 0) {
            Some(rank) => src.skip(punctuation_at(rank).text().len() as int),
            None => src,
        };
        if after.len() == 0 {
            operator
        } else {
            let (kind, n) = first_lexeme(after);
            let lexeme = if kind.is_trivia() {
                Seq::empty()
            } else {
                seq![Piece { text: take_bytes(after, n), kind: morpheme_kind(kind) }]
            };
            let rest = skip_bytes(after, n);
            if byte_len(rest) < byte_len(src) {
                operator + lexeme + pieces_from(rest)
            } else {
                operator + lexeme
            }
        }
    }
}

/// The models of a sequence of morphemes.
pub open spec fn pieces(morphemes: Seq<Morpheme<'_>>) -> Seq<Piece> {
    morphemes.map_values(|m: Morpheme<'_>| m@)
}

/// Collects the morphemes of a file.
#[derive(Debug, PartialEq, Eq)]
pub struct Tokenizer<'a> {
    tokens: Vec<Morpheme<'a>>,
}

impl<'a> View for Tokenizer<'a> {
    type V = Seq<Piece>;

    closed spec fn view(&self) -> Seq<Piece> {
        pieces(self.tokens@)
    }
}

impl<'a> Tokenizer<'a> {
    pub fn new() -> (tokenizer: Self)
        ensures
            tokenizer@ == Seq::<Piece>::empty(),
    {
        let tokenizer = Self { tokens: Vec::new() };
        assert(tokenizer@ =~= Seq::<Piece>::empty());
        tokenizer
    }

    /// The morphemes collected so far.
    pub fn tokens(&self) -> (tokens: &[Morpheme<'a>])
        ensures
            pieces(tokens@) == self@,
    {
        self.tokens.as_slice()
    }

    /// Recognizes an operator of more than one character at the start of
    /// `source`. The operators are tried in the recognition order; the first
    /// that fits is collected, and what follows it is returned.
    pub fn recognize_multichar_token(&mut self, source: &'a str) -> (r: Option<&'a str>)
        ensures
            match first_operator(source@, 0) {
                Some(rank) => {
                    &&& r matches Some(rest)
                    &&& source@ == punctuation_at(rank).text() + rest@
                    &&& byte_len(rest@) < byte_len(source@)
                    &&& final(self)@ == old(self)@.push(
                        Piece { text: punctuation_at(rank).text(), kind: MorphemeKind::Tight },
                    )
                },
                None => r is None && final(self)@ == old(self)@,
            },
    {
        let mut rank: usize = 0;
        while rank < OPERATOR_COUNT
            invariant
                rank <= OPERATOR_COUNT,
                *self == *old(self),
                first_operator(source@, 0) == first_operator(source@, rank as int),
            decreases OPERATOR_COUNT - rank,
        {
            let text = punctuation(rank).as_str();
            if let Some(rest) = strip_prefix(source, text) {
                proof {
                    lemma_punctuation_text(rank as int);
                    lemma_encode_concat(text@, rest@);
                    assert(text@.is_prefix_of(source@));
                }
                self.tokens.push(Morpheme::new(text, MorphemeKind::Tight));
                proof {
                    assert(self@ =~= old(self)@.push(
                        Piece { text: text@, kind: MorphemeKind::Tight },
                    ));
                }
                return Some(rest);
            }
            rank += 1;
        }
        None
    }

    /// Cuts a source file into its morphemes, after it has passed the
    /// syntax check. Whitespace and comments are dropped.
    pub fn tokenize_file(source: &'a str) -> (r: Result<Vec<Morpheme<'a>>, LexError>)
        ensures
            match r {
                Ok(morphemes) => syntax_valid(source@) && pieces(morphemes@) == pieces_from(
                    source@,
                ),
                Err(e) => e is InvalidSyntax && !syntax_valid(source@),
            },
    {
        let mut tokenizer = Self::new();
        match parse_file(source) {
            Ok(_) => {},
            Err(e) => {
                return Err(LexError::InvalidSyntax(display_syn_error(e)));
            },
        }
        let mut cur = source;
        proof {
            assert(tokenizer@ + pieces_from(cur@) =~= pieces_from(cur@));
        }
        while !cur.is_empty()
            invariant
                pieces_from(source@) == tokenizer@ + pieces_from(cur@),
            decreases byte_len(cur@),
        {
            let ghost found = tokenizer@;
            let ghost whole = cur@;
            // an operator of several characters is taken as a whole: lexed
            // alone, `&&` would come out as two `&`
            let after = match tokenizer.recognize_multichar_token(cur) {
                Some(rest) => rest,
                None => cur,
            };
            let ghost operator = tokenizer@.skip(found.len() as int);
            proof {
                assert(tokenizer@ =~= found + operator);
                if let Some(rank) = first_operator(whole, 0) {
                    assert(after@ =~= whole.skip(punctuation_at(rank).text().len() as int));
                }
            }
            if after.is_empty() {
                cur = after;
                proof {
                    assert(tokenizer@ + pieces_from(cur@) =~= found + operator);
                }
            } else {
                let (kind, len) = first_token(after);
                let (text, rest) = split_at_bytes(after, len);
                match kind {
                    LexemeKind::Whitespace | LexemeKind::LineComment | LexemeKind::BlockComment => {
                        proof {
                            assert(found + (operator + Seq::<Piece>::empty() + pieces_from(rest@))
                                =~= tokenizer@ + pieces_from(rest@));
                        }
                    },
                    _ => {
                        let mtype = match kind {
                            LexemeKind::Ident => MorphemeKind::Repel,
                            LexemeKind::Lifetime => MorphemeKind::RepelRight,
                            LexemeKind::Literal => MorphemeKind::Repel,
                            _ => MorphemeKind::Tight,
                        };
                        let ghost before = tokenizer@;
                        tokenizer.tokens.push(Morpheme::new(text, mtype));
                        proof {
                            let piece = Piece { text: text@, kind: mtype };
                            assert(tokenizer@ =~= before.push(piece));
                            assert(found + (operator + seq![piece] + pieces_from(rest@))
                                =~= tokenizer@ + pieces_from(rest@));
                        }
                    },
                }
                cur = rest;
            }
        }
        proof {
            assert(tokenizer@ + pieces_from(cur@) =~= tokenizer@);
        }
        Ok(tokenizer.tokens)
    }
}

} // verus!
