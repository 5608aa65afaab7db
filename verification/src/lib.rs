//! Rewrites source text into lines that are as close as possible to one
//! target width, without changing what the program means.
//!
//! Documentation comments are taken out first ([`doc`]). The source is cut
//! into tokens ([`lex`]), the places where filler may go are read off the
//! syntax tree ([`location`]), both are merged into one stream ([`ir`]), and
//! the stream is packed into lines that are widened with fillers ([`junk`]),
//! parentheses, spaces and comments ([`emit`]). What holds of these stages
//! together is proved in [`laws`] and [`model`].
//!
//! Beside this stand a tokenizer that keeps its own count of the positions
//! ([`tokenizer`]) with a plain formatter for its lexemes ([`formatters`]),
//! a tokenizer that says on which side a piece of text repels
//! ([`morpheme`]), and the regions of macros and statements ([`visitors`]).

use vstd::prelude::*;
use crate::emit::{block, layout, rendered};
use crate::ir::{fusion_safe, populated, Ir};
use crate::laws::{lemma_fusion_safe_width, lemma_populated};
use crate::lex::{
    lex_file, lex_from, lexemes, stuck_at, syntax_valid, LexError, Position, Spanned, Token,
};
use crate::location::{forest_events, lemma_forest_balanced, Node, Visitor};
use crate::model::lemma_unformatted_by_model;
use crate::text::{byte_len, lemma_chars_le_bytes};

pub mod text;
pub mod junk;
pub mod lex;
pub mod location;
pub mod ir;
pub mod emit;
pub mod laws;
pub mod model;
pub mod doc;
pub mod visitors;
pub mod morpheme;
pub mod tokenizer;
pub mod formatters;

verus! {

/// The bytes that a file with these tokens and this syntax tree is laid out
/// as.
pub open spec fn unformatted(tokens: Seq<Spanned<Token<'_>>>, tree: Seq<Node>, width: nat) -> Seq<
    u8,
> {
    rendered(layout(populated(fusion_safe(tokens), forest_events(tree)), width))
}

/// Lays a source file out in lines of `width` characters.
///
/// Comments are dropped, statements are padded with fillers that do
/// nothing, expressions are wrapped in parentheses, and what is still
/// missing goes into a comment at the end of the line. `tree` is the syntax
/// tree of `src`: its statements and expressions with their positions.
///
/// Fails where the source does not pass the syntax check, or holds a lexeme
/// that cannot be recognized. Otherwise the bytes are those that the tokens
/// of the source are laid out as; they are the same for all tokens with the
/// classes, texts and positions that lexing gives.
pub fn unformat<'a>(src: &'a str, tree: &[Node], width: usize) -> (r: Result<Vec<u8>, LexError>)
    requires
        width >= 1,
        2 * byte_len(src@) < usize::MAX,
    ensures
        match r {
            Ok(bytes) => {
                &&& syntax_valid(src@)
                &&& exists|tokens: Seq<Spanned<Token<'a>>>|
                    lex_from(src@, Position::start()) == Some(#[trigger] lexemes(tokens))
                &&& forall|tokens: Seq<Spanned<Token<'a>>>|
                    lex_from(src@, Position::start()) == Some(#[trigger] lexemes(tokens))
                        ==> bytes@ == unformatted(tokens, tree@, width as nat)
            },
            Err(LexError::InvalidSyntax(_)) => !syntax_valid(src@),
            Err(LexError::UnknownLexeme { line, char }) => {
                &&& syntax_valid(src@)
                &&& lex_from(src@, Position::start()) is None
                &&& stuck_at(src@, Position::start()) == (Position {
                    line: line as nat,
                    column: char as nat,
                })
            },
        },
{
    let tokens = match lex_file(src) {
        Ok(tokens) => tokens,
        Err(e) => {
            return Err(e);
        },
    };
    let mut stmts = Visitor::new();
    stmts.visit_file(tree);
    let ghost lexed = tokens@;
    let ir = Ir::new(tokens);
    proof {
        assert(stmts@ =~= forest_events(tree@));
        lemma_forest_balanced(tree@);
        lemma_fusion_safe_width(lexed);
        lemma_populated(fusion_safe(lexed), forest_events(tree@));
        lemma_chars_le_bytes(src@);
    }
    let ir = ir.populate_events(stmts.regions());
    let mut unformatted: Vec<u8> = Vec::new();
    block(&mut unformatted, &ir, width);
    proof {
        assert(unformatted@ =~= crate::unformatted(lexed, tree@, width as nat));
        assert forall|tokens: Seq<Spanned<Token<'a>>>|
            lex_from(src@, Position::start()) == Some(
                #[trigger] lexemes(tokens),
            ) implies unformatted@ == crate::unformatted(tokens, tree@, width as nat) by {
            lemma_unformatted_by_model(lexed, tokens, tree@, width as nat);
        }
    }
    Ok(unformatted)
}

} // verus!
