use cargo_unfmt::lex::{
    display_syn_error, lex_file, lex_tokens, punctuation, Affinity, LexError, Spanned, Token,
    Tokenizer, PUNCTUATION_COUNT,
};

fn positions(source: &str) -> Vec<(String, usize, usize)> {
    lex_tokens(source)
        .unwrap()
        .iter()
        .map(|t| (t.inner.as_str().to_string(), t.line, t.char))
        .collect()
}

fn at(text: &str, line: usize, char: usize) -> (String, usize, usize) {
    (text.to_string(), line, char)
}

#[test]
fn empty_source_has_no_tokens() {
    assert_eq!(lex_tokens("").unwrap(), vec![]);
    assert_eq!(lex_tokens("  \n\t ").unwrap(), vec![]);
}

#[test]
fn whitespace_moves_the_position() {
    assert_eq!(positions("a\n  b"), vec![at("a", 1, 1), at("b", 2, 3)]);
}

#[test]
fn comments_are_dropped_and_counted() {
    assert_eq!(
        positions("a // hi\nb /* c */ d"),
        vec![at("a", 1, 1), at("b", 2, 1), at("d", 2, 11)]
    );
}

#[test]
fn literal_over_two_lines_moves_the_line() {
    assert_eq!(
        positions("\"x\ny\" z"),
        vec![at("\"x\ny\"", 1, 1), at("z", 2, 4)]
    );
}

#[test]
fn columns_count_bytes() {
    assert_eq!(
        positions("\"\u{e9}\" x"),
        vec![at("\"\u{e9}\"", 1, 1), at("x", 1, 6)]
    );
}

#[test]
fn textual_tokens_are_classified() {
    let tokens = lex_tokens("r#fn 'a 1.5 x 'c'").unwrap();
    let inner: Vec<Token<'_>> = tokens.iter().map(|t| t.inner).collect();
    assert_eq!(
        inner,
        vec![
            Token::RawIdent("r#fn"),
            Token::Lifetime("'a"),
            Token::Literal("1.5"),
            Token::Ident("x"),
            Token::Literal("'c'"),
        ]
    );
}

#[test]
fn longer_operators_win_over_their_prefixes() {
    let tokens = lex_tokens("..= ... .. :: -> => == != <= >= && || >>= <<= >> << += -= *= /= %= ^= &= |=").unwrap();
    let inner: Vec<Token<'_>> = tokens.iter().map(|t| t.inner).collect();
    assert_eq!(
        inner,
        vec![
            Token::RangeInclusive,
            Token::VariadicArgs,
            Token::Range,
            Token::PathSeparator,
            Token::ParameterArrow,
            Token::FatArrow,
            Token::EqualCheck,
            Token::NotEqual,
            Token::LessThanEq,
            Token::GreaterThanEq,
            Token::BooleanAnd,
            Token::BooleanOr,
            Token::ShiftRightAssign,
            Token::ShiftLeftAssign,
            Token::ShiftRight,
            Token::ShiftLeft,
            Token::AddAssign,
            Token::SubAssign,
            Token::MulAssign,
            Token::DivAssign,
            Token::ModAssign,
            Token::XorAssign,
            Token::AndAssign,
            Token::OrAssign,
        ]
    );
}

#[test]
fn single_punctuation_is_recognized() {
    let tokens = lex_tokens("(){}[]:;,.@#~?$=!<>-&|+*/^%").unwrap();
    let inner: Vec<Token<'_>> = tokens.iter().map(|t| t.inner).collect();
    assert_eq!(
        inner,
        vec![
            Token::OpenParen,
            Token::CloseParen,
            Token::OpenBrace,
            Token::CloseBrace,
            Token::OpenBracket,
            Token::CloseBracket,
            Token::Colon,
            Token::Semi,
            Token::Comma,
            Token::Dot,
            Token::At,
            Token::Pound,
            Token::Tilde,
            Token::Question,
            Token::Dollar,
            Token::Eq,
            Token::Not,
            Token::LessThan,
            Token::GreatherThan,
            Token::Minus,
            Token::And,
            Token::Or,
            Token::Plus,
            Token::Star,
            Token::Slash,
            Token::Caret,
            Token::Percent,
        ]
    );
    assert_eq!(tokens[26], Spanned::new(Token::Percent, 1, 27));
}

#[test]
fn operators_move_the_column_by_their_length() {
    assert_eq!(
        positions("a>>=b..c"),
        vec![
            at("a", 1, 1),
            at(">>=", 1, 2),
            at("b", 1, 5),
            at("..", 1, 6),
            at("c", 1, 8)
        ]
    );
}

#[test]
fn recognition_order_never_hides_a_longer_token() {
    for later in 0..PUNCTUATION_COUNT {
        for earlier in 0..later {
            let short = punctuation(earlier).as_str();
            let long = punctuation(later).as_str();
            assert!(
                !(long.starts_with(short)),
                "{short} is tried before {long}"
            );
        }
    }
    assert_eq!(punctuation(0), Token::RangeInclusive);
    assert_eq!(punctuation(23), Token::OrAssign);
    assert_eq!(punctuation(24), Token::OpenParen);
    assert_eq!(punctuation(50), Token::Percent);
}

#[test]
fn every_punctuation_token_is_short_and_tight() {
    for rank in 0..PUNCTUATION_COUNT {
        let token = punctuation(rank);
        assert!((1..=3).contains(&token.len()));
        assert_eq!(token.len(), token.as_str().chars().count());
        assert_eq!(token.affinity(), Affinity::Tight);
    }
}

#[test]
fn textual_tokens_repel() {
    assert_eq!(Token::Ident("a").affinity(), Affinity::Repel);
    assert_eq!(Token::Lifetime("'a").affinity(), Affinity::Repel);
    assert_eq!(Token::Literal("1").affinity(), Affinity::Repel);
    assert_eq!(Token::RawIdent("r#a").affinity(), Affinity::Repel);
}

#[test]
fn token_length_is_in_bytes() {
    assert_eq!(Token::Ident("h\u{e9}llo").len(), 6);
    assert_eq!(Token::ShiftLeftAssign.len(), 3);
    assert_eq!(Token::Semi.as_str(), ";");
}

#[test]
fn unknown_lexeme_is_reported_with_its_position() {
    assert_eq!(
        lex_tokens("a \\"),
        Err(LexError::UnknownLexeme { line: 1, char: 3 })
    );
    assert_eq!(
        lex_tokens("a\n\\"),
        Err(LexError::UnknownLexeme { line: 2, char: 1 })
    );
}

#[test]
fn syntax_is_checked_before_lexing() {
    assert!(matches!(lex_file("fn main( {"), Err(LexError::InvalidSyntax(_))));
    assert!(matches!(lex_file("let x = 1;"), Err(LexError::InvalidSyntax(_))));
    let tokens = lex_file("fn main(){}").unwrap();
    assert_eq!(tokens.len(), 6);
}

#[test]
fn syntax_error_is_shown_with_its_position() {
    let error = match syn::parse_file("fn main( {") {
        Ok(_) => panic!("the source is not valid"),
        Err(error) => error,
    };
    let shown = display_syn_error(error);
    assert!(shown.starts_with("error @ "));
    assert!(shown.contains("line"));
}

#[test]
fn tokenizer_takes_one_step_at_a_time() {
    let mut tokenizer = Tokenizer::new();
    assert_eq!(tokenizer.position(), (1, 1));
    assert_eq!(tokenizer.lex_textual_token("::x"), Ok(None));
    assert_eq!(
        tokenizer.lex_punctuation_token("::x"),
        Some((Spanned::new(Token::PathSeparator, 1, 1), "x"))
    );
    assert_eq!(tokenizer.position(), (1, 3));
    assert_eq!(
        tokenizer.lex_textual_token("x y"),
        Ok(Some((Some(Spanned::new(Token::Ident("x"), 1, 3)), " y")))
    );
    assert_eq!(tokenizer.lex_textual_token(" y"), Ok(Some((None, "y"))));
    assert_eq!(tokenizer.position(), (1, 5));
    assert_eq!(tokenizer.lex_punctuation_token("y"), None);
    assert_eq!(tokenizer.position(), (1, 5));
}

#[test]
fn position_follows_line_feeds() {
    let mut tokenizer = Tokenizer::at(3, 7);
    tokenizer.advance_counts("ab");
    assert_eq!(tokenizer.position(), (3, 9));
    tokenizer.advance_counts("a\nbc\nd");
    assert_eq!(tokenizer.position(), (5, 2));
    tokenizer.advance_counts("\n");
    assert_eq!(tokenizer.position(), (6, 1));
    tokenizer.advance_counts("");
    assert_eq!(tokenizer.position(), (6, 1));
}

#[test]
fn spanned_values_align_by_position() {
    let a = Spanned::new(1u8, 2, 3);
    let b = Spanned::new("x", 2, 3);
    let c = Spanned::new("x", 2, 4);
    assert!(a.aligns_with(&b));
    assert!(!a.aligns_with(&c));
    assert_eq!(a.into_inner(), 1u8);
}
