use cargo_unfmt::lex::LexError;
use cargo_unfmt::tokenizer::{tokenize_file, Affinity, Token, Token2, Tokenizer};

#[test]
fn whitespace_does_not_move_the_position() {
    assert_eq!(
        tokenize_file("fn  main(){}").unwrap(),
        vec![
            Token::new(Token2::Ident("fn"), 1, 1),
            Token::new(Token2::Ident("main"), 1, 3),
            Token::new(Token2::OpenParen, 1, 7),
            Token::new(Token2::CloseParen, 1, 8),
            Token::new(Token2::OpenBrace, 1, 9),
            Token::new(Token2::CloseBrace, 1, 10),
        ]
    );
    assert_eq!(
        tokenize_file("fn a(){}\nfn b(){}").unwrap()[6],
        Token::new(Token2::Ident("fn"), 1, 8)
    );
}

#[test]
fn only_tokens_move_the_line() {
    let tokens = tokenize_file("const A:&str=\"x\ny\";const B:u8=1;").unwrap();
    assert_eq!(tokens[5], Token::new(Token2::Eq, 1, 12));
    assert_eq!(tokens[6], Token::new(Token2::Literal("\"x\ny\""), 1, 13));
    assert_eq!(tokens[7], Token::new(Token2::Semi, 2, 3));
    assert_eq!(tokens[8], Token::new(Token2::Ident("const"), 2, 4));
}

#[test]
fn lexemes_have_their_text_and_affinity() {
    assert_eq!(Token2::Ident("abc").as_str(), "abc");
    assert_eq!(Token2::ShiftRightAssign.as_str(), ">>=");
    assert_eq!(Token2::GreatherThan.as_str(), ">");
    assert_eq!(Token2::Literal("1").affinity(), Affinity::Repel);
    assert_eq!(Token2::Lifetime("'a").affinity(), Affinity::Repel);
    assert_eq!(Token2::Dot.affinity(), Affinity::Tight);
    assert_eq!(
        Token2::from_token(cargo_unfmt::lex::Token::FatArrow),
        Token2::FatArrow
    );
    assert_eq!(
        Token2::from_token(cargo_unfmt::lex::Token::RawIdent("r#x")),
        Token2::RawIdent("r#x")
    );
}

#[test]
fn single_steps_return_what_follows() {
    let mut tokenizer = Tokenizer::new();
    assert_eq!(
        tokenizer.recognize_token("ab cd"),
        Ok(Some((Some(Token::new(Token2::Ident("ab"), 1, 1)), " cd")))
    );
    assert_eq!(tokenizer.recognize_token(" cd"), Ok(Some((None, "cd"))));
    assert_eq!(
        tokenizer.recognize_token("cd"),
        Ok(Some((Some(Token::new(Token2::Ident("cd"), 1, 3)), "")))
    );
    assert_eq!(tokenizer.recognize_token("<<=1"), Ok(None));
    assert_eq!(
        tokenizer.recognize_multichar_token("<<=1"),
        Some((Token::new(Token2::ShiftLeftAssign, 1, 5), "1"))
    );
    assert_eq!(
        tokenizer.recognize_token("1"),
        Ok(Some((Some(Token::new(Token2::Literal("1"), 1, 8)), "")))
    );
    assert_eq!(tokenizer.recognize_multichar_token("x"), None);
    assert_eq!(
        tokenizer.recognize_token("\\"),
        Err(LexError::UnknownLexeme { line: 1, char: 9 })
    );
}

#[test]
fn invalid_file_has_no_tokens() {
    assert!(matches!(tokenize_file("fn"), Err(LexError::InvalidSyntax(_))));
    assert_eq!(tokenize_file("").unwrap(), vec![]);
}
