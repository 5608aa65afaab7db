use cargo_unfmt::ir::{needs_spacer, Ir, RichToken};
use cargo_unfmt::lex::{lex_tokens, Spanned, Token};
use cargo_unfmt::location::Event;

fn render(stream: &[RichToken<'_>]) -> String {
    stream.iter().map(|t| t.as_str()).collect()
}

fn stream_of(source: &str) -> Ir<'_> {
    Ir::new(lex_tokens(source).unwrap())
}

#[test]
fn every_dangerous_pair_gets_a_spacer() {
    let words = [
        Token::Ident("a"),
        Token::RawIdent("r#a"),
        Token::Literal("1"),
        Token::Lifetime("'a"),
    ];
    let mut pairs = vec![
        (Token::Colon, Token::PathSeparator),
        (Token::Slash, Token::Star),
        (Token::LessThan, Token::Minus),
        (Token::Range, Token::FatArrow),
        (Token::LessThan, Token::LessThan),
        (Token::GreatherThan, Token::FatArrow),
        (Token::Plus, Token::FatArrow),
        (Token::Star, Token::FatArrow),
        (Token::Question, Token::FatArrow),
    ];
    for prev in words {
        for next in words {
            pairs.push((prev, next));
        }
        pairs.push((prev, Token::Pound));
    }
    for (prev, next) in pairs {
        assert!(needs_spacer(&prev, &next), "{prev:?} {next:?}");
        let ir = Ir::new(vec![Spanned::new(prev, 1, 1), Spanned::new(next, 1, 5)]);
        assert_eq!(
            ir.tokens().to_vec(),
            vec![
                RichToken::Token(Spanned::new(prev, 1, 1)),
                RichToken::Spacer,
                RichToken::Token(Spanned::new(next, 1, 5)),
            ]
        );
        assert_eq!(
            render(ir.tokens()),
            format!("{} {}", prev.as_str(), next.as_str())
        );
    }
}

#[test]
fn harmless_pairs_get_no_spacer() {
    let pairs = [
        (Token::Semi, Token::Ident("a")),
        (Token::Ident("a"), Token::OpenParen),
        (Token::PathSeparator, Token::Colon),
        (Token::Star, Token::Slash),
        (Token::Minus, Token::LessThan),
        (Token::FatArrow, Token::Range),
        (Token::Pound, Token::Ident("a")),
        (Token::Minus, Token::FatArrow),
        (Token::Eq, Token::Literal("1")),
        (Token::And, Token::Lifetime("'a")),
    ];
    for (prev, next) in pairs {
        assert!(!needs_spacer(&prev, &next), "{prev:?} {next:?}");
    }
}

#[test]
fn colon_before_path_separator() {
    assert_eq!(render(stream_of("let x: ::std::u8 = 1;").tokens()), "let x: ::std::u8=1;");
}

#[test]
fn stream_keeps_tokens_in_order() {
    let ir = stream_of("type x = &'a ident;");
    assert_eq!(render(ir.tokens()), "type x=&'a ident;");
    assert_eq!(Ir::new(vec![]).tokens().to_vec(), vec![]);
}

#[test]
fn rich_tokens_render_as_their_text() {
    let token = RichToken::Token(Spanned::new(Token::Ident("h\u{e9}"), 1, 1));
    assert_eq!(token.as_str(), "h\u{e9}");
    assert_eq!(token.as_bytes(), "h\u{e9}".as_bytes().to_vec());
    assert_eq!(token.len(), 2);
    assert_eq!(RichToken::Spacer.as_str(), " ");
    assert_eq!(RichToken::Spacer.as_bytes(), b" ".to_vec());
    assert_eq!(RichToken::Spacer.len(), 1);
    assert_eq!(RichToken::Junk(0).as_str(), "");
    assert_eq!(RichToken::Junk(9).as_str(), "let _=();");
    assert_eq!(RichToken::Junk(9).as_bytes(), b"let _=();".to_vec());
    assert_eq!(RichToken::Junk(9).len(), 9);
    assert_eq!(RichToken::EndOfLineComment("();").as_str(), "//();");
    assert_eq!(RichToken::EndOfLineComment("();").as_bytes(), b"//();".to_vec());
    assert_eq!(RichToken::EndOfLineComment("();").len(), 5);
    assert_eq!(RichToken::EndOfLineComment("").len(), 2);
    assert_eq!(RichToken::ExprOpen { id: 7, reps: 3 }.as_str(), "(((");
    assert_eq!(RichToken::ExprOpen { id: 7, reps: 3 }.len(), 3);
    assert_eq!(RichToken::ExprOpen { id: 7, reps: 0 }.as_str(), "");
    assert_eq!(RichToken::ExprClose { id: 7, reps: 2 }.as_str(), "))");
    assert_eq!(RichToken::ExprClose { id: 7, reps: 2 }.as_bytes(), b"))".to_vec());
    assert_eq!(RichToken::ExprClose { id: 7, reps: 2 }.len(), 2);
}

#[test]
fn events_become_placeholders_around_their_tokens() {
    let ir = stream_of("let x=1;");
    let events = [
        Spanned::new(Event::StatementStart, 1, 1),
        Spanned::new(Event::ExprOpen, 1, 7),
        Spanned::new(Event::ExprClose, 1, 7),
        Spanned::new(Event::StatementEnd, 1, 8),
    ];
    let merged = ir.populate_events(&events);
    assert_eq!(
        merged.tokens().to_vec(),
        vec![
            RichToken::Junk(0),
            RichToken::Token(Spanned::new(Token::Ident("let"), 1, 1)),
            RichToken::Spacer,
            RichToken::Token(Spanned::new(Token::Ident("x"), 1, 5)),
            RichToken::Token(Spanned::new(Token::Eq, 1, 6)),
            RichToken::ExprOpen { id: 0, reps: 0 },
            RichToken::Token(Spanned::new(Token::Literal("1"), 1, 7)),
            RichToken::ExprClose { id: 0, reps: 0 },
            RichToken::Token(Spanned::new(Token::Semi, 1, 8)),
            RichToken::Junk(0),
        ]
    );
    assert_eq!(render(merged.tokens()), render(ir.tokens()));
}

#[test]
fn nested_expressions_get_matching_ids() {
    // (a+b)
    let ir = stream_of("(a+b)");
    let events = [
        Spanned::new(Event::ExprOpen, 1, 1),
        Spanned::new(Event::ExprOpen, 1, 2),
        Spanned::new(Event::ExprClose, 1, 4),
        Spanned::new(Event::ExprClose, 1, 5),
    ];
    let merged = ir.populate_events(&events);
    assert_eq!(
        merged.tokens().to_vec(),
        vec![
            RichToken::ExprOpen { id: 0, reps: 0 },
            RichToken::Token(Spanned::new(Token::OpenParen, 1, 1)),
            RichToken::ExprOpen { id: 1, reps: 0 },
            RichToken::Token(Spanned::new(Token::Ident("a"), 1, 2)),
            RichToken::Token(Spanned::new(Token::Plus, 1, 3)),
            RichToken::Token(Spanned::new(Token::Ident("b"), 1, 4)),
            RichToken::ExprClose { id: 1, reps: 0 },
            RichToken::Token(Spanned::new(Token::CloseParen, 1, 5)),
            RichToken::ExprClose { id: 0, reps: 0 },
        ]
    );
}

#[test]
fn expression_that_opens_and_closes_at_one_token() {
    let ir = stream_of("x");
    let events = [
        Spanned::new(Event::StatementStart, 1, 1),
        Spanned::new(Event::ExprOpen, 1, 1),
        Spanned::new(Event::ExprClose, 1, 1),
        Spanned::new(Event::StatementEnd, 1, 1),
    ];
    assert_eq!(
        ir.populate_events(&events).tokens().to_vec(),
        vec![
            RichToken::Junk(0),
            RichToken::ExprOpen { id: 0, reps: 0 },
            RichToken::Token(Spanned::new(Token::Ident("x"), 1, 1)),
            RichToken::ExprClose { id: 0, reps: 0 },
            RichToken::Junk(0),
        ]
    );
}

#[test]
fn misaligned_event_gives_up_the_expressions() {
    let ir = stream_of("let x=1;");
    let events = [
        Spanned::new(Event::StatementStart, 1, 1),
        Spanned::new(Event::ExprOpen, 1, 2),
        Spanned::new(Event::ExprOpen, 1, 7),
        Spanned::new(Event::ExprClose, 1, 7),
        Spanned::new(Event::ExprClose, 1, 7),
        Spanned::new(Event::StatementEnd, 1, 8),
    ];
    let merged = ir.populate_events(&events);
    assert_eq!(
        merged.tokens().to_vec(),
        vec![
            RichToken::Junk(0),
            RichToken::Token(Spanned::new(Token::Ident("let"), 1, 1)),
            RichToken::Spacer,
            RichToken::Token(Spanned::new(Token::Ident("x"), 1, 5)),
            RichToken::Token(Spanned::new(Token::Eq, 1, 6)),
            RichToken::Token(Spanned::new(Token::Literal("1"), 1, 7)),
            RichToken::Token(Spanned::new(Token::Semi, 1, 8)),
            RichToken::Junk(0),
        ]
    );
}

#[test]
fn events_out_of_order_stay_in_the_queue() {
    let ir = stream_of("a;b;");
    // the first event lies at the second statement: nothing before it in
    // the queue can be consumed at the first one
    let events = [
        Spanned::new(Event::StatementStart, 1, 3),
        Spanned::new(Event::StatementStart, 1, 1),
    ];
    assert_eq!(
        ir.populate_events(&events).tokens().to_vec(),
        vec![
            RichToken::Token(Spanned::new(Token::Ident("a"), 1, 1)),
            RichToken::Token(Spanned::new(Token::Semi, 1, 2)),
            RichToken::Junk(0),
            RichToken::Token(Spanned::new(Token::Ident("b"), 1, 3)),
            RichToken::Token(Spanned::new(Token::Semi, 1, 4)),
        ]
    );
}

#[test]
fn no_events_change_nothing() {
    let ir = stream_of("a b");
    assert_eq!(ir.populate_events(&[]).tokens().to_vec(), ir.tokens().to_vec());
}
