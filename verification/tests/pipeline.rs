use cargo_unfmt::emit::{adjust_block, block, pack};
use cargo_unfmt::ir::{Ir, RichToken};
use cargo_unfmt::lex::{lex_file, lex_tokens, Spanned, Token};
use cargo_unfmt::location::{Event, ExprKind, Node, NodeKind, StmtKind, TokenStart, Visitor};
use cargo_unfmt::unformat;

fn texts(tokens: &[Spanned<Token<'_>>]) -> Vec<String> {
    tokens.iter().map(|t| t.inner.as_str().to_string()).collect()
}

fn render(block: &[RichToken<'_>]) -> String {
    block.iter().map(|t| t.as_str()).collect()
}

fn let_statement() -> Vec<Node> {
    let literal = Node {
        kind: NodeKind::Expr(ExprKind::Lit),
        start: TokenStart::new(1, 16),
        end: TokenStart::new(1, 16),
        children: vec![],
    };
    vec![Node {
        kind: NodeKind::Stmt(StmtKind::Local),
        start: TokenStart::new(1, 10),
        end: TokenStart::new(1, 17),
        children: vec![literal],
    }]
}

#[test]
fn lexes_a_small_function() {
    let tokens = lex_tokens("fn main(){let x=1;}").unwrap();
    assert_eq!(
        texts(&tokens),
        vec!["fn", "main", "(", ")", "{", "let", "x", "=", "1", ";", "}"]
    );
    assert_eq!(tokens[5], Spanned::new(Token::Ident("let"), 1, 11));
    assert_eq!(tokens[8], Spanned::new(Token::Literal("1"), 1, 17));
    assert_eq!(tokens[9], Spanned::new(Token::Semi, 1, 18));
}

#[test]
fn pads_a_statement_to_the_width() {
    let out = unformat("fn main(){let x=1;}", &let_statement(), 40).unwrap();
    assert_eq!(
        String::from_utf8(out).unwrap(),
        "fn main(){let _=||();let x=1;if true{};}\n"
    );
}

#[test]
fn colon_and_path_separator_stay_apart() {
    let tokens = vec![
        Spanned::new(Token::Colon, 1, 1),
        Spanned::new(Token::PathSeparator, 1, 2),
    ];
    let ir = Ir::new(tokens);
    assert_eq!(render(ir.tokens()), ": ::");
}

#[test]
fn spare_width_goes_into_parentheses() {
    let mut line = vec![
        RichToken::ExprOpen { id: 0, reps: 0 },
        RichToken::Token(Spanned::new(Token::Ident("a"), 1, 1)),
        RichToken::Token(Spanned::new(Token::Plus, 1, 2)),
        RichToken::Token(Spanned::new(Token::Ident("b"), 1, 3)),
        RichToken::ExprClose { id: 0, reps: 0 },
    ];
    adjust_block(&mut line, 7);
    assert_eq!(render(&line), "((a+b))");
}

#[test]
fn oversized_identifier_has_its_own_line() {
    let long = "a".repeat(50);
    let source = format!("x;{long};y;");
    let tokens = lex_tokens(&source).unwrap();
    let ir = Ir::new(tokens);
    let lines = pack(ir.tokens(), 10);
    let rendered: Vec<String> = lines.iter().map(|l| render(l)).collect();
    assert_eq!(rendered, vec!["x;".to_string(), long.clone(), ";y;".to_string()]);
    let mut out = Vec::new();
    block(&mut out, &ir, 10);
    let text = String::from_utf8(out).unwrap();
    let lines: Vec<&str> = text.lines().collect();
    assert_eq!(lines.len(), 3);
    assert_eq!(lines[1], long);
    assert_eq!(lines[0].chars().count(), 10);
    assert_eq!(lines[2].chars().count(), 10);
}

#[test]
fn invalid_source_is_refused() {
    assert!(matches!(
        lex_file("fn main( {"),
        Err(cargo_unfmt::lex::LexError::InvalidSyntax(_))
    ));
}

#[test]
fn visitor_collects_events_in_source_order() {
    let mut visitor = Visitor::new();
    visitor.visit_file(&let_statement());
    assert_eq!(
        visitor.regions().to_vec(),
        vec![
            Spanned::new(Event::StatementStart, 1, 11),
            Spanned::new(Event::ExprOpen, 1, 17),
            Spanned::new(Event::ExprClose, 1, 17),
            Spanned::new(Event::StatementEnd, 1, 18),
        ]
    );
}

#[test]
fn source_token_becomes_a_rich_token() {
    let token = Spanned::new(Token::Ident("a"), 2, 3);
    assert_eq!(RichToken::from(token), RichToken::Token(token));
}

#[test]
fn unformat_reports_what_lexing_reports() {
    assert!(matches!(
        unformat("fn main( {", &[], 40),
        Err(cargo_unfmt::lex::LexError::InvalidSyntax(_))
    ));
    assert_eq!(unformat("", &[], 40), Ok(vec![]));
}

#[test]
fn unformat_without_a_tree_only_adds_comments() {
    let out = unformat("fn main(){let x=1;}", &[], 12).unwrap();
    assert_eq!(
        String::from_utf8(out).unwrap(),
        "fn main(){//\nlet x=1;}//;\n"
    );
}

#[test]
fn misplaced_tree_only_loses_the_parentheses() {
    // the literal is reported one column too far to the right
    let literal = Node {
        kind: NodeKind::Expr(ExprKind::Lit),
        start: TokenStart::new(1, 17),
        end: TokenStart::new(1, 17),
        children: vec![],
    };
    let tree = vec![Node {
        kind: NodeKind::Stmt(StmtKind::Local),
        start: TokenStart::new(1, 10),
        end: TokenStart::new(1, 17),
        children: vec![literal],
    }];
    let out = unformat("fn main(){let x=1;}", &tree, 40).unwrap();
    assert_eq!(
        String::from_utf8(out).unwrap(),
        "fn main(){let _=||();let x=1;if true{};}\n"
    );
}

#[test]
fn output_lexes_to_the_same_tokens() {
    let source = "fn main(){let x: ::std::primitive::u8=1;let y=x< -1;let z=a/ *b;}";
    let before: Vec<Token<'_>> = lex_file(source).unwrap().iter().map(|t| t.inner).collect();
    for width in 1..90 {
        let out = unformat(source, &[], width).unwrap();
        let text = String::from_utf8(out).unwrap();
        let after: Vec<Token<'_>> = lex_tokens(&text).unwrap().iter().map(|t| t.inner).collect();
        assert_eq!(before, after, "{width}: {text}");
    }
}
