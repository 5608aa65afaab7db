use cargo_unfmt::lex::LexError;
use cargo_unfmt::morpheme::{Morpheme, MorphemeKind, Tokenizer};

#[test]
fn idents_separated() {
    assert_eq!(
        Tokenizer::tokenize_file("use it;").unwrap(),
        vec![
            Morpheme::repel("use"),
            Morpheme::repel("it"),
            Morpheme::tight(";"),
        ],
    )
}

#[test]
fn lifetime_repels_ident() {
    assert_eq!(
        Tokenizer::tokenize_file("type x = &'a ident;").unwrap(),
        vec![
            Morpheme::repel("type"),
            Morpheme::repel("x"),
            Morpheme::tight("="),
            Morpheme::tight("&"),
            Morpheme::repel_right("'a"), // the important ones
            Morpheme::repel("ident"),    //
            Morpheme::tight(";"),
        ]
    )
}

#[test]
fn morphemes_are_built_from_text_and_kind() {
    assert_eq!(
        Morpheme::new("a", MorphemeKind::RepelLeft),
        Morpheme { str: "a", kind: MorphemeKind::RepelLeft }
    );
    assert_eq!(Morpheme::repel("a").kind, MorphemeKind::Repel);
    assert_eq!(Morpheme::repel_right("a").kind, MorphemeKind::RepelRight);
    assert_eq!(Morpheme::tight("a").kind, MorphemeKind::Tight);
    assert_eq!(Morpheme::tight("a").str, "a");
}

#[test]
fn operators_are_taken_as_a_whole() {
    assert_eq!(
        Tokenizer::tokenize_file("fn f(){a >>= 1 ..= 2;}").unwrap(),
        vec![
            Morpheme::repel("fn"),
            Morpheme::repel("f"),
            Morpheme::tight("("),
            Morpheme::tight(")"),
            Morpheme::tight("{"),
            Morpheme::repel("a"),
            Morpheme::tight(">>="),
            Morpheme::repel("1"),
            Morpheme::tight("..="),
            Morpheme::repel("2"),
            Morpheme::tight(";"),
            Morpheme::tight("}"),
        ]
    );
}

#[test]
fn lexeme_behind_an_operator_is_read_alone() {
    // the `&&` that follows `==` directly comes out as two `&`
    assert_eq!(
        Tokenizer::tokenize_file("fn f(){a==&&b;}").unwrap()[6..9].to_vec(),
        vec![Morpheme::tight("=="), Morpheme::tight("&"), Morpheme::tight("&")]
    );
    assert_eq!(
        Tokenizer::tokenize_file("fn f(){a== &&b;}").unwrap()[6..8].to_vec(),
        vec![Morpheme::tight("=="), Morpheme::tight("&&")]
    );
}

#[test]
fn single_steps_collect_operators() {
    let mut tokenizer = Tokenizer::new();
    assert_eq!(tokenizer.tokens(), &[]);
    assert_eq!(tokenizer.recognize_multichar_token("->x"), Some("x"));
    assert_eq!(tokenizer.recognize_multichar_token("-x"), None);
    assert_eq!(tokenizer.recognize_multichar_token(""), None);
    assert_eq!(tokenizer.recognize_multichar_token("..."), Some(""));
    assert_eq!(tokenizer.tokens(), &[Morpheme::tight("->"), Morpheme::tight("...")]);
}

#[test]
fn invalid_file_has_no_morphemes() {
    assert!(matches!(
        Tokenizer::tokenize_file("use it"),
        Err(LexError::InvalidSyntax(_))
    ));
    assert_eq!(Tokenizer::tokenize_file("").unwrap(), vec![]);
}
