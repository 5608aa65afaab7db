use cargo_unfmt::formatters::{append, BlockUnformatter};
use cargo_unfmt::tokenizer::{tokenize_file, Token2};

fn lexemes(source: &str) -> Vec<Token2<'_>> {
    tokenize_file(source).unwrap().iter().map(|t| t.inner).collect()
}

#[test]
fn lines_are_broken_at_the_width() {
    let tokens = lexemes("fn main(){let x=1;}");
    assert_eq!(
        BlockUnformatter::<10>.unformat(&tokens),
        "fn main(){\nlet x=1;}"
    );
    assert_eq!(
        BlockUnformatter::<8>.unformat(&tokens),
        "fn main(\n){let x=\n1;}"
    );
    assert_eq!(
        BlockUnformatter::<100>.unformat(&tokens),
        "fn main(){let x=1;}"
    );
}

#[test]
fn line_is_ended_behind_a_lexeme_that_ends_closer_to_the_width() {
    let tokens = [Token2::Ident("abcdef"), Token2::Ident("ghijk"), Token2::Ident("x")];
    assert_eq!(BlockUnformatter::<10>.unformat(&tokens), "abcdef ghijk\n x");
    let tokens = [Token2::Ident("abcdefgh"), Token2::Ident("ghijk"), Token2::Ident("x")];
    assert_eq!(BlockUnformatter::<10>.unformat(&tokens), "abcdefgh\n ghijk x");
}

#[test]
fn line_that_passed_the_width_is_ended() {
    let tokens = [Token2::Ident("abcdefghijkl"), Token2::Semi, Token2::CloseBrace];
    assert_eq!(BlockUnformatter::<10>.unformat(&tokens), "abcdefghijkl\n;}");
    assert_eq!(BlockUnformatter::<0>.unformat(&tokens), "abcdefghijkl\n;\n}");
}

#[test]
fn no_lexemes_give_no_text() {
    assert_eq!(BlockUnformatter::<10>.unformat(&[]), "");
    assert_eq!(BlockUnformatter::<10>.unformat(&[Token2::Semi]), ";");
}

#[test]
fn lexemes_that_repel_get_a_space() {
    let mut buf = String::from("a");
    assert_eq!(append(&mut buf, &Token2::Ident("a"), &Token2::Literal("12")), 3);
    assert_eq!(buf, "a 12");
    assert_eq!(append(&mut buf, &Token2::Literal("12"), &Token2::Semi), 1);
    assert_eq!(buf, "a 12;");
    assert_eq!(append(&mut buf, &Token2::Semi, &Token2::Lifetime("'a")), 2);
    assert_eq!(buf, "a 12;'a");
    assert_eq!(append(&mut buf, &Token2::Lifetime("'a"), &Token2::RawIdent("r#b")), 4);
    assert_eq!(buf, "a 12;'a r#b");
}
