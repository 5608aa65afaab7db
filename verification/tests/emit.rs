use cargo_unfmt::emit::{
    adjust_block, adjust_exprs, adjust_exprs_by, adjust_stmts, adjust_stmts_by, block, block_len,
    ends_in_slash, is_slash, pack, render_line, strip_spacers,
};
use cargo_unfmt::ir::{Ir, RichToken};
use cargo_unfmt::junk::{junk, JUNK_COUNT};
use cargo_unfmt::lex::{lex_tokens, Spanned, Token};
use cargo_unfmt::location::Event;

fn word(text: &str) -> RichToken<'_> {
    RichToken::Token(Spanned::new(Token::Ident(text), 1, 1))
}

fn slash() -> RichToken<'static> {
    RichToken::Token(Spanned::new(Token::Slash, 1, 1))
}

fn open(id: usize, reps: usize) -> RichToken<'static> {
    RichToken::ExprOpen { id, reps }
}

fn close(id: usize, reps: usize) -> RichToken<'static> {
    RichToken::ExprClose { id, reps }
}

fn render(block: &[RichToken<'_>]) -> String {
    block.iter().map(|t| t.as_str()).collect()
}

fn width_of(block: &[RichToken<'_>]) -> usize {
    render(block).chars().count()
}

#[test]
fn junk_table_entry_is_as_long_as_its_index() {
    assert_eq!(JUNK_COUNT, 81);
    assert_eq!(junk(0), "");
    for n in 0..JUNK_COUNT {
        assert_eq!(junk(n).len(), n);
        assert!(junk(n).is_ascii());
    }
    for n in 0..JUNK_COUNT - 1 {
        assert!(junk(n).len() <= junk(n + 1).len());
    }
    assert_eq!(junk(1), ";");
    assert_eq!(junk(14), "if let _=(){};");
    assert_eq!(
        junk(80),
        "if true{};if true{};if true{};if true{};if true{};if true{};if true{};if true{};"
    );
}

#[test]
fn junk_table_entries_are_statements() {
    for n in 1..JUNK_COUNT {
        let source = format!("fn f(){{{}}}", junk(n));
        assert!(syn::parse_file(&source).is_ok(), "{}", junk(n));
    }
}

#[test]
fn block_len_sums_the_widths() {
    assert_eq!(block_len(&[]), 0);
    assert_eq!(
        block_len(&[
            word("ab"),
            RichToken::Spacer,
            RichToken::Junk(4),
            open(0, 2),
            close(0, 2),
            RichToken::EndOfLineComment(";"),
        ]),
        2 + 1 + 4 + 2 + 2 + 3
    );
    assert_eq!(block_len(&[word("h\u{e9}")]), 2);
}

#[test]
fn packing_fills_lines_below_the_width() {
    let stream = [word("aaa"), word("bbb"), word("cc"), word("d")];
    let lines = pack(&stream, 7);
    assert_eq!(
        lines,
        vec![vec![word("aaa"), word("bbb")], vec![word("cc"), word("d")]]
    );
    // a line never reaches the width itself
    let lines = pack(&stream, 6);
    assert_eq!(
        lines,
        vec![vec![word("aaa")], vec![word("bbb"), word("cc")], vec![word("d")]]
    );
    assert_eq!(pack(&[], 5), Vec::<Vec<RichToken<'_>>>::new());
}

#[test]
fn packing_gives_a_wide_element_its_own_line() {
    let stream = [word("a"), word("bbbbb"), word("c")];
    assert_eq!(
        pack(&stream, 5),
        vec![vec![word("a")], vec![word("bbbbb")], vec![word("c")]]
    );
    // the line before a wide element is closed even where it is empty
    let stream = [word("bbbbb"), word("cccccc"), word("d")];
    assert_eq!(
        pack(&stream, 5),
        vec![vec![], vec![word("bbbbb")], vec![], vec![word("cccccc")], vec![word("d")]]
    );
}

#[test]
fn packing_loses_nothing() {
    let tokens = lex_tokens("fn main(){let x=1;let yyyyyyyyyyyyyyyyyyyy=2;}").unwrap();
    let ir = Ir::new(tokens);
    for width in 1..30 {
        let lines = pack(ir.tokens(), width);
        let joined: Vec<RichToken<'_>> = lines.iter().flatten().copied().collect();
        assert_eq!(joined, ir.tokens().to_vec());
        for line in &lines {
            assert!(width_of(line) < width || line.len() <= 1);
        }
    }
}

#[test]
fn spacers_at_the_ends_are_stripped() {
    let mut line = vec![
        RichToken::Spacer,
        RichToken::Spacer,
        word("a"),
        RichToken::Spacer,
        word("b"),
        RichToken::Spacer,
    ];
    strip_spacers(&mut line);
    assert_eq!(line, vec![word("a"), RichToken::Spacer, word("b")]);
    let mut line = vec![RichToken::Spacer, RichToken::Spacer];
    strip_spacers(&mut line);
    assert_eq!(line, vec![]);
    let mut line = vec![RichToken::Junk(0), RichToken::Spacer, RichToken::Junk(0)];
    strip_spacers(&mut line);
    assert_eq!(line.len(), 3);
}

#[test]
fn deficit_is_spread_over_the_fillers() {
    let mut line = vec![RichToken::Junk(0), word("ab"), RichToken::Junk(0), RichToken::Junk(0)];
    adjust_stmts(&mut line, 10);
    assert_eq!(
        line,
        vec![RichToken::Junk(3), word("ab"), RichToken::Junk(3), RichToken::Junk(2)]
    );
    assert_eq!(width_of(&line), 10);
}

#[test]
fn fillers_grow_by_share_and_remainder() {
    let mut line = vec![RichToken::Junk(1), word("ab"), RichToken::Junk(0), RichToken::Junk(5)];
    adjust_stmts_by(&mut line, 7, &[0, 2, 3]);
    assert_eq!(
        line,
        vec![RichToken::Junk(4), word("ab"), RichToken::Junk(2), RichToken::Junk(7)]
    );
    adjust_stmts_by(&mut line, 0, &[0, 2, 3]);
    assert_eq!(
        line,
        vec![RichToken::Junk(4), word("ab"), RichToken::Junk(2), RichToken::Junk(7)]
    );
}

#[test]
fn fillers_stop_at_the_end_of_the_table() {
    let mut line = vec![RichToken::Junk(0), word("ab"), RichToken::Junk(79)];
    adjust_stmts(&mut line, 300);
    assert_eq!(line, vec![RichToken::Junk(80), word("ab"), RichToken::Junk(80)]);
}

#[test]
fn fillers_stay_when_the_line_is_full() {
    let mut line = vec![RichToken::Junk(0), word("abcdef")];
    adjust_stmts(&mut line, 4);
    assert_eq!(line, vec![RichToken::Junk(0), word("abcdef")]);
    let mut line = vec![word("a")];
    adjust_stmts(&mut line, 4);
    assert_eq!(line, vec![word("a")]);
}

#[test]
fn deficit_is_spread_over_the_parentheses() {
    // two pairs and seven characters: three repetitions, two for the first
    let mut line = vec![open(0, 0), word("a"), close(0, 0), open(1, 0), word("b"), close(1, 0)];
    adjust_exprs(&mut line, 9);
    assert_eq!(
        line,
        vec![open(0, 2), word("a"), close(0, 2), open(1, 1), word("b"), close(1, 1)]
    );
    assert_eq!(render(&line), "((a))(b)");
}

#[test]
fn parentheses_need_both_sides_on_the_line() {
    let mut line = vec![open(0, 0), word("a"), close(1, 0), close(2, 0), open(3, 0)];
    adjust_exprs(&mut line, 9);
    assert_eq!(
        line,
        vec![open(0, 0), word("a"), close(1, 0), close(2, 0), open(3, 0)]
    );
    // a closing parenthesis before its opening one is no pair
    let mut line = vec![close(0, 0), word("a"), open(0, 0)];
    adjust_exprs(&mut line, 9);
    assert_eq!(line, vec![close(0, 0), word("a"), open(0, 0)]);
}

#[test]
fn parentheses_grow_by_share_and_remainder() {
    let mut line = vec![open(0, 1), open(1, 0), word("a"), close(1, 0), close(0, 1)];
    adjust_exprs_by(&mut line, 11, &[(0, 4), (1, 3)]);
    assert_eq!(
        line,
        vec![open(0, 4), open(1, 2), word("a"), close(1, 2), close(0, 4)]
    );
    adjust_exprs_by(&mut line, 1, &[(0, 4), (1, 3)]);
    assert_eq!(
        line,
        vec![open(0, 4), open(1, 2), word("a"), close(1, 2), close(0, 4)]
    );
}

#[test]
fn expression_with_four_spare_characters() {
    let mut line = vec![
        open(0, 0),
        RichToken::Token(Spanned::new(Token::Ident("a"), 1, 1)),
        RichToken::Token(Spanned::new(Token::Plus, 1, 2)),
        RichToken::Token(Spanned::new(Token::Ident("b"), 1, 3)),
        close(0, 0),
    ];
    adjust_block(&mut line, 7);
    assert_eq!(render(&line), "((a+b))");
}

#[test]
fn one_missing_character_becomes_a_spacer_in_the_middle() {
    let mut line = vec![word("ab"), slash(), word("cd"), slash()];
    adjust_block(&mut line, 7);
    assert_eq!(
        line,
        vec![word("ab"), slash(), RichToken::Spacer, word("cd"), slash()]
    );
    let mut line = vec![open(0, 0), word("a"), close(0, 0)];
    adjust_block(&mut line, 4);
    assert_eq!(render(&line), "( a)");
}

#[test]
fn the_rest_goes_into_a_comment() {
    let mut line = vec![word("ab")];
    adjust_block(&mut line, 10);
    assert_eq!(line, vec![word("ab"), RichToken::EndOfLineComment("{();};")]);
    assert_eq!(render(&line), "ab//{();};");
    let mut line = vec![word("ab")];
    adjust_block(&mut line, 4);
    assert_eq!(render(&line), "ab//");
}

#[test]
fn comment_stops_at_the_end_of_the_table() {
    let mut line = vec![word("ab")];
    adjust_block(&mut line, 200);
    assert_eq!(line, vec![word("ab"), RichToken::EndOfLineComment(junk(80))]);
    assert_eq!(width_of(&line), 84);
}

#[test]
fn no_comment_behind_a_division_sign() {
    let mut line = vec![word("a"), slash()];
    adjust_block(&mut line, 10);
    assert_eq!(line, vec![word("a"), slash()]);
    let mut line = vec![word("a"), slash(), RichToken::Junk(0)];
    adjust_block(&mut line, 10);
    assert_eq!(line, vec![word("a"), slash(), RichToken::Junk(8)]);
    let mut line = vec![word("a"), slash(), open(0, 0), close(0, 0)];
    adjust_block(&mut line, 9);
    assert_eq!(render(&line), "a/ ((()))");
}

#[test]
fn division_sign_is_looked_for_behind_the_placeholders() {
    assert!(ends_in_slash(&[word("a"), slash()]));
    assert!(ends_in_slash(&[word("a"), slash(), RichToken::Junk(3), close(0, 1)]));
    assert!(ends_in_slash(&[slash(), RichToken::Spacer]));
    assert!(!ends_in_slash(&[slash(), word("a")]));
    assert!(!ends_in_slash(&[RichToken::Junk(3)]));
    assert!(!ends_in_slash(&[]));
    assert!(is_slash(&slash()));
    assert!(!is_slash(&word("a")));
    assert!(!is_slash(&RichToken::Spacer));
    assert!(!is_slash(&RichToken::Token(Spanned::new(Token::DivAssign, 1, 1))));
}

#[test]
fn empty_line_becomes_a_comment() {
    let mut line: Vec<RichToken<'_>> = vec![];
    adjust_block(&mut line, 5);
    assert_eq!(render(&line), "//();");
    let mut line: Vec<RichToken<'_>> = vec![];
    adjust_block(&mut line, 1);
    assert_eq!(line, vec![RichToken::Spacer]);
}

#[test]
fn full_line_is_left_alone() {
    let mut line = vec![
        RichToken::Junk(3),
        word("abc"),
        open(0, 1),
        word("d"),
        close(0, 1),
        RichToken::EndOfLineComment(";"),
    ];
    let before = line.clone();
    assert_eq!(width_of(&line), 12);
    adjust_block(&mut line, 12);
    assert_eq!(line, before);
    adjust_block(&mut line, 5);
    assert_eq!(line, before);
}

#[test]
fn justifying_again_changes_nothing() {
    let mut line = vec![RichToken::Junk(0), word("abc"), open(0, 0), word("d"), close(0, 0)];
    adjust_block(&mut line, 31);
    assert_eq!(width_of(&line), 31);
    let once = line.clone();
    adjust_block(&mut line, 31);
    assert_eq!(line, once);
}

#[test]
fn justifying_keeps_the_tokens() {
    for width in 1..120 {
        let mut line = vec![
            RichToken::Spacer,
            RichToken::Junk(0),
            word("abc"),
            RichToken::Spacer,
            open(0, 0),
            word("d"),
            slash(),
            word("e"),
            close(0, 0),
            RichToken::Junk(0),
            RichToken::Spacer,
        ];
        adjust_block(&mut line, width);
        let words: Vec<RichToken<'_>> = line
            .iter()
            .copied()
            .filter(|t| matches!(t, RichToken::Token(_)))
            .collect();
        assert_eq!(words, vec![word("abc"), word("d"), slash(), word("e")]);
        if width >= 8 {
            assert_eq!(width_of(&line), width);
        } else {
            assert_eq!(render(&line), "abc d/e");
        }
    }
}

#[test]
fn line_is_rendered_with_a_line_feed() {
    let mut out = b"x".to_vec();
    render_line(&mut out, &[word("h\u{e9}"), RichToken::Spacer, open(0, 2), RichToken::Junk(1)]);
    assert_eq!(out, "xh\u{e9} ((;\n".as_bytes().to_vec());
    render_line(&mut out, &[]);
    assert_eq!(out, "xh\u{e9} ((;\n\n".as_bytes().to_vec());
}

#[test]
fn lines_are_as_wide_as_the_width() {
    let source = "fn main(){let x=1;let y=x+2;foo(x,y);}";
    let tokens = lex_tokens(source).unwrap();
    let events = [
        Spanned::new(Event::StatementStart, 1, 11),
        Spanned::new(Event::StatementEnd, 1, 18),
        Spanned::new(Event::StatementStart, 1, 19),
        Spanned::new(Event::ExprOpen, 1, 25),
        Spanned::new(Event::ExprClose, 1, 27),
        Spanned::new(Event::StatementEnd, 1, 28),
        Spanned::new(Event::StatementStart, 1, 29),
        Spanned::new(Event::ExprOpen, 1, 29),
        Spanned::new(Event::ExprClose, 1, 36),
        Spanned::new(Event::StatementEnd, 1, 37),
    ];
    let ir = Ir::new(tokens).populate_events(&events);
    for width in 4..100 {
        let mut out = Vec::new();
        block(&mut out, &ir, width);
        let text = String::from_utf8(out).unwrap();
        assert!(text.ends_with('\n'));
        for line in text.lines() {
            assert!(line.chars().count() <= width, "{width}: {line}");
        }
        let again = lex_tokens(&text).unwrap();
        assert!(syn::parse_file(&text).is_ok(), "{width}: {text}");
        assert!(again.len() >= 19);
    }
}

#[test]
fn block_appends_to_the_writer() {
    let ir = Ir::new(lex_tokens("a;").unwrap());
    let mut out = b"#".to_vec();
    block(&mut out, &ir, 6);
    assert_eq!(out, b"#a;//3;\n".to_vec());
    let empty = Ir::new(vec![]);
    let mut out = Vec::new();
    block(&mut out, &empty, 6);
    assert_eq!(out, Vec::<u8>::new());
}
