use cargo_unfmt::doc::{is_whitespace, remove_doc_comments};

#[test]
fn documentation_comments_are_removed() {
    assert_eq!(
        remove_doc_comments("/// says hello\nfn hello(){}\n"),
        "fn hello(){}"
    );
    assert_eq!(
        remove_doc_comments("mod a{\n    /// inner\n\t///tab\n    fn f(){}\n}"),
        "mod a{\n    fn f(){}\n}"
    );
    assert_eq!(remove_doc_comments("///a\n///b"), "");
    assert_eq!(remove_doc_comments("////four"), "");
}

#[test]
fn other_lines_are_kept() {
    assert_eq!(remove_doc_comments("a\n\nb"), "a\n\nb");
    assert_eq!(remove_doc_comments("// plain\n//! inner\nx"), "// plain\n//! inner\nx");
    assert_eq!(remove_doc_comments("let x = 1; /// behind\n"), "let x = 1; /// behind");
    assert_eq!(remove_doc_comments("/ //\n//"), "/ //\n//");
    assert_eq!(remove_doc_comments(""), "");
    assert_eq!(remove_doc_comments("h\u{e9}\n"), "h\u{e9}");
}

#[test]
fn line_endings_become_line_feeds() {
    assert_eq!(remove_doc_comments("a\r\nb\r\n"), "a\nb");
    assert_eq!(remove_doc_comments("a\r\n/// x\r\nb"), "a\nb");
    assert_eq!(remove_doc_comments("a\n\n"), "a\n");
    assert_eq!(remove_doc_comments("\n"), "");
    assert_eq!(remove_doc_comments("\n\n"), "\n");
    // a carriage return alone ends no line
    assert_eq!(remove_doc_comments("a\rb\r"), "a\rb\r");
    assert_eq!(remove_doc_comments("a\r\r\n"), "a\r");
}

#[test]
fn removal_agrees_with_lines_and_join() {
    let sources = [
        "",
        "\n",
        "a",
        "a\n",
        " \t/// x\ny\r\n\r\n///\n z \n",
        "\u{a0}///nbsp\n\u{3000}/// wide\n\u{200b}/// zero width is no space\n",
        "x\r",
        "\r\n\r\n",
        "/// only",
    ];
    for source in sources {
        let mut kept = vec![];
        for line in source.lines() {
            if !line.trim_start().starts_with("///") {
                kept.push(line);
            }
        }
        assert_eq!(remove_doc_comments(source), kept.join("\n"), "{source:?}");
    }
}

#[test]
fn white_space_is_what_the_standard_library_says() {
    for code in 0..0x4000u32 {
        if let Some(c) = char::from_u32(code) {
            assert_eq!(is_whitespace(c), c.is_whitespace(), "{code:x}");
        }
    }
    assert!(!is_whitespace('\u{feff}'));
    assert!(!is_whitespace('\u{200b}'));
}
