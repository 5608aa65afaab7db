//! The table of fillers: fragments that are valid at statement position and
//! do nothing when they run. The entry at index `n` is exactly `n` characters
//! long, so a filler can take up any width up to the last index.

use vstd::prelude::*;
use vstd::utf8::{is_ascii_chars, is_ascii_chars_encode_utf8};
use crate::text::byte_len;

verus! {

/// Number of entries in the table.
pub const JUNK_COUNT: usize = 81;

/// The entry at index `n`; the last entry stands for every larger index.
pub open spec fn junk_str(n: int) -> &'static str {
    if n == 0 {
        ""
    } else if n == 1 {
        ";"
    } else if n == 2 {
        "3;"
    } else if n == 3 {
        "();"
    } else if n == 4 {
        "{;};"
    } else if n == 5 {
        "({});"
    } else if n == 6 {
        "{();};"
    } else if n == 7 {
        "*&*&();"
    } else if n == 8 {
        "((),());"
    } else if n == 9 {
        "let _=();"
    } else if n == 10 {
        "if true{};"
    } else if n == 11 {
        "let _=||();"
    } else if n == 12 {
        "loop{break};"
    } else if n == 13 {
        "loop{break;};"
    } else if n == 14 {
        "if let _=(){};"
    } else if n == 15 {
        "*&*&();((),());"
    } else if n == 16 {
        "((),());((),());"
    } else if n == 17 {
        "((),());let _=();"
    } else if n == 18 {
        "let _=();let _=();"
    } else if n == 19 {
        "let _=();if true{};"
    } else if n == 20 {
        "if true{};if true{};"
    } else if n == 21 {
        "if true{};let _=||();"
    } else if n == 22 {
        "let _=||();let _=||();"
    } else if n == 23 {
        "let _=||();loop{break};"
    } else if n == 24 {
        "loop{break};loop{break};"
    } else if n == 25 {
        "loop{break};loop{break;};"
    } else if n == 26 {
        "loop{break;};loop{break;};"
    } else if n == 27 {
        "loop{break;};if let _=(){};"
    } else if n == 28 {
        "if let _=(){};if let _=(){};"
    } else if n == 29 {
        "if let _=(){};*&*&();((),());"
    } else if n == 30 {
        "*&*&();((),());*&*&();((),());"
    } else if n == 31 {
        "*&*&();((),());((),());((),());"
    } else if n == 32 {
        "((),());((),());((),());((),());"
    } else if n == 33 {
        "((),());((),());((),());let _=();"
    } else if n == 34 {
        "((),());let _=();((),());let _=();"
    } else if n == 35 {
        "((),());let _=();let _=();let _=();"
    } else if n == 36 {
        "let _=();let _=();let _=();let _=();"
    } else if n == 37 {
        "let _=();let _=();let _=();if true{};"
    } else if n == 38 {
        "let _=();if true{};let _=();if true{};"
    } else if n == 39 {
        "let _=();if true{};if true{};if true{};"
    } else if n == 40 {
        "if true{};if true{};if true{};if true{};"
    } else if n == 41 {
        "if true{};if true{};if true{};let _=||();"
    } else if n == 42 {
        "if true{};let _=||();if true{};let _=||();"
    } else if n == 43 {
        "if true{};let _=||();let _=||();let _=||();"
    } else if n == 44 {
        "let _=||();let _=||();let _=||();let _=||();"
    } else if n == 45 {
        "let _=||();let _=||();let _=||();loop{break};"
    } else if n == 46 {
        "let _=||();loop{break};let _=||();loop{break};"
    } else if n == 47 {
        "let _=||();loop{break};loop{break};loop{break};"
    } else if n == 48 {
        "loop{break};loop{break};loop{break};loop{break};"
    } else if n == 49 {
        "loop{break};loop{break};loop{break};loop{break;};"
    } else if n == 50 {
        "loop{break};loop{break;};loop{break};loop{break;};"
    } else if n == 51 {
        "loop{break};loop{break;};loop{break;};loop{break;};"
    } else if n == 52 {
        "loop{break;};loop{break;};loop{break;};loop{break;};"
    } else if n == 53 {
        "loop{break;};loop{break;};loop{break;};if let _=(){};"
    } else if n == 54 {
        "loop{break;};if let _=(){};loop{break;};if let _=(){};"
    } else if n == 55 {
        "loop{break;};if let _=(){};if let _=(){};if let _=(){};"
    } else if n == 56 {
        "if let _=(){};if let _=(){};if let _=(){};if let _=(){};"
    } else if n == 57 {
        "if let _=(){};if let _=(){};if let _=(){};*&*&();((),());"
    } else if n == 58 {
        "if let _=(){};*&*&();((),());if let _=(){};*&*&();((),());"
    } else if n == 59 {
        "if let _=(){};*&*&();((),());*&*&();((),());*&*&();((),());"
    } else if n == 60 {
        "*&*&();((),());*&*&();((),());*&*&();((),());*&*&();((),());"
    } else if n == 61 {
        "*&*&();((),());*&*&();((),());*&*&();((),());((),());((),());"
    } else if n == 62 {
        "*&*&();((),());((),());((),());*&*&();((),());((),());((),());"
    } else if n == 63 {
        "*&*&();((),());((),());((),());((),());((),());((),());((),());"
    } else if n == 64 {
        "((),());((),());((),());((),());((),());((),());((),());((),());"
    } else if n == 65 {
        "((),());((),());((),());((),());((),());((),());((),());let _=();"
    } else if n == 66 {
        "((),());((),());((),());let _=();((),());((),());((),());let _=();"
    } else if n == 67 {
        "((),());((),());((),());let _=();((),());let _=();((),());let _=();"
    } else if n == 68 {
        "((),());let _=();((),());let _=();((),());let _=();((),());let _=();"
    } else if n == 69 {
        "((),());let _=();((),());let _=();((),());let _=();let _=();let _=();"
    } else if n == 70 {
        "((),());let _=();let _=();let _=();((),());let _=();let _=();let _=();"
    } else if n == 71 {
        "((),());let _=();let _=();let _=();let _=();let _=();let _=();let _=();"
    } else if n == 72 {
        "let _=();let _=();let _=();let _=();let _=();let _=();let _=();let _=();"
    } else if n == 73 {
        "let _=();let _=();let _=();let _=();let _=();let _=();let _=();if true{};"
    } else if n == 74 {
        "let _=();let _=();let _=();if true{};let _=();let _=();let _=();if true{};"
    } else if n == 75 {
        "let _=();let _=();let _=();if true{};let _=();if true{};let _=();if true{};"
    } else if n == 76 {
        "let _=();if true{};let _=();if true{};let _=();if true{};let _=();if true{};"
    } else if n == 77 {
        "let _=();if true{};let _=();if true{};let _=();if true{};if true{};if true{};"
    } else if n == 78 {
        "let _=();if true{};if true{};if true{};let _=();if true{};if true{};if true{};"
    } else if n == 79 {
        "let _=();if true{};if true{};if true{};if true{};if true{};if true{};if true{};"
    } else {
        "if true{};if true{};if true{};if true{};if true{};if true{};if true{};if true{};"
    }
}

/// The text of the entry at index `n`.
pub open spec fn junk_text(n: int) -> Seq<char> {
    junk_str(n)@
}

/// The entry of the table at index `n`.
pub fn junk(n: usize) -> (s: &'static str)
    requires
        n < JUNK_COUNT,
    ensures
        s == junk_str(n as int),
        s@ == junk_text(n as int),
{
    match n {
        0 => "",
        1 => ";",
        2 => "3;",
        3 => "();",
        4 => "{;};",
        5 => "({});",
        6 => "{();};",
        7 => "*&*&();",
        8 => "((),());",
        9 => "let _=();",
        10 => "if true{};",
        11 => "let _=||();",
        12 => "loop{break};",
        13 => "loop{break;};",
        14 => "if let _=(){};",
        15 => "*&*&();((),());",
        16 => "((),());((),());",
        17 => "((),());let _=();",
        18 => "let _=();let _=();",
        19 => "let _=();if true{};",
        20 => "if true{};if true{};",
        21 => "if true{};let _=||();",
        22 => "let _=||();let _=||();",
        23 => "let _=||();loop{break};",
        24 => "loop{break};loop{break};",
        25 => "loop{break};loop{break;};",
        26 => "loop{break;};loop{break;};",
        27 => "loop{break;};if let _=(){};",
        28 => "if let _=(){};if let _=(){};",
        29 => "if let _=(){};*&*&();((),());",
        30 => "*&*&();((),());*&*&();((),());",
        31 => "*&*&();((),());((),());((),());",
        32 => "((),());((),());((),());((),());",
        33 => "((),());((),());((),());let _=();",
        34 => "((),());let _=();((),());let _=();",
        35 => "((),());let _=();let _=();let _=();",
        36 => "let _=();let _=();let _=();let _=();",
        37 => "let _=();let _=();let _=();if true{};",
        38 => "let _=();if true{};let _=();if true{};",
        39 => "let _=();if true{};if true{};if true{};",
        40 => "if true{};if true{};if true{};if true{};",
        41 => "if true{};if true{};if true{};let _=||();",
        42 => "if true{};let _=||();if true{};let _=||();",
        43 => "if true{};let _=||();let _=||();let _=||();",
        44 => "let _=||();let _=||();let _=||();let _=||();",
        45 => "let _=||();let _=||();let _=||();loop{break};",
        46 => "let _=||();loop{break};let _=||();loop{break};",
        47 => "let _=||();loop{break};loop{break};loop{break};",
        48 => "loop{break};loop{break};loop{break};loop{break};",
        49 => "loop{break};loop{break};loop{break};loop{break;};",
        50 => "loop{break};loop{break;};loop{break};loop{break;};",
        51 => "loop{break};loop{break;};loop{break;};loop{break;};",
        52 => "loop{break;};loop{break;};loop{break;};loop{break;};",
        53 => "loop{break;};loop{break;};loop{break;};if let _=(){};",
        54 => "loop{break;};if let _=(){};loop{break;};if let _=(){};",
        55 => "loop{break;};if let _=(){};if let _=(){};if let _=(){};",
        56 => "if let _=(){};if let _=(){};if let _=(){};if let _=(){};",
        57 => "if let _=(){};if let _=(){};if let _=(){};*&*&();((),());",
        58 => "if let _=(){};*&*&();((),());if let _=(){};*&*&();((),());",
        59 => "if let _=(){};*&*&();((),());*&*&();((),());*&*&();((),());",
        60 => "*&*&();((),());*&*&();((),());*&*&();((),());*&*&();((),());",
        61 => "*&*&();((),());*&*&();((),());*&*&();((),());((),());((),());",
        62 => "*&*&();((),());((),());((),());*&*&();((),());((),());((),());",
        63 => "*&*&();((),());((),());((),());((),());((),());((),());((),());",
        64 => "((),());((),());((),());((),());((),());((),());((),());((),());",
        65 => "((),());((),());((),());((),());((),());((),());((),());let _=();",
        66 => "((),());((),());((),());let _=();((),());((),());((),());let _=();",
        67 => "((),());((),());((),());let _=();((),());let _=();((),());let _=();",
        68 => "((),());let _=();((),());let _=();((),());let _=();((),());let _=();",
        69 => "((),());let _=();((),());let _=();((),());let _=();let _=();let _=();",
        70 => "((),());let _=();let _=();let _=();((),());let _=();let _=();let _=();",
        71 => "((),());let _=();let _=();let _=();let _=();let _=();let _=();let _=();",
        72 => "let _=();let _=();let _=();let _=();let _=();let _=();let _=();let _=();",
        73 => "let _=();let _=();let _=();let _=();let _=();let _=();let _=();if true{};",
        74 => "let _=();let _=();let _=();if true{};let _=();let _=();let _=();if true{};",
        75 => "let _=();let _=();let _=();if true{};let _=();if true{};let _=();if true{};",
        76 => "let _=();if true{};let _=();if true{};let _=();if true{};let _=();if true{};",
        77 => "let _=();if true{};let _=();if true{};let _=();if true{};if true{};if true{};",
        78 => "let _=();if true{};if true{};if true{};let _=();if true{};if true{};if true{};",
        79 => "let _=();if true{};if true{};if true{};if true{};if true{};if true{};if true{};",
        _ => "if true{};if true{};if true{};if true{};if true{};if true{};if true{};if true{};",
    }
}

/// The entry at index `n` is `n` ASCII characters long.
pub proof fn lemma_junk_len(n: int)
    requires
        0 <= n < JUNK_COUNT,
    ensures
        junk_text(n).len() == n,
        is_ascii_chars(junk_text(n)),
        byte_len(junk_text(n)) == n,
{
    reveal_strlit("");
    reveal_strlit(";");
    reveal_strlit("3;");
    reveal_strlit("();");
    reveal_strlit("{;};");
    reveal_strlit("({});");
    reveal_strlit("{();};");
    reveal_strlit("*&*&();");
    reveal_strlit("((),());");
    reveal_strlit("let _=();");
    reveal_strlit("if true{};");
    reveal_strlit("let _=||();");
    reveal_strlit("loop{break};");
    reveal_strlit("loop{break;};");
    reveal_strlit("if let _=(){};");
    reveal_strlit("*&*&();((),());");
    reveal_strlit("((),());((),());");
    reveal_strlit("((),());let _=();");
    reveal_strlit("let _=();let _=();");
    reveal_strlit("let _=();if true{};");
    reveal_strlit("if true{};if true{};");
    reveal_strlit("if true{};let _=||();");
    reveal_strlit("let _=||();let _=||();");
    reveal_strlit("let _=||();loop{break};");
    reveal_strlit("loop{break};loop{break};");
    reveal_strlit("loop{break};loop{break;};");
    reveal_strlit("loop{break;};loop{break;};");
    reveal_strlit("loop{break;};if let _=(){};");
    reveal_strlit("if let _=(){};if let _=(){};");
    reveal_strlit("if let _=(){};*&*&();((),());");
    reveal_strlit("*&*&();((),());*&*&();((),());");
    reveal_strlit("*&*&();((),());((),());((),());");
    reveal_strlit("((),());((),());((),());((),());");
    reveal_strlit("((),());((),());((),());let _=();");
    reveal_strlit("((),());let _=();((),());let _=();");
    reveal_strlit("((),());let _=();let _=();let _=();");
    reveal_strlit("let _=();let _=();let _=();let _=();");
    reveal_strlit("let _=();let _=();let _=();if true{};");
    reveal_strlit("let _=();if true{};let _=();if true{};");
    reveal_strlit("let _=();if true{};if true{};if true{};");
    reveal_strlit("if true{};if true{};if true{};if true{};");
    reveal_strlit("if true{};if true{};if true{};let _=||();");
    reveal_strlit("if true{};let _=||();if true{};let _=||();");
    reveal_strlit("if true{};let _=||();let _=||();let _=||();");
    reveal_strlit("let _=||();let _=||();let _=||();let _=||();");
    reveal_strlit("let _=||();let _=||();let _=||();loop{break};");
    reveal_strlit("let _=||();loop{break};let _=||();loop{break};");
    reveal_strlit("let _=||();loop{break};loop{break};loop{break};");
    reveal_strlit("loop{break};loop{break};loop{break};loop{break};");
    reveal_strlit("loop{break};loop{break};loop{break};loop{break;};");
    reveal_strlit("loop{break};loop{break;};loop{break};loop{break;};");
    reveal_strlit("loop{break};loop{break;};loop{break;};loop{break;};");
    reveal_strlit("loop{break;};loop{break;};loop{break;};loop{break;};");
    reveal_strlit("loop{break;};loop{break;};loop{break;};if let _=(){};");
    reveal_strlit("loop{break;};if let _=(){};loop{break;};if let _=(){};");
    reveal_strlit("loop{break;};if let _=(){};if let _=(){};if let _=(){};");
    reveal_strlit("if let _=(){};if let _=(){};if let _=(){};if let _=(){};");
    reveal_strlit("if let _=(){};if let _=(){};if let _=(){};*&*&();((),());");
    reveal_strlit("if let _=(){};*&*&();((),());if let _=(){};*&*&();((),());");
    reveal_strlit("if let _=(){};*&*&();((),());*&*&();((),());*&*&();((),());");
    reveal_strlit("*&*&();((),());*&*&();((),());*&*&();((),());*&*&();((),());");
    reveal_strlit("*&*&();((),());*&*&();((),());*&*&();((),());((),());((),());");
    reveal_strlit("*&*&();((),());((),());((),());*&*&();((),());((),());((),());");
    reveal_strlit("*&*&();((),());((),());((),());((),());((),());((),());((),());");
    reveal_strlit("((),());((),());((),());((),());((),());((),());((),());((),());");
    reveal_strlit("((),());((),());((),());((),());((),());((),());((),());let _=();");
    reveal_strlit("((),());((),());((),());let _=();((),());((),());((),());let _=();");
    reveal_strlit("((),());((),());((),());let _=();((),());let _=();((),());let _=();");
    reveal_strlit("((),());let _=();((),());let _=();((),());let _=();((),());let _=();");
    reveal_strlit("((),());let _=();((),());let _=();((),());let _=();let _=();let _=();");
    reveal_strlit("((),());let _=();let _=();let _=();((),());let _=();let _=();let _=();");
    reveal_strlit("((),());let _=();let _=();let _=();let _=();let _=();let _=();let _=();");
    reveal_strlit("let _=();let _=();let _=();let _=();let _=();let _=();let _=();let _=();");
    reveal_strlit("let _=();let _=();let _=();let _=();let _=();let _=();let _=();if true{};");
    reveal_strlit("let _=();let _=();let _=();if true{};let _=();let _=();let _=();if true{};");
    reveal_strlit("let _=();let _=();let _=();if true{};let _=();if true{};let _=();if true{};");
    reveal_strlit("let _=();if true{};let _=();if true{};let _=();if true{};let _=();if true{};");
    reveal_strlit("let _=();if true{};let _=();if true{};let _=();if true{};if true{};if true{};");
    reveal_strlit("let _=();if true{};if true{};if true{};let _=();if true{};if true{};if true{};");
    reveal_strlit("let _=();if true{};if true{};if true{};if true{};if true{};if true{};if true{};");
    reveal_strlit("if true{};if true{};if true{};if true{};if true{};if true{};if true{};if true{};");
    is_ascii_chars_encode_utf8(junk_text(n));
}

/// The table starts with the empty fragment and its entries never get
/// shorter from one index to the next.
pub proof fn lemma_junk_monotonic(i: int)
    requires
        0 <= i,
        i + 1 < JUNK_COUNT,
    ensures
        junk_text(0).len() == 0,
        junk_text(i).len() <= junk_text(i + 1).len(),
{
    lemma_junk_len(0);
    lemma_junk_len(i);
    lemma_junk_len(i + 1);
}

} // verus!
