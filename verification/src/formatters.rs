//! A plain formatter: the lexemes of a file one after the other, with a line
//! feed wherever a line has reached its width.

use vstd::prelude::*;
use vstd::string::StringExecFns;
use crate::text::{byte_len, str_byte_len};
use crate::tokenizer::{Affinity, Token2};

verus! {

/// Breaks the lines of a file near the column `N`.
pub struct BlockUnformatter<const N: usize>;

/// What has been written so far, and how many bytes of it stand on the
/// last line.
pub struct Page {
    pub text: Seq<char>,
    pub column: nat,
}

/// Two lexemes that both repel are kept apart by a space.
pub open spec fn gap(last: Token2<'_>, token: Token2<'_>) -> Seq<char> {
    if last.affinity_of() == Affinity::Repel && token.affinity_of() == Affinity::Repel {
        " "@
    } else {
        Seq::empty()
    }
}

/// The text with one more lexeme, and a space before it where it would
/// otherwise fuse with the lexeme before it.
pub open spec fn appended(text: Seq<char>, last: Token2<'_>, token: Token2<'_>) -> Seq<char> {
    text + gap(last, token) + token@.text
}

/// The number of bytes that [`appended`] adds.
pub open spec fn appended_len(last: Token2<'_>, token: Token2<'_>) -> nat {
    byte_len(gap(last, token)) + byte_len(token@.text)
}

/// The page with one more lexeme. A line that has passed the width is
/// ended before the lexeme. A line that the lexeme would take past the width
/// is ended behind the lexeme where that leaves it closer to the width, and
/// before it otherwise.
pub open spec fn placed(page: Page, last: Token2<'_>, token: Token2<'_>, width: nat) -> Page {
    let len = byte_len(token@.text);
    if page.column > width {
        Page {
            text: appended(page.text + "\n"@, last, token),
            column: appended_len(last, token),
        }
    } else if page.column + len > width {
        if page.column + len - width < width - page.column {
            Page { text: appended(page.text, last, token) + "\n"@, column: 0 }
        } else {
            Page {
                text: appended(page.text + "\n"@, last, token),
                column: appended_len(last, token),
            }
        }
    } else {
        Page {
            text: appended(page.text, last, token),
            column: page.column + appended_len(last, token),
        }
    }
}

/// The page that holds the first `upto` of the lexemes.
pub open spec fn page_of(tokens: Seq<Token2<'_>>, upto: int, width: nat) -> Page
    decreases upto,
{
    if upto <= 0 || upto > tokens.len() {
        Page { text: Seq::empty(), column: 0 }
    } else if upto == 1 {
        Page { text: tokens[0]@.text, column: byte_len(tokens[0]@.text) }
    } else {
        placed(page_of(tokens, upto - 1, width), tokens[upto - 2], tokens[upto - 1], width)
    }
}

/// Appends a lexeme to the buffer, with a space before it where it would
/// otherwise fuse with the lexeme before it, and returns the number of bytes
/// that were added.
pub fn append(buf: &mut String, last: &Token2<'_>, token: &Token2<'_>) -> (added: usize)
    requires
        byte_len(token@.text) < usize::MAX,
    ensures
        final(buf)@ == appended(old(buf)@, *last, *token),
        added == appended_len(*last, *token),
{
    proof {
        reveal_strlit(" ");
        vstd::utf8::is_ascii_chars_encode_utf8(" "@);
        assert(byte_len(Seq::<char>::empty()) == 0);
    }
    let text = token.as_str();
    if last.affinity() == Affinity::Repel && token.affinity() == Affinity::Repel {
        buf.append(" ");
        buf.append(text);
        1 + str_byte_len(text)
    } else {
        buf.append(text);
        proof {
            assert(buf@ =~= appended(old(buf)@, *last, *token));
        }
        str_byte_len(text)
    }
}

impl<const N: usize> BlockUnformatter<N> {
    /// Writes the lexemes one after the other, breaking the lines near the
    /// column `N`.
    pub fn unformat(self, tokens: &[Token2<'_>]) -> (text: String)
        requires
            forall|i: int|
                0 <= i < tokens@.len() ==> N + byte_len((#[trigger] tokens@[i])@.text) + 1
                    < usize::MAX,
        ensures
            text@ == page_of(tokens@, tokens@.len() as int, N as nat).text,
    {
        if tokens.len() == 0 {
            return String::new();
        }
        let mut char: usize = str_byte_len(tokens[0].as_str());
        let mut buf = String::from_str(tokens[0].as_str());
        let mut i: usize = 1;
        while i < tokens.len()
            invariant
                1 <= i <= tokens.len(),
                forall|i: int|
                    0 <= i < tokens@.len() ==> N + byte_len((#[trigger] tokens@[i])@.text) + 1
                        < usize::MAX,
                page_of(tokens@, i as int, N as nat) == (Page { text: buf@, column: char as nat }),
            decreases tokens.len() - i,
        {
            let last = &tokens[i - 1];
            let token = &tokens[i];
            let len = str_byte_len(token.as_str());
            let ghost before = buf@;
            proof {
                reveal_strlit(" ");
                vstd::utf8::is_ascii_chars_encode_utf8(" "@);
                assert(byte_len(Seq::<char>::empty()) == 0);
                assert(appended_len(*last, *token) <= len + 1);
            }
            if char > N {
                char = 0;
                buf.append("\n");
                char += append(&mut buf, last, token);
            } else if char + len > N {
                if char + len - N < N - char {
                    append(&mut buf, last, token);
                    buf.append("\n");
                    char = 0;
                } else {
                    buf.append("\n");
                    char = 0;
                    char += append(&mut buf, last, token);
                }
            } else {
                char += append(&mut buf, last, token);
            }
            i += 1;
        }
        buf
    }
}

} // verus!
