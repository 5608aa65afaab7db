//! Documentation comments are taken out of the source before anything else:
//! the syntax check does not read them as comments. A line is dropped when
//! the first thing on it is `///`.

use vstd::prelude::*;

verus! {

/// The characters that count as white space at the start of a line.
pub open spec fn is_space(c: char) -> bool {
    ||| '\u{9}' <= c <= '\u{d}'
    ||| c == ' '
    ||| c == '\u{85}'
    ||| c == '\u{a0}'
    ||| c == '\u{1680}'
    ||| '\u{2000}' <= c <= '\u{200a}'
    ||| c == '\u{2028}'
    ||| c == '\u{2029}'
    ||| c == '\u{202f}'
    ||| c == '\u{205f}'
    ||| c == '\u{3000}'
}

/// The line without the white space it starts with.
pub open spec fn trimmed(line: Seq<char>) -> Seq<char>
    decreases line.len(),
{
    if line.len() > 0 && is_space(line[0]) {
        trimmed(line.skip(1))
    } else {
        line
    }
}

/// Whether the first thing on the line is `///`.
pub open spec fn is_doc_comment(line: Seq<char>) -> bool {
    let rest = trimmed(line);
    rest.len() >= 3 && rest[0] == '/' && rest[1] == '/' && rest[2] == '/'
}

/// The number of characters before the first line feed of the text, or the
/// length of the text where it has none.
pub open spec fn first_line_len(text: Seq<char>) -> nat
    decreases text.len(),
{
    if text.len() == 0 || text[0] == '\n' {
        0
    } else {
        1 + first_line_len(text.skip(1))
    }
}

/// A line without the carriage return that it ends with, if it does.
pub open spec fn without_cr(line: Seq<char>) -> Seq<char> {
    if line.len() > 0 && line.last() == '\r' {
        line.drop_last()
    } else {
        line
    }
}

/// The lines of a text. A line ends with a line feed, or with a carriage
/// return and a line feed; neither belongs to the line. The last line need
/// not end with a line feed, and is then taken as it stands.
pub open spec fn lines_of(text: Seq<char>) -> Seq<Seq<char>>
    decreases text.len(),
{
    if text.len() == 0 {
        Seq::empty()
    } else {
        let n = first_line_len(text) as int;
        if n >= text.len() {
            seq![text]
        } else {
            seq![without_cr(text.take(n))] + lines_of(text.skip(n + 1))
        }
    }
}

/// The lines that are no documentation comments, in order.
pub open spec fn kept(lines: Seq<Seq<char>>) -> Seq<Seq<char>>
    decreases lines.len(),
{
    if lines.len() == 0 {
        Seq::empty()
    } else if is_doc_comment(lines.last()) {
        kept(lines.drop_last())
    } else {
        kept(lines.drop_last()).push(lines.last())
    }
}

/// The lines with a line feed between every two of them.
pub open spec fn join_lines(lines: Seq<Seq<char>>) -> Seq<char>
    decreases lines.len(),
{
    if lines.len() == 0 {
        Seq::empty()
    } else if lines.len() == 1 {
        lines[0]
    } else {
        join_lines(lines.drop_last()) + seq!['\n'] + lines.last()
    }
}

/// The text without the lines that are documentation comments.
pub open spec fn without_doc_comments(text: Seq<char>) -> Seq<char> {
    join_lines(kept(lines_of(text)))
}

/// Where the first line of a text ends.
pub proof fn lemma_first_line_len(text: Seq<char>)
    ensures
        first_line_len(text) <= text.len(),
        first_line_len(text) < text.len() ==> text[first_line_len(text) as int] == '\n',
        forall|i: int| 0 <= i < first_line_len(text) ==> #[trigger] text[i] != '\n',
    decreases text.len(),
{
    if !(text.len() == 0 || text[0] == '\n') {
        let rest = text.skip(1);
        lemma_first_line_len(rest);
        assert forall|i: int| 0 <= i < first_line_len(text) implies #[trigger] text[i] != '\n' by {
            if i > 0 {
                assert(rest[i - 1] == text[i]);
            }
        }
    }
}

/// The first line feed of a text is found by its position.
pub proof fn lemma_first_line_at(text: Seq<char>, n: int)
    requires
        0 <= n <= text.len(),
        forall|i: int| 0 <= i < n ==> #[trigger] text[i] != '\n',
        n < text.len() ==> text[n] == '\n',
    ensures
        first_line_len(text) == n,
    decreases n,
{
    if n > 0 {
        let rest = text.skip(1);
        assert forall|i: int| 0 <= i < n - 1 implies #[trigger] rest[i] != '\n' by {
            assert(rest[i] == text[i + 1]);
        }
        lemma_first_line_at(rest, n - 1);
    }
}

/// The lines of a text that ends with a line feed, followed by more text,
/// are the lines of the one and then the lines of the other.
pub proof fn lemma_lines_concat(a: Seq<char>, b: Seq<char>)
    requires
        a.len() == 0 || a.last() == '\n',
    ensures
        lines_of(a + b) == lines_of(a) + lines_of(b),
    decreases a.len(),
{
    if a.len() == 0 {
        assert(a + b =~= b);
        assert(lines_of(a) + lines_of(b) =~= lines_of(b));
    } else {
        let n = first_line_len(a) as int;
        lemma_first_line_len(a);
        assert(n < a.len()) by {
            if n >= a.len() {
                assert(a[a.len() - 1] != '\n');
            }
        }
        let whole = a + b;
        assert forall|i: int| 0 <= i < n implies #[trigger] whole[i] != '\n' by {
            assert(whole[i] == a[i]);
        }
        assert(whole[n] == a[n]);
        lemma_first_line_at(whole, n);
        let rest = a.skip(n + 1);
        assert(whole.skip(n + 1) =~= rest + b);
        assert(whole.take(n) =~= a.take(n));
        if rest.len() > 0 {
            assert(rest.last() == a.last());
        }
        lemma_lines_concat(rest, b);
        assert(lines_of(whole) =~= lines_of(a) + lines_of(b));
    }
}

/// A text without a line feed, closed by one, is one line.
pub proof fn lemma_one_line(line: Seq<char>)
    requires
        forall|i: int| 0 <= i < line.len() ==> #[trigger] line[i] != '\n',
    ensures
        lines_of(line.push('\n')) == seq![without_cr(line)],
        line.len() > 0 ==> lines_of(line) == seq![line],
{
    let closed = line.push('\n');
    assert forall|i: int| 0 <= i < line.len() implies #[trigger] closed[i] != '\n' by {
        assert(closed[i] == line[i]);
    }
    lemma_first_line_at(closed, line.len() as int);
    assert(closed.take(line.len() as int) =~= line);
    assert(closed.skip(line.len() as int + 1) =~= Seq::<char>::empty());
    assert(lines_of(closed.skip(line.len() as int + 1)) =~= Seq::<Seq<char>>::empty());
    assert(lines_of(closed) =~= seq![without_cr(line)]);
    if line.len() > 0 {
        lemma_first_line_at(line, line.len() as int);
    }
}

/// The lines of a text up to the end of one more line are the lines before
/// with that line added. The line starts at `start` and runs up to the line
/// feed at `end`, or up to the end of the text.
pub proof fn lemma_next_line(text: Seq<char>, start: int, end: int)
    requires
        0 <= start <= end <= text.len(),
        start < text.len(),
        start == 0 || text[start - 1] == '\n',
        forall|j: int| start <= j < end ==> #[trigger] text[j] != '\n',
        end < text.len() ==> text[end] == '\n',
    ensures
        end < text.len() ==> lines_of(text.take(end + 1)) == lines_of(text.take(start)).push(
            without_cr(text.subrange(start, end)),
        ),
        end == text.len() ==> lines_of(text.take(end)) == lines_of(text.take(start)).push(
            text.subrange(start, end),
        ),
{
    let done = text.take(start);
    let raw = text.subrange(start, end);
    assert forall|i: int| 0 <= i < raw.len() implies #[trigger] raw[i] != '\n' by {
        assert(raw[i] == text[start + i]);
    }
    lemma_one_line(raw);
    if done.len() > 0 {
        assert(done.last() == text[start - 1]);
    }
    if end < text.len() {
        let piece = raw.push('\n');
        assert(text.take(end + 1) =~= done + piece);
        lemma_lines_concat(done, piece);
        assert(lines_of(done) + seq![without_cr(raw)] =~= lines_of(done).push(without_cr(raw)));
    } else {
        assert(text.take(end) =~= done + raw);
        lemma_lines_concat(done, raw);
        assert(lines_of(done) + seq![raw] =~= lines_of(done).push(raw));
    }
}

/// What one more line adds to the text that is kept.
pub proof fn lemma_keep_line(lines: Seq<Seq<char>>, line: Seq<char>)
    ensures
        is_doc_comment(line) ==> kept(lines.push(line)) == kept(lines),
        !is_doc_comment(line) ==> kept(lines.push(line)) == kept(lines).push(line),
        !is_doc_comment(line) ==> join_lines(kept(lines.push(line))) == if kept(lines).len()
            == 0 {
            line
        } else {
            join_lines(kept(lines)) + seq!['\n'] + line
        },
{
    let all = lines.push(line);
    assert(all.drop_last() =~= lines);
    assert(all.last() == line);
    if !is_doc_comment(line) {
        let k = kept(lines).push(line);
        assert(k.drop_last() =~= kept(lines));
        assert(k.last() == line);
    }
}

/// Whether `c` counts as white space.
pub fn is_whitespace(c: char) -> (b: bool)
    ensures
        b == is_space(c),
{
    ('\u{9}' <= c && c <= '\u{d}') || c == ' ' || c == '\u{85}' || c == '\u{a0}' || c
        == '\u{1680}' || ('\u{2000}' <= c && c <= '\u{200a}') || c == '\u{2028}' || c
        == '\u{2029}' || c == '\u{202f}' || c == '\u{205f}' || c == '\u{3000}'
}

/// Whether the first thing in `text[from..to]` is `///`.
fn starts_doc_comment(text: &Vec<char>, from: usize, to: usize) -> (b: bool)
    requires
        from <= to <= text@.len(),
    ensures
        b == is_doc_comment(text@.subrange(from as int, to as int)),
{
    let ghost line = text@.subrange(from as int, to as int);
    let mut i: usize = from;
    proof {
        assert(line.skip(0) =~= line);
    }
    while i < to && is_whitespace(text[i])
        invariant
            from <= i <= to <= text@.len(),
            line == text@.subrange(from as int, to as int),
            trimmed(line) == trimmed(line.skip(i - from)),
        decreases to - i,
    {
        proof {
            assert(line.skip(i - from)[0] == text@[i as int]);
            assert(line.skip(i - from).skip(1) =~= line.skip(i + 1 - from));
        }
        i += 1;
    }
    proof {
        let rest = line.skip(i - from);
        if i < to {
            assert(rest[0] == text@[i as int]);
        }
        assert(trimmed(line) == rest);
        if to - i >= 3 {
            assert(rest[0] == text@[i as int]);
            assert(rest[1] == text@[i + 1]);
            assert(rest[2] == text@[i + 2]);
        }
    }
    to - i >= 3 && text[i] == '/' && text[i + 1] == '/' && text[i + 2] == '/'
}

/// The characters of a string.
fn chars_of(s: &str) -> (v: Vec<char>)
    ensures
        v@ == s@,
{
    let mut v: Vec<char> = Vec::new();
    for c in it: s.chars()
        invariant
            it.seq() == s@,
            v@ == s@.take(it.index() as int),
    {
        v.push(c);
        assert(v@ =~= s@.take(it.index() + 1));
    }
    assert(v@ =~= s@);
    v
}

/// `String::push`: appends one character.
#[verifier::external_body]
fn push_char(s: &mut String, c: char)
    ensures
        final(s)@ == old(s)@.push(c),
{
    s.push(c)
}

/// Removes the lines that are documentation comments, and joins the lines
/// that are left with line feeds.
pub fn remove_doc_comments(src: &str) -> (out: String)
    ensures
        out@ == without_doc_comments(src@),
{
    let text = chars_of(src);
    let mut out = String::new();
    let mut any = false;
    let mut start: usize = 0;
    proof {
        assert(text@.take(0) =~= Seq::<char>::empty());
    }
    while start < text.len()
        invariant
            start <= text@.len(),
            start == 0 || start == text@.len() || text@[start - 1] == '\n',
            out@ == join_lines(kept(lines_of(text@.take(start as int)))),
            any == (kept(lines_of(text@.take(start as int))).len() > 0),
        decreases text.len() - start,
    {
        let ghost done = text@.take(start as int);
        // find where the line ends
        let mut end: usize = start;
        while end < text.len() && text[end] != '\n'
            invariant
                start <= end <= text@.len(),
                forall|j: int| start <= j < end ==> #[trigger] text@[j] != '\n',
            decreases text.len() - end,
        {
            end += 1;
        }
        let terminated = end < text.len();
        let line_end = if terminated && end > start && text[end - 1] == '\r' {
            end - 1
        } else {
            end
        };
        let next = if terminated {
            end + 1
        } else {
            end
        };
        let ghost line = text@.subrange(start as int, line_end as int);
        proof {
            lemma_next_line(text@, start as int, end as int);
            let raw = text@.subrange(start as int, end as int);
            if terminated {
                assert(line =~= without_cr(raw)) by {
                    if raw.len() > 0 {
                        assert(raw.last() == text@[end - 1]);
                    }
                }
            }
            lemma_keep_line(lines_of(done), line);
        }
        if !starts_doc_comment(&text, start, line_end) {
            let ghost before = out@;
            if any {
                push_char(&mut out, '\n');
            }
            let ghost head = out@;
            let mut i: usize = start;
            while i < line_end
                invariant
                    start <= i <= line_end <= text@.len(),
                    out@ == head + text@.subrange(start as int, i as int),
                decreases line_end - i,
            {
                push_char(&mut out, text[i]);
                i += 1;
                assert(out@ =~= head + text@.subrange(start as int, i as int));
            }
            proof {
                let lines = kept(lines_of(done));
                if any {
                    assert(out@ =~= join_lines(lines) + seq!['\n'] + line);
                } else {
                    assert(lines =~= Seq::<Seq<char>>::empty());
                    assert(out@ =~= line);
                }
            }
            any = true;
        }
        start = next;
    }
    proof {
        assert(text@.take(start as int) =~= text@);
    }
    out
}

} // verus!
