//! The stages read a token only through its model: its class, its text and
//! its position. So the lines that a file is laid out in are the same for
//! any two sequences of tokens with the same models, and the models of the
//! tokens of a file fix the bytes that it is laid out as.

use vstd::prelude::*;
use crate::emit::{
    comment_filler, deficit, ends_with_slash, grow_at, grown, is_pair, junk_indices,
    justified, last_token, layout, matched_pairs, packed, pairs_in_row, pairs_upto,
    rendered, rendered_line, run_len, strip_back, strip_front, stripped,
    total_width, widen_at, widened, with_comment, with_fillers, with_parentheses, with_spacer,
};
use crate::ir::{
    aligned_somewhere, all_aligned, fuses, fusion_safe, markers, merged, populated, Cursor,
    Markers, RichToken,
};
use crate::lex::{
    lemma_recognition_order, lexemes, punctuation_at, Spanned, Token, PUNCTUATION_COUNT,
};
use crate::location::{forest_events, Event, Node};
use crate::unformatted;

verus! {

/// The place of a punctuation token in the recognition order.
pub open spec fn rank_of(token: Token<'_>) -> int {
    match token {
        Token::RangeInclusive => 0,
        Token::VariadicArgs => 1,
        Token::Range => 2,
        Token::PathSeparator => 3,
        Token::ParameterArrow => 4,
        Token::FatArrow => 5,
        Token::EqualCheck => 6,
        Token::NotEqual => 7,
        Token::LessThanEq => 8,
        Token::GreaterThanEq => 9,
        Token::BooleanAnd => 10,
        Token::BooleanOr => 11,
        Token::ShiftRightAssign => 12,
        Token::ShiftLeftAssign => 13,
        Token::ShiftRight => 14,
        Token::ShiftLeft => 15,
        Token::AddAssign => 16,
        Token::SubAssign => 17,
        Token::MulAssign => 18,
        Token::DivAssign => 19,
        Token::ModAssign => 20,
        Token::XorAssign => 21,
        Token::AndAssign => 22,
        Token::OrAssign => 23,
        Token::OpenParen => 24,
        Token::CloseParen => 25,
        Token::OpenBrace => 26,
        Token::CloseBrace => 27,
        Token::OpenBracket => 28,
        Token::CloseBracket => 29,
        Token::Colon => 30,
        Token::Semi => 31,
        Token::Comma => 32,
        Token::Dot => 33,
        Token::At => 34,
        Token::Pound => 35,
        Token::Tilde => 36,
        Token::Question => 37,
        Token::Dollar => 38,
        Token::Eq => 39,
        Token::Not => 40,
        Token::LessThan => 41,
        Token::GreatherThan => 42,
        Token::Minus => 43,
        Token::And => 44,
        Token::Or => 45,
        Token::Plus => 46,
        Token::Star => 47,
        Token::Slash => 48,
        Token::Caret => 49,
        Token::Percent => 50,
        _ => 0,
    }
}

/// A punctuation token stands at its rank in the recognition order.
pub proof fn lemma_rank_of(token: Token<'_>)
    requires
        token.kind() is Punctuation,
    ensures
        0 <= rank_of(token) < PUNCTUATION_COUNT,
        punctuation_at(rank_of(token)) == token,
{
}

/// A punctuation token is known by its text.
pub proof fn lemma_punctuation_by_model(a: Token<'_>, b: Token<'_>)
    requires
        a@ == b@,
        a.kind() is Punctuation,
    ensures
        a == b,
{
    lemma_rank_of(a);
    lemma_rank_of(b);
    let i = rank_of(a);
    let j = rank_of(b);
    assert(a.text().is_prefix_of(b.text())) by {
        assert(a.text() =~= b.text().subrange(0, a.text().len() as int));
    }
    assert(b.text().is_prefix_of(a.text())) by {
        assert(b.text() =~= a.text().subrange(0, b.text().len() as int));
    }
    if i < j {
        lemma_recognition_order(i, j);
    } else if j < i {
        lemma_recognition_order(j, i);
    }
}

/// Whether two tokens fuse is a matter of their models.
pub proof fn lemma_fuses_by_model(a: Token<'_>, b: Token<'_>, c: Token<'_>, d: Token<'_>)
    requires
        a@ == c@,
        b@ == d@,
    ensures
        fuses(a, b) == fuses(c, d),
{
    if a.kind() is Punctuation {
        lemma_punctuation_by_model(a, c);
    }
    if b.kind() is Punctuation {
        lemma_punctuation_by_model(b, d);
    }
}

/// Two elements with one model: the same element, or two tokens with the
/// same class and text at the same position.
pub open spec fn same_model(x: RichToken<'_>, y: RichToken<'_>) -> bool {
    match x {
        RichToken::Token(s) => y matches RichToken::Token(t) && s.inner@ == t.inner@ && s.line
            == t.line && s.char == t.char,
        _ => x == y,
    }
}

/// Two streams whose elements have the same models, one by one.
pub open spec fn same_models(a: Seq<RichToken<'_>>, b: Seq<RichToken<'_>>) -> bool {
    &&& a.len() == b.len()
    &&& forall|i: int| 0 <= i < a.len() ==> same_model(#[trigger] a[i], b[i])
}

/// Parts of streams with the same models have the same models.
pub proof fn lemma_same_models_subrange(
    a: Seq<RichToken<'_>>,
    b: Seq<RichToken<'_>>,
    from: int,
    to: int,
)
    requires
        same_models(a, b),
        0 <= from <= to <= a.len(),
    ensures
        same_models(a.subrange(from, to), b.subrange(from, to)),
{
    let x = a.subrange(from, to);
    let y = b.subrange(from, to);
    assert forall|i: int| 0 <= i < x.len() implies same_model(#[trigger] x[i], y[i]) by {
        assert(x[i] == a[from + i]);
        assert(y[i] == b[from + i]);
    }
}

/// Streams with the same models, one after the other, have the same
/// models.
pub proof fn lemma_same_models_concat(
    a: Seq<RichToken<'_>>,
    b: Seq<RichToken<'_>>,
    c: Seq<RichToken<'_>>,
    d: Seq<RichToken<'_>>,
)
    requires
        same_models(a, b),
        same_models(c, d),
    ensures
        same_models(a + c, b + d),
{
    let x = a + c;
    let y = b + d;
    assert forall|i: int| 0 <= i < x.len() implies same_model(#[trigger] x[i], y[i]) by {
        if i < a.len() {
            assert(x[i] == a[i]);
            assert(y[i] == b[i]);
        } else {
            assert(x[i] == c[i - a.len()]);
            assert(y[i] == d[i - a.len()]);
        }
    }
}

/// The streams of two files whose tokens have the same models have the
/// same models.
pub proof fn lemma_fusion_safe_by_model(
    a: Seq<Spanned<Token<'_>>>,
    b: Seq<Spanned<Token<'_>>>,
)
    requires
        lexemes(a) == lexemes(b),
    ensures
        same_models(fusion_safe(a), fusion_safe(b)),
    decreases a.len(),
{
    assert(a.len() == b.len()) by {
        assert(lexemes(a).len() == a.len());
        assert(lexemes(b).len() == b.len());
    }
    assert forall|i: int| 0 <= i < a.len() implies a[i].inner@ == b[i].inner@ && a[i].line
        == b[i].line && a[i].char == b[i].char by {
        assert(lexemes(a)[i] == (Spanned {
            inner: a[i].inner@,
            line: a[i].line,
            char: a[i].char,
        }));
        assert(lexemes(b)[i] == (Spanned {
            inner: b[i].inner@,
            line: b[i].line,
            char: b[i].char,
        }));
        assert(lexemes(a)[i] == lexemes(b)[i]);
    }
    if a.len() > 0 {
        let x = a.drop_last();
        let y = b.drop_last();
        assert(lexemes(x) =~= lexemes(a).drop_last());
        assert(lexemes(y) =~= lexemes(b).drop_last());
        lemma_fusion_safe_by_model(x, y);
        let n = a.len() - 1;
        if a.len() >= 2 {
            lemma_fuses_by_model(a[n - 1].inner, a[n].inner, b[n - 1].inner, b[n].inner);
        }
        let p = fusion_safe(x);
        let q = fusion_safe(y);
        let s = fusion_safe(a);
        let t = fusion_safe(b);
        assert forall|i: int| 0 <= i < s.len() implies same_model(#[trigger] s[i], t[i]) by {
            if i < p.len() {
                assert(s[i] == p[i]);
                assert(t[i] == q[i]);
            }
        }
    }
}

/// The placeholders of a token are a matter of its position.
pub proof fn lemma_markers_by_position<'a>(
    events: Seq<Spanned<Event>>,
    a: Spanned<Token<'a>>,
    b: Spanned<Token<'a>>,
    sofar: Markers<'a>,
)
    requires
        a.line == b.line,
        a.char == b.char,
    ensures
        markers(events, a, sofar) == markers(events, b, sofar),
    decreases events.len() - sofar.cursor.next,
{
    let cursor = sofar.cursor;
    if 0 <= cursor.next < events.len() && events[cursor.next].aligned(a) {
        let next = match events[cursor.next].inner {
            Event::StatementStart => Markers {
                before: sofar.before.push(RichToken::Junk(0)),
                after: sofar.after,
                cursor: Cursor { next: cursor.next + 1, ..cursor },
            },
            Event::StatementEnd => Markers {
                before: sofar.before,
                after: sofar.after.push(RichToken::Junk(0)),
                cursor: Cursor { next: cursor.next + 1, ..cursor },
            },
            Event::ExprOpen => Markers {
                before: sofar.before.push(
                    RichToken::ExprOpen { id: cursor.next_id as usize, reps: 0 },
                ),
                after: sofar.after,
                cursor: Cursor {
                    next: cursor.next + 1,
                    next_id: cursor.next_id + 1,
                    open: cursor.open.push(cursor.next_id as usize),
                },
            },
            Event::ExprClose => Markers {
                before: sofar.before,
                after: sofar.after.push(RichToken::ExprClose { id: cursor.open.last(), reps: 0 }),
                cursor: Cursor {
                    next: cursor.next + 1,
                    next_id: cursor.next_id,
                    open: cursor.open.drop_last(),
                },
            },
        };
        assert(markers(events, a, sofar) == markers(events, a, next));
        assert(markers(events, b, sofar) == markers(events, b, next));
        lemma_markers_by_position(events, a, b, next);
    }
}

/// Streams with the same models are merged with the events into streams
/// with the same models.
pub proof fn lemma_merged_by_model<'a>(
    a: Seq<RichToken<'a>>,
    b: Seq<RichToken<'a>>,
    from: int,
    events: Seq<Spanned<Event>>,
    cursor: Cursor,
    out_a: Seq<RichToken<'a>>,
    out_b: Seq<RichToken<'a>>,
)
    requires
        same_models(a, b),
        same_models(out_a, out_b),
        0 <= from,
    ensures
        same_models(
            merged(a, from, events, cursor, out_a),
            merged(b, from, events, cursor, out_b),
        ),
    decreases a.len() - from,
{
    if from < a.len() {
        assert(same_model(a[from], b[from]));
        match a[from] {
            RichToken::Token(s) => {
                let t = b[from]->Token_0;
                let empty = Markers { before: Seq::empty(), after: Seq::empty(), cursor };
                lemma_markers_by_position(events, s, t, empty);
                let m = markers(events, s, empty);
                let next_a = out_a + m.before + seq![a[from]] + m.after;
                let next_b = out_b + m.before + seq![b[from]] + m.after;
                assert(same_models(m.before, m.before));
                assert(same_models(m.after, m.after));
                assert(same_models(seq![a[from]], seq![b[from]]));
                lemma_same_models_concat(out_a, out_b, m.before, m.before);
                lemma_same_models_concat(
                    out_a + m.before,
                    out_b + m.before,
                    seq![a[from]],
                    seq![b[from]],
                );
                lemma_same_models_concat(
                    out_a + m.before + seq![a[from]],
                    out_b + m.before + seq![b[from]],
                    m.after,
                    m.after,
                );
                lemma_merged_by_model(a, b, from + 1, events, m.cursor, next_a, next_b);
            },
            other => {
                assert(b[from] == other);
                assert(same_models(seq![other], seq![other]));
                lemma_same_models_concat(out_a, out_b, seq![other], seq![other]);
                assert(out_a.push(other) =~= out_a + seq![other]);
                assert(out_b.push(other) =~= out_b + seq![other]);
                lemma_merged_by_model(
                    a,
                    b,
                    from + 1,
                    events,
                    cursor,
                    out_a.push(other),
                    out_b.push(other),
                );
            },
        }
    }
}

/// Whether every event lies at a token is a matter of the positions of the
/// tokens.
pub proof fn lemma_aligned_by_model(
    a: Seq<RichToken<'_>>,
    b: Seq<RichToken<'_>>,
    events: Seq<Spanned<Event>>,
)
    requires
        same_models(a, b),
    ensures
        all_aligned(a, events) ==> all_aligned(b, events),
{
    if all_aligned(a, events) {
        assert forall|k: int| 0 <= k < events.len() implies aligned_somewhere(
            b,
            #[trigger] events[k],
        ) by {
            assert(aligned_somewhere(a, events[k]));
            let i = choose|i: int|
                0 <= i < a.len() && (#[trigger] a[i] matches RichToken::Token(token)
                    && events[k].aligned(token));
            assert(same_model(a[i], b[i]));
            assert(b[i] matches RichToken::Token(token) && events[k].aligned(token));
        }
    }
}

/// Streams with the same models have the same models after the events were
/// materialized.
pub proof fn lemma_populated_by_model<'a>(
    a: Seq<RichToken<'a>>,
    b: Seq<RichToken<'a>>,
    events: Seq<Spanned<Event>>,
)
    requires
        same_models(a, b),
    ensures
        same_models(populated(a, events), populated(b, events)),
{
    lemma_aligned_by_model(a, b, events);
    assert(same_models(b, a)) by {
        assert forall|i: int| 0 <= i < b.len() implies same_model(#[trigger] b[i], a[i]) by {
            assert(same_model(a[i], b[i]));
        }
    }
    lemma_aligned_by_model(b, a, events);
    let empty = Seq::<RichToken<'a>>::empty();
    assert(same_models(empty, empty));
    lemma_merged_by_model(a, b, 0, events, Cursor::start(), empty, empty);
    lemma_merged_by_model(
        a,
        b,
        0,
        crate::ir::statements_only(events),
        Cursor::start(),
        empty,
        empty,
    );
}


/// Streams with the same models are equally wide.
pub proof fn lemma_total_width_by_model(a: Seq<RichToken<'_>>, b: Seq<RichToken<'_>>)
    requires
        same_models(a, b),
    ensures
        total_width(a) == total_width(b),
    decreases a.len(),
{
    if a.len() > 0 {
        lemma_same_models_subrange(a, b, 0, a.len() - 1);
        lemma_total_width_by_model(a.drop_last(), b.drop_last());
        assert(same_model(a[a.len() - 1], b[b.len() - 1]));
    }
}

/// Streams with the same models fill a line with equally many elements.
pub proof fn lemma_run_len_by_model(
    a: Seq<RichToken<'_>>,
    b: Seq<RichToken<'_>>,
    width: nat,
    taken: nat,
)
    requires
        same_models(a, b),
    ensures
        run_len(a, width, taken) == run_len(b, width, taken),
        run_len(a, width, taken) <= a.len(),
    decreases a.len(),
{
    if a.len() > 0 {
        assert(same_model(a[0], b[0]));
        lemma_same_models_subrange(a, b, 1, a.len() as int);
        lemma_run_len_by_model(a.skip(1), b.skip(1), width, taken + a[0].width());
    }
}

/// Two sequences of lines whose lines have the same models, one by one.
pub open spec fn same_lines(p: Seq<Seq<RichToken<'_>>>, q: Seq<Seq<RichToken<'_>>>) -> bool {
    &&& p.len() == q.len()
    &&& forall|k: int| 0 <= k < p.len() ==> same_models(#[trigger] p[k], q[k])
}

/// Streams with the same models are packed into lines with the same
/// models.
pub proof fn lemma_packed_by_model(a: Seq<RichToken<'_>>, b: Seq<RichToken<'_>>, width: nat)
    requires
        same_models(a, b),
    ensures
        same_lines(packed(a, width), packed(b, width)),
    decreases a.len(),
{
    if a.len() > 0 {
        let run = run_len(a, width, 0) as int;
        lemma_run_len_by_model(a, b, width, 0);
        lemma_same_models_subrange(a, b, 0, run);
        let p = packed(a, width);
        let q = packed(b, width);
        if run < a.len() {
            assert(same_model(a[run], b[run]));
        }
        if run < a.len() && a[run].width() >= width {
            lemma_same_models_subrange(a, b, run + 1, a.len() as int);
            lemma_packed_by_model(a.skip(run + 1), b.skip(run + 1), width);
            let rest_a = packed(a.skip(run + 1), width);
            let rest_b = packed(b.skip(run + 1), width);
            assert forall|k: int| 0 <= k < p.len() implies same_models(#[trigger] p[k], q[k]) by {
                if k == 0 {
                } else if k == 1 {
                    assert(p[1] == seq![a[run]]);
                    assert(q[1] == seq![b[run]]);
                } else {
                    assert(p[k] == rest_a[k - 2]);
                    assert(q[k] == rest_b[k - 2]);
                }
            }
        } else if run > 0 {
            lemma_same_models_subrange(a, b, run, a.len() as int);
            lemma_packed_by_model(a.skip(run), b.skip(run), width);
            let rest_a = packed(a.skip(run), width);
            let rest_b = packed(b.skip(run), width);
            assert forall|k: int| 0 <= k < p.len() implies same_models(#[trigger] p[k], q[k]) by {
                if k >= 1 {
                    assert(p[k] == rest_a[k - 1]);
                    assert(q[k] == rest_b[k - 1]);
                }
            }
        }
    }
}

/// Streams with the same models have the same models without the spacers
/// at their ends.
pub proof fn lemma_stripped_by_model(a: Seq<RichToken<'_>>, b: Seq<RichToken<'_>>)
    requires
        same_models(a, b),
    ensures
        same_models(stripped(a), stripped(b)),
{
    lemma_strip_front_by_model(a, b);
    lemma_strip_back_by_model(strip_front(a), strip_front(b));
}

proof fn lemma_strip_front_by_model(a: Seq<RichToken<'_>>, b: Seq<RichToken<'_>>)
    requires
        same_models(a, b),
    ensures
        same_models(strip_front(a), strip_front(b)),
    decreases a.len(),
{
    if a.len() > 0 {
        assert(same_model(a[0], b[0]));
        if a[0] is Spacer {
            lemma_same_models_subrange(a, b, 1, a.len() as int);
            lemma_strip_front_by_model(a.skip(1), b.skip(1));
        }
    }
}

proof fn lemma_strip_back_by_model(a: Seq<RichToken<'_>>, b: Seq<RichToken<'_>>)
    requires
        same_models(a, b),
    ensures
        same_models(strip_back(a), strip_back(b)),
    decreases a.len(),
{
    if a.len() > 0 {
        assert(same_model(a[a.len() - 1], b[b.len() - 1]));
        if a.last() is Spacer {
            lemma_same_models_subrange(a, b, 0, a.len() - 1);
            lemma_strip_back_by_model(a.drop_last(), b.drop_last());
        }
    }
}

/// Streams with the same models have their fillers at the same indices.
pub proof fn lemma_junk_indices_by_model(a: Seq<RichToken<'_>>, b: Seq<RichToken<'_>>)
    requires
        same_models(a, b),
    ensures
        junk_indices(a) == junk_indices(b),
    decreases a.len(),
{
    if a.len() > 0 {
        lemma_same_models_subrange(a, b, 0, a.len() - 1);
        lemma_junk_indices_by_model(a.drop_last(), b.drop_last());
        assert(same_model(a[a.len() - 1], b[b.len() - 1]));
    }
}

/// Growing fillers keeps the models the same.
pub proof fn lemma_grow_at_by_model(
    a: Seq<RichToken<'_>>,
    b: Seq<RichToken<'_>>,
    indices: Seq<usize>,
    amount: nat,
)
    requires
        same_models(a, b),
    ensures
        same_models(grow_at(a, indices, amount), grow_at(b, indices, amount)),
    decreases indices.len(),
{
    if indices.len() > 0 {
        lemma_grow_at_by_model(a, b, indices.drop_last(), amount);
        let x = grow_at(a, indices.drop_last(), amount);
        let y = grow_at(b, indices.drop_last(), amount);
        let i = indices.last() as int;
        if i < x.len() {
            assert(same_model(x[i], y[i]));
            let p = x.update(i, grown(x[i], amount));
            let q = y.update(i, grown(y[i], amount));
            assert forall|k: int| 0 <= k < p.len() implies same_model(#[trigger] p[k], q[k]) by {
                if k != i {
                    assert(same_model(x[k], y[k]));
                }
            }
        }
    }
}

/// Streams with the same models have the same models with their fillers
/// grown.
pub proof fn lemma_with_fillers_by_model(a: Seq<RichToken<'_>>, b: Seq<RichToken<'_>>, width: nat)
    requires
        same_models(a, b),
    ensures
        same_models(with_fillers(a, width), with_fillers(b, width)),
{
    lemma_junk_indices_by_model(a, b);
    lemma_total_width_by_model(a, b);
    let junks = junk_indices(a);
    if junks.len() > 0 {
        let n = deficit(a, width);
        let per = n / junks.len();
        let extra = n % junks.len();
        lemma_grow_at_by_model(a, b, junks, per);
        lemma_grow_at_by_model(
            grow_at(a, junks, per),
            grow_at(b, junks, per),
            junks.take(extra as int),
            1,
        );
    }
}

/// Streams with the same models pair their parentheses alike.
pub proof fn lemma_pairs_in_row_by_model(
    a: Seq<RichToken<'_>>,
    b: Seq<RichToken<'_>>,
    open: int,
    upto: int,
)
    requires
        same_models(a, b),
    ensures
        pairs_in_row(a, open, upto) == pairs_in_row(b, open, upto),
    decreases upto,
{
    if upto > 0 {
        lemma_pairs_in_row_by_model(a, b, open, upto - 1);
        if 0 <= open < upto - 1 < a.len() {
            assert(same_model(a[open], b[open]));
            assert(same_model(a[upto - 1], b[upto - 1]));
        }
        assert(is_pair(a, open, upto - 1) == is_pair(b, open, upto - 1));
    }
}

/// Streams with the same models have the same pairs of parentheses.
pub proof fn lemma_pairs_by_model(a: Seq<RichToken<'_>>, b: Seq<RichToken<'_>>, upto: int)
    requires
        same_models(a, b),
    ensures
        pairs_upto(a, upto) == pairs_upto(b, upto),
    decreases upto,
{
    if upto > 0 {
        lemma_pairs_by_model(a, b, upto - 1);
        lemma_pairs_in_row_by_model(a, b, upto - 1, a.len() as int);
    }
}

/// Widening parentheses keeps the models the same.
pub proof fn lemma_widen_at_by_model(
    a: Seq<RichToken<'_>>,
    b: Seq<RichToken<'_>>,
    pairs: Seq<(usize, usize)>,
    amount: nat,
)
    requires
        same_models(a, b),
    ensures
        same_models(widen_at(a, pairs, amount), widen_at(b, pairs, amount)),
    decreases pairs.len(),
{
    if pairs.len() > 0 {
        lemma_widen_at_by_model(a, b, pairs.drop_last(), amount);
        let x = widen_at(a, pairs.drop_last(), amount);
        let y = widen_at(b, pairs.drop_last(), amount);
        let open = pairs.last().0 as int;
        let close = pairs.last().1 as int;
        if open < x.len() && close < x.len() {
            assert(same_model(x[open], y[open]));
            let p = x.update(open, widened(x[open], amount));
            let q = y.update(open, widened(y[open], amount));
            assert forall|k: int| 0 <= k < p.len() implies same_model(#[trigger] p[k], q[k]) by {
                if k != open {
                    assert(same_model(x[k], y[k]));
                }
            }
            assert(same_model(p[close], q[close]));
            let r = p.update(close, widened(p[close], amount));
            let t = q.update(close, widened(q[close], amount));
            assert forall|k: int| 0 <= k < r.len() implies same_model(#[trigger] r[k], t[k]) by {
                if k != close {
                    assert(same_model(p[k], q[k]));
                }
            }
        }
    }
}

/// Streams with the same models have the same models with their
/// parentheses widened.
pub proof fn lemma_with_parentheses_by_model(
    a: Seq<RichToken<'_>>,
    b: Seq<RichToken<'_>>,
    width: nat,
)
    requires
        same_models(a, b),
    ensures
        same_models(with_parentheses(a, width), with_parentheses(b, width)),
{
    lemma_pairs_by_model(a, b, a.len() as int);
    lemma_total_width_by_model(a, b);
    let pairs = matched_pairs(a);
    if pairs.len() > 0 {
        let iters = deficit(a, width) / 2;
        let per = iters / pairs.len();
        let extra = iters % pairs.len();
        lemma_widen_at_by_model(a, b, pairs, per);
        lemma_widen_at_by_model(
            widen_at(a, pairs, per),
            widen_at(b, pairs, per),
            pairs.take(extra as int),
            1,
        );
    }
}

/// Streams with the same models end with the same token.
pub proof fn lemma_ends_with_slash_by_model(a: Seq<RichToken<'_>>, b: Seq<RichToken<'_>>)
    requires
        same_models(a, b),
    ensures
        ends_with_slash(a) == ends_with_slash(b),
        last_token(a) is Some == last_token(b) is Some,
        last_token(a) is Some ==> last_token(a)->0@ == last_token(b)->0@,
    decreases a.len(),
{
    if a.len() > 0 {
        assert(same_model(a[a.len() - 1], b[b.len() - 1]));
        match a.last() {
            RichToken::Token(s) => {
                let t = b.last()->Token_0;
                if s.inner.kind() is Punctuation {
                    lemma_punctuation_by_model(s.inner, t.inner);
                }
            },
            _ => {
                lemma_same_models_subrange(a, b, 0, a.len() - 1);
                lemma_ends_with_slash_by_model(a.drop_last(), b.drop_last());
            },
        }
    }
}

/// Lines with the same models are justified into lines with the same
/// models.
pub proof fn lemma_justified_by_model(a: Seq<RichToken<'_>>, b: Seq<RichToken<'_>>, width: nat)
    requires
        same_models(a, b),
    ensures
        same_models(justified(a, width), justified(b, width)),
{
    lemma_stripped_by_model(a, b);
    let a1 = stripped(a);
    let b1 = stripped(b);
    lemma_with_fillers_by_model(a1, b1, width);
    let a2 = with_fillers(a1, width);
    let b2 = with_fillers(b1, width);
    lemma_with_parentheses_by_model(a2, b2, width);
    let a3 = with_parentheses(a2, width);
    let b3 = with_parentheses(b2, width);
    lemma_total_width_by_model(a3, b3);
    let a4 = with_spacer(a3, width);
    let b4 = with_spacer(b3, width);
    if total_width(a3) + 1 == width {
        let at = a3.len() as int / 2;
        assert forall|k: int| 0 <= k < a4.len() implies same_model(#[trigger] a4[k], b4[k]) by {
            if k < at {
                assert(same_model(a3[k], b3[k]));
            } else if k > at {
                assert(same_model(a3[k - 1], b3[k - 1]));
            }
        }
    }
    lemma_total_width_by_model(a4, b4);
    lemma_ends_with_slash_by_model(a4, b4);
    let a5 = with_comment(a4, width);
    let b5 = with_comment(b4, width);
    assert(comment_filler(a4, width) == comment_filler(b4, width));
    assert forall|k: int| 0 <= k < a5.len() implies same_model(#[trigger] a5[k], b5[k]) by {
        if k < a4.len() {
            assert(same_model(a4[k], b4[k]));
        }
    }
}

/// Lines with the same models are rendered as the same bytes.
pub proof fn lemma_rendered_line_by_model(a: Seq<RichToken<'_>>, b: Seq<RichToken<'_>>)
    requires
        same_models(a, b),
    ensures
        rendered_line(a) == rendered_line(b),
    decreases a.len(),
{
    if a.len() > 0 {
        lemma_same_models_subrange(a, b, 0, a.len() - 1);
        lemma_rendered_line_by_model(a.drop_last(), b.drop_last());
        assert(same_model(a[a.len() - 1], b[b.len() - 1]));
    }
}

/// Sequences of lines with the same models are rendered as the same
/// bytes.
pub proof fn lemma_rendered_by_model(p: Seq<Seq<RichToken<'_>>>, q: Seq<Seq<RichToken<'_>>>)
    requires
        same_lines(p, q),
    ensures
        rendered(p) == rendered(q),
    decreases p.len(),
{
    if p.len() > 0 {
        let x = p.drop_last();
        let y = q.drop_last();
        assert forall|k: int| 0 <= k < x.len() implies same_models(#[trigger] x[k], y[k]) by {
            assert(x[k] == p[k]);
            assert(y[k] == q[k]);
        }
        lemma_rendered_by_model(x, y);
        assert(same_models(p[p.len() - 1], q[q.len() - 1]));
        lemma_rendered_line_by_model(p.last(), q.last());
    }
}

/// Streams with the same models are laid out as the same bytes.
pub proof fn lemma_layout_by_model(a: Seq<RichToken<'_>>, b: Seq<RichToken<'_>>, width: nat)
    requires
        same_models(a, b),
    ensures
        same_lines(layout(a, width), layout(b, width)),
        rendered(layout(a, width)) == rendered(layout(b, width)),
{
    lemma_packed_by_model(a, b, width);
    let p = layout(a, width);
    let q = layout(b, width);
    assert forall|k: int| 0 <= k < p.len() implies same_models(#[trigger] p[k], q[k]) by {
        assert(same_models(packed(a, width)[k], packed(b, width)[k]));
        lemma_justified_by_model(packed(a, width)[k], packed(b, width)[k], width);
    }
    lemma_rendered_by_model(p, q);
}

/// The bytes that a file is laid out as are fixed by the models of its
/// tokens, the syntax tree and the width: two sequences of tokens with the
/// same classes and texts at the same positions give the same bytes.
pub proof fn lemma_unformatted_by_model(
    a: Seq<Spanned<Token<'_>>>,
    b: Seq<Spanned<Token<'_>>>,
    tree: Seq<Node>,
    width: nat,
)
    requires
        lexemes(a) == lexemes(b),
    ensures
        unformatted(a, tree, width) == unformatted(b, tree, width),
{
    lemma_fusion_safe_by_model(a, b);
    lemma_populated_by_model(fusion_safe(a), fusion_safe(b), forest_events(tree));
    lemma_layout_by_model(
        populated(fusion_safe(a), forest_events(tree)),
        populated(fusion_safe(b), forest_events(tree)),
        width,
    );
}

} // verus!
