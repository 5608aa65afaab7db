//! What holds of the stages together: no stage loses or reorders a source
//! token, tokens that would fuse are never brought together, and a line is
//! only wider than the target width when one element alone is.

use vstd::prelude::*;
use crate::emit::{
    all_wf, comment_filler, ends_with_slash, grow_at, grown, is_part_of,
    joined, junk_indices, justified, layout, lemma_packed, lemma_packed_parts,
    lemma_stripped, lemma_subrange, lemma_total_width_concat, lemma_total_width_insert,
    lemma_total_width_single, lemma_with_fillers, lemma_with_parentheses, matched_pairs, packed,
    same_skeleton, stripped, total_width, widen_at, widened, with_comment,
    with_fillers, with_parentheses, with_spacer, MAX_FILLER,
};
use crate::junk::{junk_str, lemma_junk_len};
use crate::ir::{
    fuses, fusion_safe, markers, merged, populated, separated, skeleton, source_tokens,
    statements_only, Cursor, Markers, RichToken,
};
use crate::lex::{texts_len, Spanned, Token};
use crate::location::{forest_events, Event, Node};

verus! {

/// The skeleton of two streams, one after the other.
pub proof fn lemma_skeleton_concat(a: Seq<RichToken<'_>>, b: Seq<RichToken<'_>>)
    ensures
        skeleton(a + b) == skeleton(a) + skeleton(b),
    decreases b.len(),
{
    if b.len() == 0 {
        assert(a + b =~= a);
        assert(skeleton(a) + skeleton(b) =~= skeleton(a));
    } else {
        assert((a + b).drop_last() =~= a + b.drop_last());
        lemma_skeleton_concat(a, b.drop_last());
        assert(skeleton(a + b) =~= skeleton(a) + skeleton(b));
    }
}

/// The skeleton of a single element.
pub proof fn lemma_skeleton_single(one: RichToken<'_>)
    ensures
        skeleton(seq![one]) == if one is Token || one is Spacer {
            seq![one]
        } else {
            Seq::empty()
        },
{
    let s = seq![one];
    assert(s.drop_last() =~= Seq::<RichToken<'_>>::empty());
    assert(skeleton(s.drop_last()) =~= Seq::<RichToken<'_>>::empty());
    assert(s.last() == one);
    assert(Seq::<RichToken<'_>>::empty().push(one) =~= seq![one]);
}

/// The source tokens of a stream are those of its skeleton.
pub proof fn lemma_source_tokens_of_skeleton(stream: Seq<RichToken<'_>>)
    ensures
        source_tokens(skeleton(stream)) == source_tokens(stream),
    decreases stream.len(),
{
    if stream.len() > 0 {
        lemma_source_tokens_of_skeleton(stream.drop_last());
        let init = skeleton(stream.drop_last());
        let last = stream.last();
        if last is Token || last is Spacer {
            assert(init.push(last).drop_last() =~= init);
        }
    }
}

/// Streams with one skeleton hold the same source tokens.
pub proof fn lemma_same_source_tokens(a: Seq<RichToken<'_>>, b: Seq<RichToken<'_>>)
    requires
        skeleton(a) == skeleton(b),
    ensures
        source_tokens(a) == source_tokens(b),
{
    lemma_source_tokens_of_skeleton(a);
    lemma_source_tokens_of_skeleton(b);
}

/// Placeholders that take up no room: fillers of no width and parentheses
/// repeated no time.
pub open spec fn empty_placeholders(stream: Seq<RichToken<'_>>) -> bool {
    forall|i: int|
        0 <= i < stream.len() ==> match #[trigger] stream[i] {
            RichToken::Junk(n) => n == 0,
            RichToken::ExprOpen { reps, .. } => reps == 0,
            RichToken::ExprClose { reps, .. } => reps == 0,
            _ => false,
        }
}

/// Empty placeholders have no skeleton and no width.
pub proof fn lemma_empty_placeholders(stream: Seq<RichToken<'_>>)
    requires
        empty_placeholders(stream),
    ensures
        skeleton(stream) == Seq::<RichToken<'_>>::empty(),
        total_width(stream) == 0,
        all_wf(stream),
    decreases stream.len(),
{
    if stream.len() > 0 {
        let init = stream.drop_last();
        assert forall|i: int| 0 <= i < init.len() implies match #[trigger] init[i] {
            RichToken::Junk(n) => n == 0,
            RichToken::ExprOpen { reps, .. } => reps == 0,
            RichToken::ExprClose { reps, .. } => reps == 0,
            _ => false,
        } by {
            assert(init[i] == stream[i]);
        }
        lemma_empty_placeholders(init);
        assert(stream.last() == stream[stream.len() - 1]);
        stream.last().lemma_width();
    }
}

/// The stream of a file ends with its last token.
pub proof fn lemma_fusion_safe_last(tokens: Seq<Spanned<Token<'_>>>)
    requires
        tokens.len() > 0,
    ensures
        fusion_safe(tokens).len() > 0,
        fusion_safe(tokens).last() == RichToken::Token(tokens.last()),
{
}

/// The stream of a file holds nothing but its tokens, in order, and
/// spacers.
pub proof fn lemma_fusion_safe_tokens(tokens: Seq<Spanned<Token<'_>>>)
    ensures
        skeleton(fusion_safe(tokens)) == fusion_safe(tokens),
        source_tokens(fusion_safe(tokens)) == tokens,
    decreases tokens.len(),
{
    if tokens.len() > 0 {
        let shorter = tokens.drop_last();
        lemma_fusion_safe_tokens(shorter);
        let init = fusion_safe(shorter);
        let last = RichToken::Token(tokens.last());
        let stream = fusion_safe(tokens);
        let spacer = tokens.len() >= 2 && fuses(
            tokens[tokens.len() - 2].inner,
            tokens.last().inner,
        );
        if spacer {
            let spaced = init.push(RichToken::Spacer);
            assert(stream == spaced.push(last));
            assert(spaced.drop_last() =~= init);
            assert(spaced.last() == RichToken::Spacer);
            assert(skeleton(spaced) == spaced);
            assert(source_tokens(spaced) == shorter);
            assert(stream.drop_last() =~= spaced);
        } else {
            assert(stream == init.push(last));
            assert(stream.drop_last() =~= init);
        }
        assert(stream.last() == last);
        assert(skeleton(stream) == skeleton(stream.drop_last()).push(last));
        assert(source_tokens(stream) == source_tokens(stream.drop_last()).push(tokens.last()));
        assert(source_tokens(stream) =~= tokens);
    }
}

/// No two tokens that would fuse stand side by side in the stream of a
/// file.
pub proof fn lemma_fusion_safe_separated(tokens: Seq<Spanned<Token<'_>>>)
    ensures
        separated(fusion_safe(tokens)),
    decreases tokens.len(),
{
    if tokens.len() > 0 {
        let shorter = tokens.drop_last();
        lemma_fusion_safe_separated(shorter);
        let init = fusion_safe(shorter);
        let stream = fusion_safe(tokens);
        let spacer = tokens.len() >= 2 && fuses(tokens[tokens.len() - 2].inner, tokens.last().inner);
        if shorter.len() > 0 {
            lemma_fusion_safe_last(shorter);
            assert(shorter.last() == tokens[tokens.len() - 2]);
        }
        assert forall|i: int| 0 <= i && i + 1 < stream.len() implies !(
        #[trigger] stream[i] matches RichToken::Token(a) && stream[i + 1] matches RichToken::Token(
            b,
        ) && fuses(a.inner, b.inner)) by {
            if i + 1 < init.len() {
                assert(stream[i] == init[i]);
                assert(stream[i + 1] == init[i + 1]);
            } else if spacer {
                assert(stream[init.len() as int] is Spacer);
            } else {
                assert(stream[i] == init.last());
            }
        }
    }
}

/// The stream of a file is at most one character per token wider than the
/// tokens together.
pub proof fn lemma_fusion_safe_width(tokens: Seq<Spanned<Token<'_>>>)
    ensures
        all_wf(fusion_safe(tokens)),
        total_width(fusion_safe(tokens)) <= texts_len(tokens) + tokens.len(),
    decreases tokens.len(),
{
    if tokens.len() > 0 {
        let shorter = tokens.drop_last();
        lemma_fusion_safe_width(shorter);
        let init = fusion_safe(shorter);
        let last = RichToken::Token(tokens.last());
        let stream = fusion_safe(tokens);
        RichToken::Spacer.lemma_width();
        last.lemma_width();
        let spacer = tokens.len() >= 2 && fuses(
            tokens[tokens.len() - 2].inner,
            tokens.last().inner,
        );
        if spacer {
            let spaced = init.push(RichToken::Spacer);
            assert(stream == spaced.push(last));
            assert(spaced.drop_last() =~= init);
            assert(spaced.last() == RichToken::Spacer);
            assert(total_width(spaced) == total_width(init) + 1);
            assert(stream.drop_last() =~= spaced);
        } else {
            assert(stream == init.push(last));
            assert(stream.drop_last() =~= init);
        }
        assert(stream.last() == last);
        assert(total_width(stream) == total_width(stream.drop_last()) + last.width());
        assert(texts_len(tokens) == texts_len(shorter) + tokens.last().inner.text().len());
        assert forall|i: int| 0 <= i < stream.len() implies (#[trigger] stream[i]).wf() by {
            if i < init.len() {
                assert(stream[i] == init[i]);
            }
        }
    }
}

/// The placeholders that the events put around a token take up no room.
pub proof fn lemma_markers<'a>(
    events: Seq<Spanned<Event>>,
    at: Spanned<Token<'a>>,
    sofar: Markers<'a>,
)
    requires
        empty_placeholders(sofar.before),
        empty_placeholders(sofar.after),
    ensures
        empty_placeholders(markers(events, at, sofar).before),
        empty_placeholders(markers(events, at, sofar).after),
    decreases events.len() - sofar.cursor.next,
{
    let cursor = sofar.cursor;
    if 0 <= cursor.next < events.len() && events[cursor.next].aligned(at) {
        let next = match events[cursor.next].inner {
            Event::StatementStart => Markers {
                before: sofar.before.push(RichToken::Junk(0)),
                after: sofar.after,
                cursor: Cursor { next: cursor.next + 1, ..cursor },
            },
            Event::StatementEnd => Markers {
                before: sofar.before,
                after: sofar.after.push(RichToken::Junk(0)),
                cursor: Cursor { next: cursor.next + 1, ..cursor },
            },
            Event::ExprOpen => Markers {
                before: sofar.before.push(
                    RichToken::ExprOpen { id: cursor.next_id as usize, reps: 0 },
                ),
                after: sofar.after,
                cursor: Cursor {
                    next: cursor.next + 1,
                    next_id: cursor.next_id + 1,
                    open: cursor.open.push(cursor.next_id as usize),
                },
            },
            Event::ExprClose => Markers {
                before: sofar.before,
                after: sofar.after.push(RichToken::ExprClose { id: cursor.open.last(), reps: 0 }),
                cursor: Cursor {
                    next: cursor.next + 1,
                    next_id: cursor.next_id,
                    open: cursor.open.drop_last(),
                },
            },
        };
        assert(markers(events, at, sofar) == markers(events, at, next));
        lemma_markers(events, at, next);
    }
}

/// Merging a stream with events adds placeholders of no width and nothing
/// else.
pub proof fn lemma_merged<'a>(
    stream: Seq<RichToken<'a>>,
    from: int,
    events: Seq<Spanned<Event>>,
    cursor: Cursor,
    out: Seq<RichToken<'a>>,
)
    requires
        0 <= from <= stream.len(),
    ensures
        skeleton(merged(stream, from, events, cursor, out)) == skeleton(out) + skeleton(
            stream.skip(from),
        ),
        total_width(merged(stream, from, events, cursor, out)) == total_width(out) + total_width(
            stream.skip(from),
        ),
        all_wf(out) && all_wf(stream) ==> all_wf(merged(stream, from, events, cursor, out)),
    decreases stream.len() - from,
{
    if from >= stream.len() {
        assert(stream.skip(from) =~= Seq::<RichToken<'a>>::empty());
        assert(skeleton(out) + skeleton(stream.skip(from)) =~= skeleton(out));
    } else {
        let head = stream[from];
        let rest = stream.skip(from + 1);
        assert(stream.skip(from) =~= seq![head] + rest);
        lemma_skeleton_concat(seq![head], rest);
        lemma_skeleton_single(head);
        lemma_total_width_concat(seq![head], rest);
        lemma_total_width_single(head);
        match head {
            RichToken::Token(token) => {
                let empty = Markers { before: Seq::empty(), after: Seq::empty(), cursor };
                let m = markers(events, token, empty);
                lemma_markers(events, token, empty);
                lemma_empty_placeholders(m.before);
                lemma_empty_placeholders(m.after);
                let next = out + m.before + seq![head] + m.after;
                lemma_merged(stream, from + 1, events, m.cursor, next);
                lemma_skeleton_concat(out + m.before + seq![head], m.after);
                lemma_skeleton_concat(out + m.before, seq![head]);
                lemma_skeleton_concat(out, m.before);
                lemma_total_width_concat(out + m.before + seq![head], m.after);
                lemma_total_width_concat(out + m.before, seq![head]);
                lemma_total_width_concat(out, m.before);
                assert(skeleton(next) =~= skeleton(out) + seq![head]);
                assert(skeleton(next) + skeleton(rest) =~= skeleton(out) + (seq![head] + skeleton(
                    rest,
                )));
                if all_wf(out) && all_wf(stream) {
                    assert forall|i: int| 0 <= i < next.len() implies (#[trigger] next[i]).wf() by {
                        if i < out.len() {
                            assert(next[i] == out[i]);
                        } else if i < out.len() + m.before.len() {
                            assert(next[i] == m.before[i - out.len()]);
                        } else if i == out.len() + m.before.len() {
                            assert(next[i] == head);
                        } else {
                            assert(next[i] == m.after[i - out.len() - m.before.len() - 1]);
                        }
                    }
                }
            },
            other => {
                let next = out.push(other);
                lemma_merged(stream, from + 1, events, cursor, next);
                assert(next =~= out + seq![head]);
                lemma_skeleton_concat(out, seq![head]);
                lemma_total_width_concat(out, seq![head]);
                assert(skeleton(next) + skeleton(rest) =~= skeleton(out) + (skeleton(seq![head])
                    + skeleton(rest)));
                if all_wf(out) && all_wf(stream) {
                    assert forall|i: int| 0 <= i < next.len() implies (#[trigger] next[i]).wf() by {
                        if i < out.len() {
                            assert(next[i] == out[i]);
                        }
                    }
                }
            },
        }
    }
}

/// Materializing the events changes no token and no spacer, keeps their
/// order, and leaves the stream as wide as it was.
pub proof fn lemma_populated(stream: Seq<RichToken<'_>>, events: Seq<Spanned<Event>>)
    ensures
        skeleton(populated(stream, events)) == skeleton(stream),
        source_tokens(populated(stream, events)) == source_tokens(stream),
        total_width(populated(stream, events)) == total_width(stream),
        all_wf(stream) ==> all_wf(populated(stream, events)),
{
    let empty = Seq::<RichToken<'_>>::empty();
    lemma_merged(stream, 0, events, Cursor::start(), empty);
    lemma_merged(stream, 0, statements_only(events), Cursor::start(), empty);
    assert(stream.skip(0) =~= stream);
    assert(skeleton(empty) + skeleton(stream) =~= skeleton(stream));
    lemma_same_source_tokens(populated(stream, events), stream);
}


/// The source tokens of two streams, one after the other.
pub proof fn lemma_source_tokens_concat(a: Seq<RichToken<'_>>, b: Seq<RichToken<'_>>)
    ensures
        source_tokens(a + b) == source_tokens(a) + source_tokens(b),
    decreases b.len(),
{
    if b.len() == 0 {
        assert(a + b =~= a);
        assert(source_tokens(a) + source_tokens(b) =~= source_tokens(a));
    } else {
        assert((a + b).drop_last() =~= a + b.drop_last());
        lemma_source_tokens_concat(a, b.drop_last());
        assert(source_tokens(a + b) =~= source_tokens(a) + source_tokens(b));
    }
}

/// Blocks that agree wherever either holds a token or a spacer have one
/// skeleton.
pub proof fn lemma_same_skeleton(a: Seq<RichToken<'_>>, b: Seq<RichToken<'_>>)
    requires
        same_skeleton(a, b),
    ensures
        skeleton(a) == skeleton(b),
    decreases a.len(),
{
    if a.len() > 0 {
        let x = a.drop_last();
        let y = b.drop_last();
        assert(same_skeleton(x, y)) by {
            assert forall|i: int|
                #![trigger x[i]]
                #![trigger y[i]]
                0 <= i < x.len() && (x[i] is Token || x[i] is Spacer || y[i] is Token
                    || y[i] is Spacer) implies x[i] == y[i] by {
                assert(x[i] == a[i]);
                assert(y[i] == b[i]);
            }
        }
        lemma_same_skeleton(x, y);
        assert(a.last() == a[a.len() - 1]);
        assert(b.last() == b[b.len() - 1]);
    }
}

/// Whether the stream keeps apart the tokens that would fuse: no two of
/// them follow one another without a spacer in between.
pub open spec fn fusion_free(stream: Seq<RichToken<'_>>) -> bool {
    separated(skeleton(stream))
}

/// A part of a separated stream is separated.
pub proof fn lemma_separated_subrange(stream: Seq<RichToken<'_>>, from: int, to: int)
    requires
        separated(stream),
        0 <= from <= to <= stream.len(),
    ensures
        separated(stream.subrange(from, to)),
{
    let part = stream.subrange(from, to);
    assert forall|i: int| 0 <= i && i + 1 < part.len() implies !(
    #[trigger] part[i] matches RichToken::Token(a) && part[i + 1] matches RichToken::Token(b)
        && fuses(a.inner, b.inner)) by {
        assert(part[i] == stream[from + i]);
        assert(part[i + 1] == stream[from + i + 1]);
    }
}

/// One more spacer separates nothing less.
pub proof fn lemma_separated_insert(stream: Seq<RichToken<'_>>, at: int)
    requires
        separated(stream),
        0 <= at <= stream.len(),
    ensures
        separated(stream.insert(at, RichToken::Spacer)),
{
    let wider = stream.insert(at, RichToken::Spacer);
    assert forall|i: int| 0 <= i && i + 1 < wider.len() implies !(
    #[trigger] wider[i] matches RichToken::Token(a) && wider[i + 1] matches RichToken::Token(b)
        && fuses(a.inner, b.inner)) by {
        if i + 1 < at {
            assert(wider[i] == stream[i]);
            assert(wider[i + 1] == stream[i + 1]);
        } else if i + 1 == at {
            assert(wider[i + 1] is Spacer);
        } else if i == at {
            assert(wider[i] is Spacer);
        } else {
            assert(wider[i] == stream[i - 1]);
            assert(wider[i + 1] == stream[i]);
        }
    }
}

/// The skeleton of a part of a stream is a part of the skeleton of the
/// stream.
pub proof fn lemma_skeleton_subrange(stream: Seq<RichToken<'_>>, from: int, to: int) -> (range: (
    int,
    int,
))
    requires
        0 <= from <= to <= stream.len(),
    ensures
        0 <= range.0 <= range.1 <= skeleton(stream).len(),
        skeleton(stream.subrange(from, to)) == skeleton(stream).subrange(range.0, range.1),
{
    let pre = stream.take(from);
    let part = stream.subrange(from, to);
    let post = stream.skip(to);
    assert(stream =~= pre + part + post);
    lemma_skeleton_concat(pre + part, post);
    lemma_skeleton_concat(pre, part);
    let low = skeleton(pre).len() as int;
    let high = low + skeleton(part).len();
    assert(skeleton(stream).subrange(low, high) =~= skeleton(part));
    (low, high)
}

/// A part of a stream keeps apart what the stream keeps apart.
pub proof fn lemma_fusion_free_subrange(stream: Seq<RichToken<'_>>, from: int, to: int)
    requires
        fusion_free(stream),
        0 <= from <= to <= stream.len(),
    ensures
        fusion_free(stream.subrange(from, to)),
{
    let range = lemma_skeleton_subrange(stream, from, to);
    lemma_separated_subrange(skeleton(stream), range.0, range.1);
}

/// A spacer put anywhere into a stream leaves apart what was apart.
pub proof fn lemma_fusion_free_insert(stream: Seq<RichToken<'_>>, at: int)
    requires
        fusion_free(stream),
        0 <= at <= stream.len(),
    ensures
        fusion_free(stream.insert(at, RichToken::Spacer)),
        source_tokens(stream.insert(at, RichToken::Spacer)) == source_tokens(stream),
{
    let pre = stream.take(at);
    let post = stream.skip(at);
    let spacer = seq![RichToken::Spacer];
    assert(stream =~= pre + post);
    assert(stream.insert(at, RichToken::Spacer) =~= pre + spacer + post);
    lemma_skeleton_concat(pre, post);
    lemma_skeleton_concat(pre + spacer, post);
    lemma_skeleton_concat(pre, spacer);
    lemma_skeleton_single(RichToken::Spacer);
    let low = skeleton(pre).len() as int;
    assert(skeleton(pre + spacer + post) =~= skeleton(stream).insert(low, RichToken::Spacer));
    lemma_separated_insert(skeleton(stream), low);
    lemma_source_tokens_concat(pre, post);
    lemma_source_tokens_concat(pre + spacer, post);
    lemma_source_tokens_concat(pre, spacer);
    lemma_spacers_hold_no_token(spacer);
    assert(source_tokens(pre + spacer + post) =~= source_tokens(pre) + source_tokens(post));
}

/// Growing by nothing changes nothing.
pub proof fn lemma_grow_at_zero(block: Seq<RichToken<'_>>, indices: Seq<usize>)
    requires
        all_wf(block),
    ensures
        grow_at(block, indices, 0) == block,
    decreases indices.len(),
{
    if indices.len() > 0 {
        lemma_grow_at_zero(block, indices.drop_last());
        let i = indices.last() as int;
        if i < block.len() {
            assert(grown(block[i], 0) == block[i]);
            assert(block.update(i, block[i]) =~= block);
        }
    }
}

/// Widening by nothing changes nothing.
pub proof fn lemma_widen_at_zero(block: Seq<RichToken<'_>>, pairs: Seq<(usize, usize)>)
    ensures
        widen_at(block, pairs, 0) == block,
    decreases pairs.len(),
{
    if pairs.len() > 0 {
        lemma_widen_at_zero(block, pairs.drop_last());
        let open = pairs.last().0 as int;
        let close = pairs.last().1 as int;
        if open < block.len() && close < block.len() {
            assert(widened(block[open], 0) == block[open]);
            assert(block.update(open, block[open]) =~= block);
            assert(widened(block[close], 0) == block[close]);
            assert(block.update(close, block[close]) =~= block);
        }
    }
}

/// A line that has reached the width is left as it is by the fillers and
/// the parentheses.
pub proof fn lemma_full_line_kept(block: Seq<RichToken<'_>>, width: nat)
    requires
        all_wf(block),
        total_width(block) >= width,
    ensures
        with_fillers(block, width) == block,
        with_parentheses(block, width) == block,
{
    let junks = junk_indices(block);
    if junks.len() > 0 {
        assert(0nat / junks.len() == 0 && 0nat % junks.len() == 0) by (nonlinear_arith)
            requires
                junks.len() > 0,
        ;
        lemma_grow_at_zero(block, junks);
        assert(junks.take(0) =~= Seq::<usize>::empty());
    }
    let pairs = matched_pairs(block);
    if pairs.len() > 0 {
        assert(0nat / 2 == 0);
        assert(0nat / pairs.len() == 0 && 0nat % pairs.len() == 0) by (nonlinear_arith)
            requires
                pairs.len() > 0,
        ;
        lemma_widen_at_zero(block, pairs);
        assert(pairs.take(0) =~= Seq::<(usize, usize)>::empty());
    }
}

/// What the closing comment does to a line that is not exactly one
/// character short: it changes no token and no spacer, it never takes the
/// line past the width, and it takes the line to the width where the line
/// does not end with a division sign and lacks no more than the longest
/// filler and the two characters before it.
pub proof fn lemma_with_comment(block: Seq<RichToken<'_>>, width: nat)
    requires
        all_wf(block),
        total_width(block) + 1 != width,
    ensures
        all_wf(with_comment(block, width)),
        skeleton(with_comment(block, width)) == skeleton(block),
        total_width(block) <= total_width(with_comment(block, width)),
        total_width(block) <= width ==> total_width(with_comment(block, width)) <= width,
        total_width(block) >= width ==> with_comment(block, width) == block,
        total_width(block) < width && !ends_with_slash(block) && width - total_width(block)
            <= MAX_FILLER + 2 ==> total_width(with_comment(block, width)) == width,
{
    if total_width(block) < width && !ends_with_slash(block) {
        let index = comment_filler(block, width);
        let comment = RichToken::EndOfLineComment(junk_str(index));
        let line = block.push(comment);
        lemma_junk_len(index);
        comment.lemma_width();
        assert(line.drop_last() =~= block);
        assert(line.last() == comment);
        assert forall|i: int| 0 <= i < line.len() implies (#[trigger] line[i]).wf() by {
            if i < block.len() {
                assert(line[i] == block[i]);
            }
        }
    }
}

/// What justifying does to a line: it changes no source token and brings
/// no two tokens together that would fuse; it never takes the line past the
/// width; and a line that, without the spacers at its ends, has reached the
/// width already is left at that.
pub proof fn lemma_justified(block: Seq<RichToken<'_>>, width: nat)
    requires
        all_wf(block),
        block.len() <= usize::MAX,
        total_width(block) <= usize::MAX,
        width <= usize::MAX,
    ensures
        all_wf(justified(block, width)),
        source_tokens(justified(block, width)) == source_tokens(block),
        fusion_free(block) ==> fusion_free(justified(block, width)),
        total_width(stripped(block)) <= width ==> total_width(justified(block, width)) <= width,
        total_width(stripped(block)) >= width ==> justified(block, width) == stripped(block),
{
    let range = lemma_stripped(block);
    let bare = stripped(block);
    lemma_subrange(block, range.0, range.1);
    // stripping drops spacers only
    assert(source_tokens(bare) == source_tokens(block)) by {
        let pre = block.take(range.0);
        let post = block.skip(range.1);
        assert(block =~= pre + bare + post);
        lemma_source_tokens_concat(pre + bare, post);
        lemma_source_tokens_concat(pre, bare);
        lemma_spacers_hold_no_token(pre);
        lemma_spacers_hold_no_token(post);
        assert(source_tokens(pre) + source_tokens(bare) + source_tokens(post) =~= source_tokens(
            bare,
        ));
    }
    if fusion_free(block) {
        lemma_fusion_free_subrange(block, range.0, range.1);
    }
    let filled = with_fillers(bare, width);
    lemma_with_fillers(bare, width);
    lemma_same_skeleton(bare, filled);
    let wrapped = with_parentheses(filled, width);
    lemma_with_parentheses(filled, width);
    lemma_same_skeleton(filled, wrapped);
    lemma_same_source_tokens(bare, filled);
    lemma_same_source_tokens(filled, wrapped);
    let spaced = with_spacer(wrapped, width);
    if total_width(wrapped) + 1 == width {
        lemma_total_width_insert(wrapped, wrapped.len() as int / 2, RichToken::Spacer);
        RichToken::Spacer.lemma_width();
        if fusion_free(wrapped) {
            lemma_fusion_free_insert(wrapped, wrapped.len() as int / 2);
        } else {
            lemma_source_tokens_insert(wrapped, wrapped.len() as int / 2);
        }
        assert forall|i: int| 0 <= i < spaced.len() implies (#[trigger] spaced[i]).wf() by {
            if i < wrapped.len() as int / 2 {
                assert(spaced[i] == wrapped[i]);
            } else if i > wrapped.len() as int / 2 {
                assert(spaced[i] == wrapped[i - 1]);
            }
        }
    }
    lemma_with_comment(spaced, width);
    lemma_same_source_tokens(spaced, with_comment(spaced, width));
    if total_width(bare) >= width {
        lemma_full_line_kept(bare, width);
    }
}

/// The line as it is before its closing comment is added.
pub open spec fn before_comment<'a>(block: Seq<RichToken<'a>>, width: nat) -> Seq<RichToken<'a>> {
    with_spacer(with_parentheses(with_fillers(stripped(block), width), width), width)
}

/// When a line reaches the width exactly: a line that, without the spacers
/// at its ends, is not wider than the width is brought to the width by its
/// fillers, its parentheses and a spacer, or else by the closing comment,
/// provided that its last token is no division sign and that it lacks no
/// more than the longest filler and the two characters before it.
pub proof fn lemma_justified_exact(block: Seq<RichToken<'_>>, width: nat)
    requires
        all_wf(block),
        block.len() <= usize::MAX,
        total_width(block) <= usize::MAX,
        width <= usize::MAX,
        total_width(stripped(block)) <= width,
    ensures
        total_width(before_comment(block, width)) <= width,
        total_width(before_comment(block, width)) + 1 != width,
        total_width(before_comment(block, width)) == width || (!ends_with_slash(
            before_comment(block, width),
        ) && width - total_width(before_comment(block, width)) <= MAX_FILLER + 2)
            ==> total_width(justified(block, width)) == width,
{
    let range = lemma_stripped(block);
    let bare = stripped(block);
    lemma_subrange(block, range.0, range.1);
    let filled = with_fillers(bare, width);
    lemma_with_fillers(bare, width);
    let wrapped = with_parentheses(filled, width);
    lemma_with_parentheses(filled, width);
    let spaced = with_spacer(wrapped, width);
    if total_width(wrapped) + 1 == width {
        lemma_total_width_insert(wrapped, wrapped.len() as int / 2, RichToken::Spacer);
        RichToken::Spacer.lemma_width();
        assert forall|i: int| 0 <= i < spaced.len() implies (#[trigger] spaced[i]).wf() by {
            if i < wrapped.len() as int / 2 {
                assert(spaced[i] == wrapped[i]);
            } else if i > wrapped.len() as int / 2 {
                assert(spaced[i] == wrapped[i - 1]);
            }
        }
    }
    lemma_with_comment(spaced, width);
}

/// A run of spacers holds no source token.
pub proof fn lemma_spacers_hold_no_token(stream: Seq<RichToken<'_>>)
    requires
        forall|i: int| 0 <= i < stream.len() ==> (#[trigger] stream[i]) is Spacer,
    ensures
        source_tokens(stream) == Seq::<Spanned<Token<'_>>>::empty(),
    decreases stream.len(),
{
    if stream.len() > 0 {
        let init = stream.drop_last();
        assert forall|i: int| 0 <= i < init.len() implies (#[trigger] init[i]) is Spacer by {
            assert(init[i] == stream[i]);
        }
        lemma_spacers_hold_no_token(init);
        assert(stream.last() == stream[stream.len() - 1]);
    }
}

/// A spacer put anywhere into a stream changes no source token.
pub proof fn lemma_source_tokens_insert(stream: Seq<RichToken<'_>>, at: int)
    requires
        0 <= at <= stream.len(),
    ensures
        source_tokens(stream.insert(at, RichToken::Spacer)) == source_tokens(stream),
{
    let pre = stream.take(at);
    let post = stream.skip(at);
    let spacer = seq![RichToken::Spacer];
    assert(stream =~= pre + post);
    assert(stream.insert(at, RichToken::Spacer) =~= pre + spacer + post);
    lemma_source_tokens_concat(pre, post);
    lemma_source_tokens_concat(pre + spacer, post);
    lemma_source_tokens_concat(pre, spacer);
    lemma_spacers_hold_no_token(spacer);
    assert(source_tokens(pre + spacer + post) =~= source_tokens(pre) + source_tokens(post));
}

/// A line that is exactly as wide as the width and has no spacer at
/// either end is left untouched: justifying it again changes nothing.
pub proof fn lemma_justified_fixed_point(block: Seq<RichToken<'_>>, width: nat)
    requires
        all_wf(block),
        block.len() <= usize::MAX,
        total_width(block) <= usize::MAX,
        width <= usize::MAX,
        total_width(block) == width,
        block.len() > 0 ==> !(block[0] is Spacer) && !(block.last() is Spacer),
    ensures
        justified(block, width) == block,
{
    assert(stripped(block) == block);
    lemma_justified(block, width);
}

/// The width of the lines that a stream is laid out in: every line is at
/// most as wide as the width, but for the lines that hold one element which
/// alone is as wide as the width, or wider; these hold that element and
/// nothing else.
pub proof fn lemma_layout_width(tokens: Seq<RichToken<'_>>, width: nat)
    requires
        all_wf(tokens),
        tokens.len() <= usize::MAX,
        total_width(tokens) <= usize::MAX,
        1 <= width <= usize::MAX,
    ensures
        layout(tokens, width).len() == packed(tokens, width).len(),
        forall|k: int|
            0 <= k < layout(tokens, width).len() ==> {
                let line = #[trigger] layout(tokens, width)[k];
                ||| total_width(line) <= width
                ||| line.len() == 1 && line[0].width() >= width && line == packed(
                    tokens,
                    width,
                )[k]
            },
{
    lemma_packed(tokens, width);
    lemma_packed_parts(tokens, width);
    assert forall|k: int| 0 <= k < layout(tokens, width).len() implies {
        let line = #[trigger] layout(tokens, width)[k];
        ||| total_width(line) <= width
        ||| line.len() == 1 && line[0].width() >= width && line == packed(tokens, width)[k]
    } by {
        let bare = packed(tokens, width)[k];
        assert(is_part_of(bare, tokens));
        let (from, to) = choose|from: int, to: int|
            0 <= from <= to <= tokens.len() && bare == #[trigger] tokens.subrange(from, to);
        lemma_subrange(tokens, from, to);
        lemma_justified(bare, width);
        let range = lemma_stripped(bare);
        lemma_subrange(bare, range.0, range.1);
        if bare.len() == 1 && bare[0].width() >= width && !(total_width(bare) < width) {
            if bare[0] is Spacer {
                lemma_total_width_single(bare[0]);
                bare[0].lemma_width();
                assert(bare =~= seq![bare[0]]);
            } else {
                assert(stripped(bare) == bare);
                lemma_total_width_single(bare[0]);
                assert(bare =~= seq![bare[0]]);
            }
        }
    }
}

/// The source tokens of lines joined are those of the lines, one after the
/// other.
pub open spec fn tokens_of_lines<'a>(lines: Seq<Seq<RichToken<'a>>>) -> Seq<Spanned<Token<'a>>>
    decreases lines.len(),
{
    if lines.len() == 0 {
        Seq::empty()
    } else {
        source_tokens(lines[0]) + tokens_of_lines(lines.skip(1))
    }
}

/// The source tokens of a stream that was laid out are the source tokens
/// of the stream, in their order: the layout loses none, adds none and moves
/// none.
pub proof fn lemma_layout_tokens(tokens: Seq<RichToken<'_>>, width: nat)
    requires
        all_wf(tokens),
        tokens.len() <= usize::MAX,
        total_width(tokens) <= usize::MAX,
        width <= usize::MAX,
    ensures
        tokens_of_lines(layout(tokens, width)) == source_tokens(tokens),
{
    lemma_packed(tokens, width);
    lemma_packed_parts(tokens, width);
    let bare = packed(tokens, width);
    let lines = layout(tokens, width);
    assert forall|k: int| 0 <= k < bare.len() implies source_tokens(#[trigger] lines[k])
        == source_tokens(bare[k]) by {
        assert(is_part_of(bare[k], tokens));
        let (from, to) = choose|from: int, to: int|
            0 <= from <= to <= tokens.len() && bare[k] == #[trigger] tokens.subrange(from, to);
        lemma_subrange(tokens, from, to);
        lemma_justified(bare[k], width);
    }
    lemma_tokens_of_lines(bare, lines);
    lemma_tokens_of_joined(bare);
}

/// Lines that hold the same source tokens one by one hold the same source
/// tokens together.
pub proof fn lemma_tokens_of_lines(a: Seq<Seq<RichToken<'_>>>, b: Seq<Seq<RichToken<'_>>>)
    requires
        a.len() == b.len(),
        forall|k: int| 0 <= k < a.len() ==> source_tokens(#[trigger] b[k]) == source_tokens(a[k]),
    ensures
        tokens_of_lines(a) == tokens_of_lines(b),
    decreases a.len(),
{
    if a.len() > 0 {
        assert forall|k: int| 0 <= k < a.skip(1).len() implies source_tokens(
            #[trigger] b.skip(1)[k],
        ) == source_tokens(a.skip(1)[k]) by {
            assert(b.skip(1)[k] == b[k + 1]);
            assert(a.skip(1)[k] == a[k + 1]);
        }
        lemma_tokens_of_lines(a.skip(1), b.skip(1));
        assert(source_tokens(b[0]) == source_tokens(a[0]));
    }
}

/// The source tokens of lines are those of the lines joined.
pub proof fn lemma_tokens_of_joined(lines: Seq<Seq<RichToken<'_>>>)
    ensures
        tokens_of_lines(lines) == source_tokens(joined(lines)),
    decreases lines.len(),
{
    if lines.len() > 0 {
        lemma_tokens_of_joined(lines.skip(1));
        lemma_source_tokens_concat(lines[0], joined(lines.skip(1)));
    }
}

/// No line of a layout brings together two tokens that would fuse, if the
/// stream kept them apart.
pub proof fn lemma_layout_fusion_free(tokens: Seq<RichToken<'_>>, width: nat)
    requires
        all_wf(tokens),
        tokens.len() <= usize::MAX,
        total_width(tokens) <= usize::MAX,
        width <= usize::MAX,
        fusion_free(tokens),
    ensures
        forall|k: int|
            0 <= k < layout(tokens, width).len() ==> fusion_free(
                #[trigger] layout(tokens, width)[k],
            ),
{
    lemma_packed_parts(tokens, width);
    assert forall|k: int| 0 <= k < layout(tokens, width).len() implies fusion_free(
        #[trigger] layout(tokens, width)[k],
    ) by {
        let bare = packed(tokens, width)[k];
        assert(is_part_of(bare, tokens));
        let (from, to) = choose|from: int, to: int|
            0 <= from <= to <= tokens.len() && bare == #[trigger] tokens.subrange(from, to);
        lemma_subrange(tokens, from, to);
        lemma_fusion_free_subrange(tokens, from, to);
        lemma_justified(bare, width);
    }
}

/// From the tokens of a file to its lines: whatever the syntax tree and
/// the width, every line holds its source tokens in the order of the file,
/// no line brings together two tokens that would fuse, and only a line that
/// holds nothing but one element as wide as the width is wider than the
/// width.
pub proof fn lemma_file_layout(tokens: Seq<Spanned<Token<'_>>>, tree: Seq<Node>, width: nat)
    requires
        tokens.len() + texts_len(tokens) <= usize::MAX,
        populated(fusion_safe(tokens), forest_events(tree)).len() <= usize::MAX,
        1 <= width <= usize::MAX,
    ensures
        ({
            let stream = populated(fusion_safe(tokens), forest_events(tree));
            let lines = layout(stream, width);
            &&& tokens_of_lines(lines) == tokens
            &&& forall|k: int| 0 <= k < lines.len() ==> fusion_free(#[trigger] lines[k])
            &&& forall|k: int|
                0 <= k < lines.len() ==> total_width(#[trigger] lines[k]) <= width || lines[k].len()
                    == 1
        }),
{
    let stream = populated(fusion_safe(tokens), forest_events(tree));
    lemma_fusion_safe_tokens(tokens);
    lemma_fusion_safe_separated(tokens);
    lemma_fusion_safe_width(tokens);
    lemma_populated(fusion_safe(tokens), forest_events(tree));
    lemma_layout_tokens(stream, width);
    lemma_layout_fusion_free(stream, width);
    lemma_layout_width(stream, width);
}

} // verus!
