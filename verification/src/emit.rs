//! Packing the stream into lines, widening every line towards the target
//! width, and rendering the lines.

use vstd::prelude::*;
use vstd::utf8::encode_utf8;
use crate::ir::{Ir, RichToken};
use crate::junk::{junk, junk_str};
use crate::lex::Token;

verus! {

/// Every filler of the block names an entry of the table.
pub open spec fn all_wf(block: Seq<RichToken<'_>>) -> bool {
    forall|i: int| 0 <= i < block.len() ==> (#[trigger] block[i]).wf()
}

/// The number of characters that the block takes up when rendered.
pub open spec fn total_width(block: Seq<RichToken<'_>>) -> nat
    decreases block.len(),
{
    if block.len() == 0 {
        0
    } else {
        total_width(block.drop_last()) + block.last().width()
    }
}

/// The width of a concatenation is the sum of the widths.
pub proof fn lemma_total_width_concat(a: Seq<RichToken<'_>>, b: Seq<RichToken<'_>>)
    ensures
        total_width(a + b) == total_width(a) + total_width(b),
    decreases b.len(),
{
    if b.len() == 0 {
        assert(a + b =~= a);
    } else {
        assert((a + b).drop_last() =~= a + b.drop_last());
        lemma_total_width_concat(a, b.drop_last());
    }
}

/// The width of a block of one element is the width of that element.
pub proof fn lemma_total_width_single(one: RichToken<'_>)
    ensures
        total_width(seq![one]) == one.width(),
{
    let block = seq![one];
    assert(block.drop_last() =~= Seq::<RichToken<'_>>::empty());
    assert(total_width(block.drop_last()) == 0);
    assert(block.last() == one);
}

/// A block is the part before an index, the element there, and the part
/// after it; so is its width.
pub proof fn lemma_total_width_split(block: Seq<RichToken<'_>>, i: int)
    requires
        0 <= i < block.len(),
    ensures
        total_width(block) == total_width(block.take(i)) + block[i].width() + total_width(
            block.skip(i + 1),
        ),
{
    assert(block =~= block.take(i).push(block[i]) + block.skip(i + 1));
    lemma_total_width_concat(block.take(i).push(block[i]), block.skip(i + 1));
    assert(block.take(i).push(block[i]).drop_last() =~= block.take(i));
}

/// Replacing one element changes the width by the difference of the two.
pub proof fn lemma_total_width_update<'a>(block: Seq<RichToken<'a>>, i: int, by: RichToken<'a>)
    requires
        0 <= i < block.len(),
    ensures
        total_width(block.update(i, by)) + block[i].width() == total_width(block) + by.width(),
{
    let updated = block.update(i, by);
    lemma_total_width_split(block, i);
    lemma_total_width_split(updated, i);
    assert(updated.take(i) =~= block.take(i));
    assert(updated.skip(i + 1) =~= block.skip(i + 1));
}

/// Inserting an element adds its width.
pub proof fn lemma_total_width_insert<'a>(block: Seq<RichToken<'a>>, i: int, by: RichToken<'a>)
    requires
        0 <= i <= block.len(),
    ensures
        total_width(block.insert(i, by)) == total_width(block) + by.width(),
{
    let inserted = block.insert(i, by);
    lemma_total_width_split(inserted, i);
    assert(inserted.take(i) =~= block.take(i));
    assert(inserted.skip(i + 1) =~= block.skip(i));
    assert(block =~= block.take(i) + block.skip(i));
    lemma_total_width_concat(block.take(i), block.skip(i));
}

/// A part of a block is no wider than the block.
pub proof fn lemma_total_width_subrange(block: Seq<RichToken<'_>>, from: int, to: int)
    requires
        0 <= from <= to <= block.len(),
    ensures
        total_width(block.subrange(from, to)) <= total_width(block),
{
    assert(block =~= block.take(from) + block.subrange(from, to) + block.skip(to));
    lemma_total_width_concat(block.take(from) + block.subrange(from, to), block.skip(to));
    lemma_total_width_concat(block.take(from), block.subrange(from, to));
}

/// The rendered length of a block, in characters.
pub fn block_len(block: &[RichToken<'_>]) -> (n: usize)
    requires
        all_wf(block@),
        total_width(block@) <= usize::MAX,
    ensures
        n == total_width(block@),
{
    let mut n: usize = 0;
    let mut i: usize = 0;
    while i < block.len()
        invariant
            i <= block.len(),
            all_wf(block@),
            total_width(block@) <= usize::MAX,
            n == total_width(block@.take(i as int)),
        decreases block.len() - i,
    {
        proof {
            assert(block@.take(i + 1).drop_last() =~= block@.take(i as int));
            lemma_total_width_subrange(block@, 0, i + 1);
        }
        n += block[i].len();
        i += 1;
    }
    proof {
        assert(block@.take(i as int) =~= block@);
    }
    n
}

/// How many leading elements of `tokens` can be put on a line that already
/// holds `taken` characters, so that the line stays narrower than `width`.
pub open spec fn run_len(tokens: Seq<RichToken<'_>>, width: nat, taken: nat) -> nat
    decreases tokens.len(),
{
    if tokens.len() > 0 && taken + tokens[0].width() < width {
        1 + run_len(tokens.skip(1), width, taken + tokens[0].width())
    } else {
        0
    }
}

/// The stream cut into lines. A line takes elements while it stays narrower
/// than `width`. An element that alone is as wide as `width`, or wider, ends
/// the line before it, even where that line is empty, and has a line to
/// itself.
pub open spec fn packed<'a>(tokens: Seq<RichToken<'a>>, width: nat) -> Seq<Seq<RichToken<'a>>>
    decreases tokens.len(),
{
    if tokens.len() == 0 {
        Seq::empty()
    } else {
        let run = run_len(tokens, width, 0);
        if run < tokens.len() && tokens[run as int].width() >= width {
            seq![tokens.take(run as int), seq![tokens[run as int]]] + packed(
                tokens.skip(run as int + 1),
                width,
            )
        } else if 0 < run <= tokens.len() {
            seq![tokens.take(run as int)] + packed(tokens.skip(run as int), width)
        } else {
            Seq::empty()
        }
    }
}

/// A run never takes more elements than there are, and what it takes is
/// narrower than the width.
pub proof fn lemma_run_len(tokens: Seq<RichToken<'_>>, width: nat, taken: nat)
    ensures
        run_len(tokens, width, taken) <= tokens.len(),
        run_len(tokens, width, taken) > 0 ==> taken + total_width(
            tokens.take(run_len(tokens, width, taken) as int),
        ) < width,
        run_len(tokens, width, taken) < tokens.len() ==> taken + total_width(
            tokens.take(run_len(tokens, width, taken) as int),
        ) + tokens[run_len(tokens, width, taken) as int].width() >= width,
        total_width(tokens.take(run_len(tokens, width, taken) as int)) <= total_width(tokens),
    decreases tokens.len(),
{
    let run = run_len(tokens, width, taken);
    if tokens.len() > 0 && taken + tokens[0].width() < width {
        let rest = tokens.skip(1);
        lemma_run_len(rest, width, taken + tokens[0].width());
        let r = run_len(rest, width, taken + tokens[0].width());
        assert(tokens.take(run as int) =~= seq![tokens[0]] + rest.take(r as int));
        lemma_total_width_concat(seq![tokens[0]], rest.take(r as int));
        lemma_total_width_single(tokens[0]);
        if r < rest.len() {
            assert(rest[r as int] == tokens[run as int]);
        }
    } else {
        assert(tokens.take(0) =~= Seq::<RichToken<'_>>::empty());
    }
    lemma_total_width_subrange(tokens, 0, run as int);
}

/// The views of a vector of lines.
pub open spec fn line_views<'a>(lines: Seq<Vec<RichToken<'a>>>) -> Seq<Seq<RichToken<'a>>> {
    lines.map_values(|line: Vec<RichToken<'a>>| line@)
}

/// Counts the leading elements of `tokens[from..]` that fit on one line.
fn run_length(tokens: &[RichToken<'_>], from: usize, width: usize) -> (run: usize)
    requires
        from <= tokens.len(),
        all_wf(tokens@),
    ensures
        run == run_len(tokens@.skip(from as int), width as nat, 0),
        from + run <= tokens.len(),
{
    let mut i: usize = from;
    let mut taken: usize = 0;
    proof {
        lemma_run_len(tokens@.skip(from as int), width as nat, 0);
    }
    while i < tokens.len()
        invariant
            from <= i <= tokens.len(),
            all_wf(tokens@),
            taken < width || (taken == 0 && i == from),
            run_len(tokens@.skip(from as int), width as nat, 0) == (i - from) + run_len(
                tokens@.skip(i as int),
                width as nat,
                taken as nat,
            ),
        decreases tokens.len() - i,
    {
        let w = tokens[i].len();
        proof {
            assert(tokens@.skip(i as int)[0] == tokens@[i as int]);
            assert(tokens@.skip(i as int).skip(1) =~= tokens@.skip(i + 1));
        }
        if taken < width && w < width - taken {
            taken += w;
            i += 1;
        } else {
            return i - from;
        }
    }
    proof {
        assert(tokens@.skip(i as int).len() == 0);
    }
    i - from
}

/// Copies `tokens[from..to]`.
fn copy_range<'a>(tokens: &[RichToken<'a>], from: usize, to: usize) -> (line: Vec<RichToken<'a>>)
    requires
        from <= to <= tokens.len(),
    ensures
        line@ == tokens@.subrange(from as int, to as int),
{
    let mut line: Vec<RichToken<'a>> = Vec::new();
    let mut i: usize = from;
    while i < to
        invariant
            from <= i <= to <= tokens.len(),
            line@ == tokens@.subrange(from as int, i as int),
        decreases to - i,
    {
        line.push(tokens[i]);
        i += 1;
        assert(line@ =~= tokens@.subrange(from as int, i as int));
    }
    line
}

/// Cuts the stream into lines in one pass from left to right.
pub fn pack<'a>(tokens: &[RichToken<'a>], width: usize) -> (lines: Vec<Vec<RichToken<'a>>>)
    requires
        all_wf(tokens@),
    ensures
        line_views(lines@) == packed(tokens@, width as nat),
{
    let mut lines: Vec<Vec<RichToken<'a>>> = Vec::new();
    let mut i: usize = 0;
    proof {
        assert(tokens@.skip(0) =~= tokens@);
        assert(line_views(lines@) + packed(tokens@, width as nat) =~= packed(
            tokens@,
            width as nat,
        ));
    }
    while i < tokens.len()
        invariant
            i <= tokens.len(),
            all_wf(tokens@),
            packed(tokens@, width as nat) == line_views(lines@) + packed(
                tokens@.skip(i as int),
                width as nat,
            ),
        decreases tokens.len() - i,
    {
        let ghost rest = tokens@.skip(i as int);
        let ghost done = line_views(lines@);
        let run = run_length(tokens, i, width);
        let line = copy_range(tokens, i, i + run);
        proof {
            assert(line@ =~= rest.take(run as int));
        }
        if i + run < tokens.len() && tokens[i + run].len() >= width {
            // the next element alone fills a line: end this line, even if
            // it is empty, and give the element a line of its own
            let mut alone: Vec<RichToken<'a>> = Vec::new();
            alone.push(tokens[i + run]);
            lines.push(line);
            lines.push(alone);
            proof {
                assert(rest[run as int] == tokens@[i + run]);
                assert(alone@ =~= seq![rest[run as int]]);
                assert(rest.skip(run + 1) =~= tokens@.skip(i + run + 1));
                assert(line_views(lines@) =~= done + seq![line@, alone@]);
            }
            i = i + run + 1;
        } else {
            lines.push(line);
            proof {
                if i + run < tokens.len() {
                    assert(rest[run as int] == tokens@[i + run]);
                }
                assert(rest.skip(run as int) =~= tokens@.skip(i + run));
                assert(line_views(lines@) =~= done + seq![line@]);
                assert(run > 0);
            }
            i = i + run;
        }
    }
    proof {
        assert(line_views(lines@) + Seq::<Seq<RichToken<'a>>>::empty() =~= line_views(lines@));
    }
    lines
}

/// The lines of a packed stream, one after the other, are the stream.
pub open spec fn joined<'a>(lines: Seq<Seq<RichToken<'a>>>) -> Seq<RichToken<'a>>
    decreases lines.len(),
{
    if lines.len() == 0 {
        Seq::empty()
    } else {
        lines[0] + joined(lines.skip(1))
    }
}

/// Packing loses nothing and changes no order: the lines joined are the
/// stream. And every line is narrower than the width, or is one element
/// that alone is as wide as the width or wider.
pub proof fn lemma_packed(tokens: Seq<RichToken<'_>>, width: nat)
    ensures
        joined(packed(tokens, width)) == tokens,
        forall|k: int|
            0 <= k < packed(tokens, width).len() ==> {
                let line = #[trigger] packed(tokens, width)[k];
                ||| total_width(line) < width
                ||| line.len() == 0
                ||| line.len() == 1 && line[0].width() >= width
            },
    decreases tokens.len(),
{
    if tokens.len() > 0 {
        let run = run_len(tokens, width, 0);
        lemma_run_len(tokens, width, 0);
        let first = tokens.take(run as int);
        if run < tokens.len() && tokens[run as int].width() >= width {
            let rest = tokens.skip(run as int + 1);
            let alone = seq![tokens[run as int]];
            let lines = packed(tokens, width);
            lemma_packed(rest, width);
            assert(lines.skip(1) =~= seq![alone] + packed(rest, width));
            assert(lines.skip(1).skip(1) =~= packed(rest, width));
            assert(joined(lines.skip(1)) == alone + rest);
            assert(joined(lines) == first + (alone + rest));
            assert(joined(lines) =~= tokens);
            assert forall|k: int| 0 <= k < lines.len() implies {
                let line = #[trigger] lines[k];
                ||| total_width(line) < width
                ||| line.len() == 0
                ||| line.len() == 1 && line[0].width() >= width
            } by {
                if k >= 2 {
                    assert(lines[k] == packed(rest, width)[k - 2]);
                }
            }
        } else {
            let rest = tokens.skip(run as int);
            let lines = packed(tokens, width);
            lemma_packed(rest, width);
            assert(lines.skip(1) =~= packed(rest, width));
            assert(joined(lines) == first + rest);
            assert(joined(lines) =~= tokens);
            assert forall|k: int| 0 <= k < lines.len() implies {
                let line = #[trigger] lines[k];
                ||| total_width(line) < width
                ||| line.len() == 0
                ||| line.len() == 1 && line[0].width() >= width
            } by {
                if k >= 1 {
                    assert(lines[k] == packed(rest, width)[k - 1]);
                }
            }
        }
    }
}

/// The block without the spacers it starts with.
pub open spec fn strip_front<'a>(block: Seq<RichToken<'a>>) -> Seq<RichToken<'a>>
    decreases block.len(),
{
    if block.len() > 0 && block[0] is Spacer {
        strip_front(block.skip(1))
    } else {
        block
    }
}

/// The block without the spacers it ends with.
pub open spec fn strip_back<'a>(block: Seq<RichToken<'a>>) -> Seq<RichToken<'a>>
    decreases block.len(),
{
    if block.len() > 0 && block.last() is Spacer {
        strip_back(block.drop_last())
    } else {
        block
    }
}

/// The block without the spacers at its two ends: at the edge of a line
/// they separate nothing.
pub open spec fn stripped<'a>(block: Seq<RichToken<'a>>) -> Seq<RichToken<'a>> {
    strip_back(strip_front(block))
}

/// Removes the spacers at the two ends of the block.
pub fn strip_spacers(block: &mut Vec<RichToken<'_>>)
    ensures
        final(block)@ == stripped(old(block)@),
{
    let ghost start = block@;
    while block.len() > 0 && matches!(block[0], RichToken::Spacer)
        invariant
            strip_front(start) == strip_front(block@),
        decreases block.len(),
    {
        let ghost before = block@;
        block.remove(0);
        assert(block@ =~= before.skip(1));
    }
    while block.len() > 0 && matches!(block[block.len() - 1], RichToken::Spacer)
        invariant
            stripped(start) == strip_back(block@),
        decreases block.len(),
    {
        let ghost before = block@;
        block.pop();
        assert(block@ =~= before.drop_last());
    }
}

/// The largest index of the table of fillers.
pub const MAX_FILLER: usize = 80;

/// How far a line is from the width; zero where it has reached it.
pub open spec fn deficit(block: Seq<RichToken<'_>>, width: nat) -> nat {
    if width > total_width(block) {
        (width - total_width(block)) as nat
    } else {
        0
    }
}

/// A filler made `amount` characters wider, as far as the table reaches;
/// any other element as it is.
pub open spec fn grown<'a>(token: RichToken<'a>, amount: nat) -> RichToken<'a> {
    match token {
        RichToken::Junk(n) => RichToken::Junk(
            if n + amount >= MAX_FILLER {
                MAX_FILLER
            } else {
                (n + amount) as usize
            },
        ),
        other => other,
    }
}

/// The block with the element at each listed index grown by `amount`.
pub open spec fn grow_at<'a>(
    block: Seq<RichToken<'a>>,
    indices: Seq<usize>,
    amount: nat,
) -> Seq<RichToken<'a>>
    decreases indices.len(),
{
    if indices.len() == 0 {
        block
    } else {
        let init = grow_at(block, indices.drop_last(), amount);
        let i = indices.last() as int;
        if i < init.len() {
            init.update(i, grown(init[i], amount))
        } else {
            init
        }
    }
}

/// `n` characters spread over the fillers at `junks`: each gets the same
/// share, and the first ones get one more each until the remainder is used
/// up.
pub open spec fn fillers_grown<'a>(
    block: Seq<RichToken<'a>>,
    n: nat,
    junks: Seq<usize>,
) -> Seq<RichToken<'a>> {
    let per = n / junks.len();
    let extra = n % junks.len();
    grow_at(grow_at(block, junks, per), junks.take(extra as int), 1)
}

/// The indices of the fillers of the block, in order.
pub open spec fn junk_indices(block: Seq<RichToken<'_>>) -> Seq<usize>
    decreases block.len(),
{
    if block.len() == 0 {
        Seq::empty()
    } else {
        let init = junk_indices(block.drop_last());
        if block.last() is Junk {
            init.push((block.len() - 1) as usize)
        } else {
            init
        }
    }
}

/// The block with its deficit spread over its fillers.
pub open spec fn with_fillers<'a>(block: Seq<RichToken<'a>>, width: nat) -> Seq<RichToken<'a>> {
    let junks = junk_indices(block);
    if junks.len() == 0 {
        block
    } else {
        fillers_grown(block, deficit(block, width), junks)
    }
}

/// Everything listed by [`junk_indices`] is the index of a filler.
pub proof fn lemma_junk_indices(block: Seq<RichToken<'_>>)
    requires
        block.len() <= usize::MAX,
    ensures
        forall|k: int|
            0 <= k < junk_indices(block).len() ==> (#[trigger] junk_indices(block)[k])
                < block.len() && block[junk_indices(block)[k] as int] is Junk,
    decreases block.len(),
{
    if block.len() > 0 {
        let init = junk_indices(block.drop_last());
        lemma_junk_indices(block.drop_last());
        assert forall|k: int| 0 <= k < junk_indices(block).len() implies (
        #[trigger] junk_indices(block)[k]) < block.len() && block[junk_indices(
            block,
        )[k] as int] is Junk by {
            if k < init.len() {
                assert(junk_indices(block)[k] == init[k]);
                assert(block.drop_last()[init[k] as int] == block[init[k] as int]);
            }
        }
    }
}

/// Two blocks of one length that agree wherever either holds a token or a
/// spacer.
pub open spec fn same_skeleton(a: Seq<RichToken<'_>>, b: Seq<RichToken<'_>>) -> bool {
    &&& a.len() == b.len()
    &&& forall|i: int|
        #![trigger a[i]]
        #![trigger b[i]]
        0 <= i < a.len() && (a[i] is Token || a[i] is Spacer || b[i] is Token || b[i] is Spacer)
            ==> a[i] == b[i]
}

/// Growing elements changes no token and no spacer, keeps every filler in
/// the table, and adds at most `amount` characters for every listed index.
pub proof fn lemma_grow_at(block: Seq<RichToken<'_>>, indices: Seq<usize>, amount: nat)
    requires
        all_wf(block),
    ensures
        grow_at(block, indices, amount).len() == block.len(),
        all_wf(grow_at(block, indices, amount)),
        same_skeleton(block, grow_at(block, indices, amount)),
        forall|i: int|
            0 <= i < block.len() ==> (block[i] is Junk <==> (#[trigger] grow_at(
                block,
                indices,
                amount,
            )[i]) is Junk),
        total_width(block) <= total_width(grow_at(block, indices, amount)),
        total_width(grow_at(block, indices, amount)) <= total_width(block) + indices.len()
            * amount,
    decreases indices.len(),
{
    if indices.len() > 0 {
        let init = grow_at(block, indices.drop_last(), amount);
        lemma_grow_at(block, indices.drop_last(), amount);
        let i = indices.last() as int;
        assert((indices.len() - 1) * amount + amount == indices.len() * amount)
            by (nonlinear_arith);
        if i < init.len() {
            let by = grown(init[i], amount);
            lemma_total_width_update(init, i, by);
            init[i].lemma_width();
            by.lemma_width();
        }
    }
}

/// Spreading the deficit over the fillers changes no token and no spacer,
/// never makes the line narrower, and never takes it past the width.
pub proof fn lemma_with_fillers(block: Seq<RichToken<'_>>, width: nat)
    requires
        all_wf(block),
    ensures
        with_fillers(block, width).len() == block.len(),
        all_wf(with_fillers(block, width)),
        same_skeleton(block, with_fillers(block, width)),
        total_width(block) <= total_width(with_fillers(block, width)),
        total_width(with_fillers(block, width)) <= total_width(block) + deficit(block, width),
{
    let junks = junk_indices(block);
    if junks.len() > 0 {
        let n = deficit(block, width);
        let per = n / junks.len();
        let extra = n % junks.len();
        let first = grow_at(block, junks, per);
        lemma_grow_at(block, junks, per);
        lemma_grow_at(first, junks.take(extra as int), 1);
        vstd::arithmetic::div_mod::lemma_fundamental_div_mod(n as int, junks.len() as int);
        assert(junks.len() * per == junks.len() * (n as int / junks.len() as int));
        assert(junks.take(extra as int).len() * 1 == extra) by (nonlinear_arith)
            requires
                junks.take(extra as int).len() == extra,
        ;
    }
}

/// Grows the fillers at the first `count` of the listed indices.
fn grow_listed(block: &mut Vec<RichToken<'_>>, junks: &[usize], count: usize, amount: usize)
    requires
        count <= junks@.len(),
        all_wf(old(block)@),
        forall|k: int| 0 <= k < junks@.len() ==> (#[trigger] junks@[k]) < old(block)@.len(),
    ensures
        final(block)@ == grow_at(old(block)@, junks@.take(count as int), amount as nat),
        final(block)@.len() == old(block)@.len(),
        all_wf(final(block)@),
        forall|i: int|
            0 <= i < old(block)@.len() ==> (old(block)@[i] is Junk <==> (
            #[trigger] final(block)@[i]) is Junk),
{
    let ghost start = block@;
    let mut k: usize = 0;
    while k < count
        invariant
            k <= count <= junks@.len(),
            all_wf(start),
            block@.len() == start.len(),
            forall|j: int| 0 <= j < junks@.len() ==> (#[trigger] junks@[j]) < start.len(),
            block@ == grow_at(start, junks@.take(k as int), amount as nat),
        decreases count - k,
    {
        proof {
            assert(junks@.take(k + 1).drop_last() =~= junks@.take(k as int));
            lemma_grow_at(start, junks@.take(k as int), amount as nat);
        }
        let index = junks[k];
        if let RichToken::Junk(n) = block[index] {
            let wider = if amount >= MAX_FILLER - n {
                MAX_FILLER
            } else {
                n + amount
            };
            block.set(index, RichToken::Junk(wider));
        } else {
            assert(block@.update(index as int, block@[index as int]) =~= block@);
        }
        k += 1;
    }
    proof {
        lemma_grow_at(start, junks@.take(count as int), amount as nat);
    }
}

/// Spreads `n` characters over the fillers at `junks`.
pub fn adjust_stmts_by(block: &mut Vec<RichToken<'_>>, n: usize, junks: &[usize])
    requires
        junks@.len() > 0,
        all_wf(old(block)@),
        forall|k: int|
            0 <= k < junks@.len() ==> (#[trigger] junks@[k]) < old(block)@.len() && old(
                block,
            )@[junks@[k] as int] is Junk,
    ensures
        final(block)@ == fillers_grown(old(block)@, n as nat, junks@),
{
    let per = n / junks.len();
    let extra = n % junks.len();
    proof {
        assert(junks@.take(junks@.len() as int) =~= junks@);
    }
    grow_listed(block, junks, junks.len(), per);
    grow_listed(block, junks, extra, 1);
}

/// Lists the indices of the fillers of the block.
fn junk_positions(block: &Vec<RichToken<'_>>) -> (junks: Vec<usize>)
    ensures
        junks@ == junk_indices(block@),
{
    let mut junks: Vec<usize> = Vec::new();
    let mut i: usize = 0;
    while i < block.len()
        invariant
            i <= block.len(),
            junks@ == junk_indices(block@.take(i as int)),
        decreases block.len() - i,
    {
        proof {
            assert(block@.take(i + 1).drop_last() =~= block@.take(i as int));
        }
        if matches!(block[i], RichToken::Junk(_)) {
            junks.push(i);
        }
        i += 1;
    }
    proof {
        assert(block@.take(i as int) =~= block@);
    }
    junks
}

/// Widens the fillers of the block by what the block lacks to the width.
pub fn adjust_stmts(block: &mut Vec<RichToken<'_>>, width: usize)
    requires
        all_wf(old(block)@),
        total_width(old(block)@) <= usize::MAX,
    ensures
        final(block)@ == with_fillers(old(block)@, width as nat),
{
    let len = block_len(block.as_slice());
    let junks = junk_positions(block);
    if junks.len() == 0 {
        return ;
    }
    let diff = if width > len {
        width - len
    } else {
        0
    };
    proof {
        assert(block@.len() == block.len());
        lemma_junk_indices(block@);
    }
    adjust_stmts_by(block, diff, junks.as_slice());
}

/// Whether the element at `open` opens the expression that the element at
/// `close`, further on in the block, closes.
pub open spec fn is_pair(block: Seq<RichToken<'_>>, open: int, close: int) -> bool {
    &&& 0 <= open < close < block.len()
    &&& block[open] matches RichToken::ExprOpen { id, .. }
    &&& block[close] matches RichToken::ExprClose { id: close_id, .. }
    &&& id == close_id
}

/// The pairs that the element at `open` forms with elements before `upto`.
pub open spec fn pairs_in_row(block: Seq<RichToken<'_>>, open: int, upto: int) -> Seq<
    (usize, usize),
>
    decreases upto,
{
    if upto <= 0 {
        Seq::empty()
    } else {
        let init = pairs_in_row(block, open, upto - 1);
        if is_pair(block, open, upto - 1) {
            init.push((open as usize, (upto - 1) as usize))
        } else {
            init
        }
    }
}

/// The pairs whose opening element lies before `upto`.
pub open spec fn pairs_upto(block: Seq<RichToken<'_>>, upto: int) -> Seq<(usize, usize)>
    decreases upto,
{
    if upto <= 0 {
        Seq::empty()
    } else {
        pairs_upto(block, upto - 1) + pairs_in_row(block, upto - 1, block.len() as int)
    }
}

/// The pairs of parentheses that open and close within the block, ordered
/// by where they open and then by where they close.
pub open spec fn matched_pairs(block: Seq<RichToken<'_>>) -> Seq<(usize, usize)> {
    pairs_upto(block, block.len() as int)
}

/// Every pair names an opening and a closing parenthesis of the block.
pub open spec fn valid_pairs(block: Seq<RichToken<'_>>, pairs: Seq<(usize, usize)>) -> bool {
    forall|k: int|
        0 <= k < pairs.len() ==> {
            let pair = #[trigger] pairs[k];
            &&& pair.0 < block.len()
            &&& pair.1 < block.len()
            &&& block[pair.0 as int] is ExprOpen
            &&& block[pair.1 as int] is ExprClose
        }
}

/// A parenthesis repeated `amount` more times; any other element as it is.
pub open spec fn widened<'a>(token: RichToken<'a>, amount: nat) -> RichToken<'a> {
    match token {
        RichToken::ExprOpen { id, reps } => RichToken::ExprOpen {
            id,
            reps: (reps + amount) as usize,
        },
        RichToken::ExprClose { id, reps } => RichToken::ExprClose {
            id,
            reps: (reps + amount) as usize,
        },
        other => other,
    }
}

/// The block with both sides of each listed pair widened by `amount`.
pub open spec fn widen_at<'a>(
    block: Seq<RichToken<'a>>,
    pairs: Seq<(usize, usize)>,
    amount: nat,
) -> Seq<RichToken<'a>>
    decreases pairs.len(),
{
    if pairs.len() == 0 {
        block
    } else {
        let init = widen_at(block, pairs.drop_last(), amount);
        let open = pairs.last().0 as int;
        let close = pairs.last().1 as int;
        if open < init.len() && close < init.len() {
            let opened = init.update(open, widened(init[open], amount));
            opened.update(close, widened(opened[close], amount))
        } else {
            init
        }
    }
}

/// `n` characters taken up by the pairs, two for each added repetition:
/// every pair gets the same number of repetitions, and the first ones get one
/// more each until the remainder is used up.
pub open spec fn parentheses_widened<'a>(
    block: Seq<RichToken<'a>>,
    n: nat,
    pairs: Seq<(usize, usize)>,
) -> Seq<RichToken<'a>> {
    let iters = n / 2;
    let per = iters / pairs.len();
    let extra = iters % pairs.len();
    widen_at(widen_at(block, pairs, per), pairs.take(extra as int), 1)
}

/// The block with its deficit, as far as it is even, taken up by its pairs
/// of parentheses.
pub open spec fn with_parentheses<'a>(block: Seq<RichToken<'a>>, width: nat) -> Seq<
    RichToken<'a>,
> {
    let pairs = matched_pairs(block);
    if pairs.len() == 0 {
        block
    } else {
        parentheses_widened(block, deficit(block, width), pairs)
    }
}

/// No element is wider than its block.
pub proof fn lemma_element_width(block: Seq<RichToken<'_>>, i: int)
    requires
        0 <= i < block.len(),
    ensures
        block[i].width() <= total_width(block),
{
    lemma_total_width_split(block, i);
}

/// An element that opens nothing, or that has nothing behind it yet, forms
/// no pair.
proof fn lemma_row_empty(block: Seq<RichToken<'_>>, open: int, upto: int)
    requires
        upto <= open + 1 || open < 0 || open >= block.len() || !(block[open] is ExprOpen),
    ensures
        pairs_in_row(block, open, upto) == Seq::<(usize, usize)>::empty(),
    decreases upto,
{
    if upto > 0 {
        lemma_row_empty(block, open, upto - 1);
    }
}

/// The pairs found in a row are pairs of the block.
proof fn lemma_row_valid(block: Seq<RichToken<'_>>, open: int, upto: int)
    requires
        block.len() <= usize::MAX,
        upto <= block.len(),
    ensures
        valid_pairs(block, pairs_in_row(block, open, upto)),
    decreases upto,
{
    if upto > 0 {
        lemma_row_valid(block, open, upto - 1);
        let init = pairs_in_row(block, open, upto - 1);
        let row = pairs_in_row(block, open, upto);
        assert forall|k: int| 0 <= k < row.len() implies {
            let pair = #[trigger] row[k];
            &&& pair.0 < block.len()
            &&& pair.1 < block.len()
            &&& block[pair.0 as int] is ExprOpen
            &&& block[pair.1 as int] is ExprClose
        } by {
            if k < init.len() {
                assert(row[k] == init[k]);
            }
        }
    }
}

/// Everything listed by [`matched_pairs`] is a pair of the block.
pub proof fn lemma_matched_pairs(block: Seq<RichToken<'_>>, upto: int)
    requires
        block.len() <= usize::MAX,
        upto <= block.len(),
    ensures
        valid_pairs(block, pairs_upto(block, upto)),
    decreases upto,
{
    if upto > 0 {
        lemma_matched_pairs(block, upto - 1);
        lemma_row_valid(block, upto - 1, block.len() as int);
        let init = pairs_upto(block, upto - 1);
        let row = pairs_in_row(block, upto - 1, block.len() as int);
        let all = pairs_upto(block, upto);
        assert forall|k: int| 0 <= k < all.len() implies {
            let pair = #[trigger] all[k];
            &&& pair.0 < block.len()
            &&& pair.1 < block.len()
            &&& block[pair.0 as int] is ExprOpen
            &&& block[pair.1 as int] is ExprClose
        } by {
            if k < init.len() {
                assert(all[k] == init[k]);
            } else {
                assert(all[k] == row[k - init.len()]);
            }
        }
    }
}

/// Widening pairs changes no token and no spacer and adds two characters
/// for every listed pair and every repetition.
pub proof fn lemma_widen_at(block: Seq<RichToken<'_>>, pairs: Seq<(usize, usize)>, amount: nat)
    requires
        all_wf(block),
        valid_pairs(block, pairs),
        total_width(block) + 2 * pairs.len() * amount <= usize::MAX,
    ensures
        widen_at(block, pairs, amount).len() == block.len(),
        all_wf(widen_at(block, pairs, amount)),
        same_skeleton(block, widen_at(block, pairs, amount)),
        forall|i: int|
            #![trigger widen_at(block, pairs, amount)[i]]
            0 <= i < block.len() ==> (block[i] is ExprOpen <==> widen_at(
                block,
                pairs,
                amount,
            )[i] is ExprOpen) && (block[i] is ExprClose <==> widen_at(block, pairs, amount)[i]
                is ExprClose),
        total_width(widen_at(block, pairs, amount)) == total_width(block) + 2 * pairs.len()
            * amount,
    decreases pairs.len(),
{
    if pairs.len() > 0 {
        let shorter = pairs.drop_last();
        assert(2 * (pairs.len() - 1) * amount + 2 * amount == 2 * pairs.len() * amount)
            by (nonlinear_arith);
        assert(valid_pairs(block, shorter)) by {
            assert forall|k: int| 0 <= k < shorter.len() implies {
                let pair = #[trigger] shorter[k];
                &&& pair.0 < block.len()
                &&& pair.1 < block.len()
                &&& block[pair.0 as int] is ExprOpen
                &&& block[pair.1 as int] is ExprClose
            } by {
                assert(shorter[k] == pairs[k]);
            }
        }
        lemma_widen_at(block, shorter, amount);
        let init = widen_at(block, shorter, amount);
        let last = pairs[pairs.len() - 1];
        let open = last.0 as int;
        let close = last.1 as int;
        assert(init[open] is ExprOpen);
        assert(init[close] is ExprClose);
        lemma_element_width(init, open);
        init[open].lemma_width();
        let opened = init.update(open, widened(init[open], amount));
        lemma_total_width_update(init, open, widened(init[open], amount));
        widened(init[open], amount).lemma_width();
        lemma_element_width(opened, close);
        opened[close].lemma_width();
        lemma_total_width_update(opened, close, widened(opened[close], amount));
        widened(opened[close], amount).lemma_width();
        assert(total_width(opened) == total_width(init) + amount);
        assert(widen_at(block, pairs, amount) == opened.update(
            close,
            widened(opened[close], amount),
        ));
        assert(total_width(widen_at(block, pairs, amount)) == total_width(init) + 2 * amount);
    } else {
        assert(2 * pairs.len() * amount == 0) by (nonlinear_arith)
            requires
                pairs.len() == 0,
        ;
    }
}

/// Taking up the deficit with parentheses changes no token and no spacer,
/// and widens the line by the largest even number within its deficit, or by
/// nothing where it has no pair.
pub proof fn lemma_with_parentheses(block: Seq<RichToken<'_>>, width: nat)
    requires
        all_wf(block),
        block.len() <= usize::MAX,
        total_width(block) <= usize::MAX,
        width <= usize::MAX,
    ensures
        with_parentheses(block, width).len() == block.len(),
        all_wf(with_parentheses(block, width)),
        same_skeleton(block, with_parentheses(block, width)),
        total_width(with_parentheses(block, width)) == total_width(block) + (if matched_pairs(
            block,
        ).len() == 0 {
            0
        } else {
            2 * (deficit(block, width) / 2)
        }),
{
    let pairs = matched_pairs(block);
    if pairs.len() > 0 {
        lemma_matched_pairs(block, block.len() as int);
        lemma_parentheses_widened(block, deficit(block, width), pairs);
    }
}

/// What [`parentheses_widened`] does to a block whose pairs are valid.
pub proof fn lemma_parentheses_widened(
    block: Seq<RichToken<'_>>,
    n: nat,
    pairs: Seq<(usize, usize)>,
)
    requires
        all_wf(block),
        valid_pairs(block, pairs),
        pairs.len() > 0,
        total_width(block) + n <= usize::MAX,
    ensures
        parentheses_widened(block, n, pairs).len() == block.len(),
        all_wf(parentheses_widened(block, n, pairs)),
        same_skeleton(block, parentheses_widened(block, n, pairs)),
        total_width(parentheses_widened(block, n, pairs)) == total_width(block) + 2 * (n / 2),
        2 * pairs.len() * ((n / 2) / pairs.len()) + 2 * ((n / 2) % pairs.len()) == 2 * (n / 2),
{
    let iters = n / 2;
    let per = iters / pairs.len();
    let extra = iters % pairs.len();
    vstd::arithmetic::div_mod::lemma_fundamental_div_mod(iters as int, pairs.len() as int);
    assert(pairs.len() * per == pairs.len() * (iters as int / pairs.len() as int));
    assert(2 * pairs.len() * per == 2 * (pairs.len() * per)) by (nonlinear_arith);
    lemma_widen_at(block, pairs, per);
    let first = widen_at(block, pairs, per);
    let some = pairs.take(extra as int);
    assert(valid_pairs(first, some)) by {
        assert forall|k: int| 0 <= k < some.len() implies {
            let pair = #[trigger] some[k];
            &&& pair.0 < first.len()
            &&& pair.1 < first.len()
            &&& first[pair.0 as int] is ExprOpen
            &&& first[pair.1 as int] is ExprClose
        } by {
            assert(some[k] == pairs[k]);
        }
    }
    assert(2 * some.len() * 1 == 2 * extra) by (nonlinear_arith)
        requires
            some.len() == extra,
    ;
    lemma_widen_at(first, some, 1);
}

/// Widens both sides of the first `count` of the listed pairs.
fn widen_listed(
    block: &mut Vec<RichToken<'_>>,
    exprs: &[(usize, usize)],
    count: usize,
    amount: usize,
)
    requires
        count <= exprs@.len(),
        all_wf(old(block)@),
        valid_pairs(old(block)@, exprs@),
        total_width(old(block)@) + 2 * count * amount <= usize::MAX,
    ensures
        final(block)@ == widen_at(old(block)@, exprs@.take(count as int), amount as nat),
{
    let ghost start = block@;
    let mut k: usize = 0;
    while k < count
        invariant
            k <= count <= exprs@.len(),
            all_wf(start),
            valid_pairs(start, exprs@),
            total_width(start) + 2 * count * amount <= usize::MAX,
            block@ == widen_at(start, exprs@.take(k as int), amount as nat),
        decreases count - k,
    {
        let ghost done = exprs@.take(k as int);
        proof {
            assert(exprs@.take(k + 1).drop_last() =~= done);
            assert(valid_pairs(start, done)) by {
                assert forall|j: int| 0 <= j < done.len() implies {
                    let pair = #[trigger] done[j];
                    &&& pair.0 < start.len()
                    &&& pair.1 < start.len()
                    &&& start[pair.0 as int] is ExprOpen
                    &&& start[pair.1 as int] is ExprClose
                } by {
                    assert(done[j] == exprs@[j]);
                }
            }
            assert(2 * k * amount + 2 * amount <= 2 * count * amount) by (nonlinear_arith)
                requires
                    k < count,
            ;
            lemma_widen_at(start, done, amount as nat);
            assert(exprs@.take(k + 1).last() == exprs@[k as int]);
        }
        let open = exprs[k].0;
        let close = exprs[k].1;
        if let RichToken::ExprOpen { id, reps } = block[open] {
            proof {
                lemma_element_width(block@, open as int);
                block@[open as int].lemma_width();
            }
            block.set(open, RichToken::ExprOpen { id, reps: reps + amount });
            proof {
                lemma_total_width_update(
                    widen_at(start, done, amount as nat),
                    open as int,
                    block@[open as int],
                );
                block@[open as int].lemma_width();
            }
        }
        if let RichToken::ExprClose { id, reps } = block[close] {
            proof {
                lemma_element_width(block@, close as int);
                block@[close as int].lemma_width();
            }
            block.set(close, RichToken::ExprClose { id, reps: reps + amount });
        }
        k += 1;
    }
}

/// Takes up `n` characters, as far as `n` is even, with the listed pairs.
pub fn adjust_exprs_by(block: &mut Vec<RichToken<'_>>, n: usize, exprs: &[(usize, usize)])
    requires
        exprs@.len() > 0,
        all_wf(old(block)@),
        valid_pairs(old(block)@, exprs@),
        total_width(old(block)@) + n <= usize::MAX,
    ensures
        final(block)@ == parentheses_widened(old(block)@, n as nat, exprs@),
{
    // each repetition adds two characters, one on either side
    let iters = n / 2;
    let per = iters / exprs.len();
    let extra = iters % exprs.len();
    let ghost start = block@;
    proof {
        assert(exprs@.take(exprs@.len() as int) =~= exprs@);
        lemma_parentheses_widened(start, n as nat, exprs@);
        assert(2 * exprs@.len() * per <= 2 * (n / 2) && 2 * extra <= 2 * (n / 2)) by {
            assert(2 * exprs@.len() * per >= 0) by (nonlinear_arith)
                requires
                    exprs@.len() >= 0,
                    per >= 0,
            ;
        }
    }
    widen_listed(block, exprs, exprs.len(), per);
    proof {
        lemma_widen_at(start, exprs@, per as nat);
        let first = widen_at(start, exprs@, per as nat);
        assert(valid_pairs(first, exprs@)) by {
            assert forall|k: int| 0 <= k < exprs@.len() implies {
                let pair = #[trigger] exprs@[k];
                &&& pair.0 < first.len()
                &&& pair.1 < first.len()
                &&& first[pair.0 as int] is ExprOpen
                &&& first[pair.1 as int] is ExprClose
            } by {}
        }
    }
    widen_listed(block, exprs, extra, 1);
}

/// Lists the pairs of parentheses of the block.
fn pair_positions(block: &Vec<RichToken<'_>>) -> (exprs: Vec<(usize, usize)>)
    ensures
        exprs@ == matched_pairs(block@),
{
    let mut exprs: Vec<(usize, usize)> = Vec::new();
    let mut i: usize = 0;
    while i < block.len()
        invariant
            i <= block.len(),
            exprs@ == pairs_upto(block@, i as int),
        decreases block.len() - i,
    {
        let ghost found = exprs@;
        if let RichToken::ExprOpen { id, .. } = block[i] {
            let mut j: usize = i + 1;
            proof {
                lemma_row_empty(block@, i as int, j as int);
                assert(found + Seq::<(usize, usize)>::empty() =~= found);
            }
            while j < block.len()
                invariant
                    i < j <= block.len(),
                    block@[i as int] == (RichToken::ExprOpen { id, reps: block@[i as int]->ExprOpen_reps }),
                    exprs@ == found + pairs_in_row(block@, i as int, j as int),
                decreases block.len() - j,
            {
                let ghost row = pairs_in_row(block@, i as int, j as int);
                if let RichToken::ExprClose { id: close_id, .. } = block[j] {
                    if id == close_id {
                        exprs.push((i, j));
                        assert(exprs@ =~= found + row.push((i, j)));
                    }
                }
                j += 1;
            }
        } else {
            proof {
                lemma_row_empty(block@, i as int, block@.len() as int);
                assert(found + Seq::<(usize, usize)>::empty() =~= found);
            }
        }
        i += 1;
    }
    exprs
}

/// Widens the pairs of parentheses of the block by what the block lacks to
/// the width, as far as that is even.
pub fn adjust_exprs(block: &mut Vec<RichToken<'_>>, width: usize)
    requires
        all_wf(old(block)@),
        total_width(old(block)@) <= usize::MAX,
    ensures
        final(block)@ == with_parentheses(old(block)@, width as nat),
{
    let len = block_len(block.as_slice());
    let exprs = pair_positions(block);
    if exprs.len() == 0 {
        return ;
    }
    let diff = if width > len {
        width - len
    } else {
        0
    };
    proof {
        assert(block@.len() == block.len());
        lemma_matched_pairs(block@, block@.len() as int);
    }
    adjust_exprs_by(block, diff, exprs.as_slice());
}

/// The last source token of the block, if it has one.
pub open spec fn last_token<'a>(block: Seq<RichToken<'a>>) -> Option<Token<'a>>
    decreases block.len(),
{
    if block.len() == 0 {
        None
    } else {
        match block.last() {
            RichToken::Token(token) => Some(token.inner),
            _ => last_token(block.drop_last()),
        }
    }
}

/// Whether the last source token of the block is a division sign. A comment
/// must not follow it directly: `/` and `//` would read as another kind of
/// comment.
pub open spec fn ends_with_slash(block: Seq<RichToken<'_>>) -> bool {
    last_token(block) matches Some(token) && token is Slash
}

/// Whether the element is the division sign.
pub fn is_slash(token: &RichToken<'_>) -> (b: bool)
    ensures
        b == (token matches RichToken::Token(inner) && inner.inner is Slash),
{
    if let RichToken::Token(token) = token {
        matches!(token.inner, Token::Slash)
    } else {
        false
    }
}

/// Whether the last source token of the block is the division sign.
pub fn ends_in_slash(block: &[RichToken<'_>]) -> (b: bool)
    ensures
        b == ends_with_slash(block@),
{
    let mut i: usize = block.len();
    proof {
        assert(block@.take(i as int) =~= block@);
    }
    // placeholders and comments are passed over
    while i > 0
        invariant
            i <= block.len(),
            last_token(block@) == last_token(block@.take(i as int)),
        decreases i,
    {
        proof {
            assert(block@.take(i as int).drop_last() =~= block@.take(i - 1));
        }
        if matches!(block[i - 1], RichToken::Token(_)) {
            return is_slash(&block[i - 1]);
        }
        i -= 1;
    }
    false
}

/// A line that is one character short gets a spacer in its middle: pairs
/// of parentheses only take up even amounts.
pub open spec fn with_spacer<'a>(block: Seq<RichToken<'a>>, width: nat) -> Seq<RichToken<'a>> {
    if total_width(block) + 1 == width {
        block.insert(block.len() as int / 2, RichToken::Spacer)
    } else {
        block
    }
}

/// The index of the filler that follows `//` in the closing comment of a
/// line: what the line lacks, less the two characters of `//`, as far as the
/// table reaches.
pub open spec fn comment_filler(block: Seq<RichToken<'_>>, width: nat) -> int {
    let room = width - total_width(block) - 2;
    if room < 0 {
        0
    } else if room > MAX_FILLER {
        MAX_FILLER as int
    } else {
        room
    }
}

/// A line that is still short is closed with a comment, unless its last
/// token is a division sign.
pub open spec fn with_comment<'a>(block: Seq<RichToken<'a>>, width: nat) -> Seq<RichToken<'a>> {
    if total_width(block) < width && !ends_with_slash(block) {
        block.push(RichToken::EndOfLineComment(junk_str(comment_filler(block, width))))
    } else {
        block
    }
}

/// The line brought as close to the width as it can be: without spacers at
/// its ends, with its fillers grown, its parentheses repeated, a spacer in
/// the middle where one character is missing, and a closing comment where
/// more is.
pub open spec fn justified<'a>(block: Seq<RichToken<'a>>, width: nat) -> Seq<RichToken<'a>> {
    with_comment(
        with_spacer(with_parentheses(with_fillers(stripped(block), width), width), width),
        width,
    )
}

/// What stripping leaves is what lies between two indices of the block, and
/// all that it drops is spacers.
pub proof fn lemma_stripped(block: Seq<RichToken<'_>>) -> (range: (int, int))
    ensures
        0 <= range.0 <= range.1 <= block.len(),
        stripped(block) == block.subrange(range.0, range.1),
        forall|i: int|
            0 <= i < range.0 || range.1 <= i < block.len() ==> (#[trigger] block[i]) is Spacer,
{
    let from = lemma_strip_front(block);
    let front = block.skip(from);
    let to = lemma_strip_back(front);
    assert(front.take(to) =~= block.subrange(from, from + to));
    assert forall|i: int| from + to <= i < block.len() implies (#[trigger] block[i]) is Spacer by {
        assert(front[i - from] == block[i]);
    }
    (from, from + to)
}

proof fn lemma_strip_front(block: Seq<RichToken<'_>>) -> (from: int)
    ensures
        0 <= from <= block.len(),
        strip_front(block) == block.skip(from),
        forall|i: int| 0 <= i < from ==> (#[trigger] block[i]) is Spacer,
    decreases block.len(),
{
    if block.len() > 0 && block[0] is Spacer {
        let rest = block.skip(1);
        let from = lemma_strip_front(rest);
        assert(rest.skip(from) =~= block.skip(from + 1));
        assert forall|i: int| 0 <= i < from + 1 implies (#[trigger] block[i]) is Spacer by {
            if i > 0 {
                assert(rest[i - 1] == block[i]);
            }
        }
        from + 1
    } else {
        assert(block.skip(0) =~= block);
        0
    }
}

proof fn lemma_strip_back(block: Seq<RichToken<'_>>) -> (to: int)
    ensures
        0 <= to <= block.len(),
        strip_back(block) == block.take(to),
        forall|i: int| to <= i < block.len() ==> (#[trigger] block[i]) is Spacer,
    decreases block.len(),
{
    if block.len() > 0 && block.last() is Spacer {
        let init = block.drop_last();
        let to = lemma_strip_back(init);
        assert(init.take(to) =~= block.take(to));
        assert forall|i: int| to <= i < block.len() implies (#[trigger] block[i]) is Spacer by {
            if i < init.len() {
                assert(init[i] == block[i]);
            }
        }
        to
    } else {
        assert(block.take(block.len() as int) =~= block);
        block.len() as int
    }
}

/// A part of a block holds only elements of the block and is no wider.
pub proof fn lemma_subrange(block: Seq<RichToken<'_>>, from: int, to: int)
    requires
        0 <= from <= to <= block.len(),
    ensures
        all_wf(block) ==> all_wf(block.subrange(from, to)),
        total_width(block.subrange(from, to)) <= total_width(block),
{
    lemma_total_width_subrange(block, from, to);
    if all_wf(block) {
        assert forall|i: int| 0 <= i < to - from implies (#[trigger] block.subrange(
            from,
            to,
        )[i]).wf() by {
            assert(block.subrange(from, to)[i] == block[from + i]);
        }
    }
}

/// Brings a line as close to `width` as it can be brought.
pub fn adjust_block(block: &mut Vec<RichToken<'_>>, width: usize)
    requires
        width >= 1,
        all_wf(old(block)@),
        total_width(old(block)@) <= usize::MAX,
    ensures
        final(block)@ == justified(old(block)@, width as nat),
        all_wf(final(block)@),
{
    let ghost start = block@;
    // at the edge of a line a spacer separates nothing
    strip_spacers(block);
    proof {
        let range = lemma_stripped(start);
        lemma_subrange(start, range.0, range.1);
    }
    let ghost bare = block@;
    adjust_stmts(block, width);
    proof {
        lemma_with_fillers(bare, width as nat);
    }
    let ghost filled = block@;
    proof {
        assert(filled.len() == block.len());
    }
    adjust_exprs(block, width);
    proof {
        lemma_with_parentheses(filled, width as nat);
    }
    let ghost wrapped = block@;
    // one character short: a space in the middle
    let len = block_len(block.as_slice());
    if len == width - 1 {
        block.insert(block.len() / 2, RichToken::Spacer);
        proof {
            lemma_total_width_insert(wrapped, wrapped.len() as int / 2, RichToken::Spacer);
            RichToken::Spacer.lemma_width();
        }
    }
    // the rest goes into a comment at the end of the line
    let len = block_len(block.as_slice());
    if len < width && !ends_in_slash(block.as_slice()) {
        let room = width - len;
        let text_len = if room >= 2 {
            room - 2
        } else {
            0
        };
        let index = if text_len > MAX_FILLER {
            MAX_FILLER
        } else {
            text_len
        };
        block.push(RichToken::EndOfLineComment(junk(index)));
    }
}

/// The bytes of a line, without its line feed.
pub open spec fn rendered_line(line: Seq<RichToken<'_>>) -> Seq<u8>
    decreases line.len(),
{
    if line.len() == 0 {
        Seq::empty()
    } else {
        rendered_line(line.drop_last()) + encode_utf8(line.last().text())
    }
}

/// The bytes of the lines, each closed by a line feed.
pub open spec fn rendered(lines: Seq<Seq<RichToken<'_>>>) -> Seq<u8>
    decreases lines.len(),
{
    if lines.len() == 0 {
        Seq::empty()
    } else {
        rendered(lines.drop_last()) + rendered_line(lines.last()) + seq![0x0au8]
    }
}

/// The lines that a stream is laid out in: packed, then each line justified.
pub open spec fn layout<'a>(tokens: Seq<RichToken<'a>>, width: nat) -> Seq<Seq<RichToken<'a>>> {
    packed(tokens, width).map_values(|line: Seq<RichToken<'a>>| justified(line, width))
}

/// Whether `part` is what lies between two indices of `whole`.
pub open spec fn is_part_of(part: Seq<RichToken<'_>>, whole: Seq<RichToken<'_>>) -> bool {
    exists|from: int, to: int|
        0 <= from <= to <= whole.len() && part == #[trigger] whole.subrange(from, to)
}

/// Every line of a packed stream is a part of the stream.
pub proof fn lemma_packed_parts(tokens: Seq<RichToken<'_>>, width: nat)
    ensures
        forall|k: int|
            0 <= k < packed(tokens, width).len() ==> is_part_of(
                #[trigger] packed(tokens, width)[k],
                tokens,
            ),
    decreases tokens.len(),
{
    if tokens.len() > 0 {
        let run = run_len(tokens, width, 0) as int;
        lemma_run_len(tokens, width, 0);
        let lines = packed(tokens, width);
        if run < tokens.len() && tokens[run].width() >= width {
            let rest = tokens.skip(run + 1);
            lemma_packed_parts(rest, width);
            assert forall|k: int| 0 <= k < lines.len() implies is_part_of(
                #[trigger] lines[k],
                tokens,
            ) by {
                if k == 0 {
                    assert(lines[0] == tokens.subrange(0, run));
                } else if k == 1 {
                    assert(lines[1] =~= tokens.subrange(run, run + 1));
                } else {
                    let line = packed(rest, width)[k - 2];
                    assert(lines[k] == line);
                    let (from, to) = choose|from: int, to: int|
                        0 <= from <= to <= rest.len() && line == #[trigger] rest.subrange(
                            from,
                            to,
                        );
                    assert(line =~= tokens.subrange(run + 1 + from, run + 1 + to));
                }
            }
        } else {
            let rest = tokens.skip(run);
            lemma_packed_parts(rest, width);
            assert forall|k: int| 0 <= k < lines.len() implies is_part_of(
                #[trigger] lines[k],
                tokens,
            ) by {
                if k == 0 {
                    assert(lines[0] == tokens.subrange(0, run));
                } else {
                    let line = packed(rest, width)[k - 1];
                    assert(lines[k] == line);
                    let (from, to) = choose|from: int, to: int|
                        0 <= from <= to <= rest.len() && line == #[trigger] rest.subrange(
                            from,
                            to,
                        );
                    assert(line =~= tokens.subrange(run + from, run + to));
                }
            }
        }
    }
}

/// Appends the bytes of a line and a line feed to `writer`.
pub fn render_line(writer: &mut Vec<u8>, line: &[RichToken<'_>])
    requires
        all_wf(line@),
    ensures
        final(writer)@ == old(writer)@ + rendered_line(line@) + seq![0x0au8],
{
    let ghost start = writer@;
    let mut i: usize = 0;
    proof {
        assert(start + rendered_line(line@.take(0)) =~= start);
    }
    while i < line.len()
        invariant
            i <= line.len(),
            all_wf(line@),
            writer@ == start + rendered_line(line@.take(i as int)),
        decreases line.len() - i,
    {
        proof {
            assert(line@.take(i + 1).drop_last() =~= line@.take(i as int));
        }
        let ghost sofar = writer@;
        let mut bytes = line[i].as_bytes();
        writer.append(&mut bytes);
        proof {
            assert(writer@ =~= start + rendered_line(line@.take(i + 1)));
        }
        i += 1;
    }
    proof {
        assert(line@.take(i as int) =~= line@);
    }
    writer.push(0x0a);
    proof {
        assert(writer@ =~= start + rendered_line(line@) + seq![0x0au8]);
    }
}

/// Lays the stream out in lines of `width` characters and appends them to
/// `writer`, each line closed by a line feed.
///
/// Only a line that holds one element as wide as `width`, or wider, is
/// longer than `width`.
pub fn block(writer: &mut Vec<u8>, ir: &Ir<'_>, width: usize)
    requires
        width >= 1,
        all_wf(ir@),
        total_width(ir@) <= usize::MAX,
    ensures
        final(writer)@ == old(writer)@ + rendered(layout(ir@, width as nat)),
{
    let ghost start = writer@;
    let ghost lines = layout(ir@, width as nat);
    let blocks = pack(ir.tokens(), width);
    proof {
        lemma_packed_parts(ir@, width as nat);
        assert(start + rendered(lines.take(0)) =~= start);
    }
    let mut k: usize = 0;
    while k < blocks.len()
        invariant
            k <= blocks.len(),
            width >= 1,
            all_wf(ir@),
            total_width(ir@) <= usize::MAX,
            line_views(blocks@) == packed(ir@, width as nat),
            lines == layout(ir@, width as nat),
            forall|j: int|
                0 <= j < packed(ir@, width as nat).len() ==> is_part_of(
                    #[trigger] packed(ir@, width as nat)[j],
                    ir@,
                ),
            writer@ == start + rendered(lines.take(k as int)),
        decreases blocks.len() - k,
    {
        let ghost packed_line = packed(ir@, width as nat)[k as int];
        proof {
            assert(line_views(blocks@)[k as int] == blocks@[k as int]@);
            assert(is_part_of(packed_line, ir@));
            let (from, to) = choose|from: int, to: int|
                0 <= from <= to <= ir@.len() && packed_line == #[trigger] ir@.subrange(from, to);
            lemma_subrange(ir@, from, to);
        }
        // bring the line as close to the width as it can be brought
        let mut line = copy_range(blocks[k].as_slice(), 0, blocks[k].len());
        proof {
            assert(line@ =~= packed_line);
        }
        adjust_block(&mut line, width);
        let ghost sofar = writer@;
        render_line(writer, line.as_slice());
        proof {
            assert(lines.take(k + 1).drop_last() =~= lines.take(k as int));
            assert(lines.take(k + 1).last() == justified(packed_line, width as nat));
            assert(writer@ =~= start + rendered(lines.take(k + 1)));
        }
        k += 1;
    }
    proof {
        assert(lines.take(k as int) =~= lines);
    }
}

} // verus!
