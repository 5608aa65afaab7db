//! The intermediate representation: the tokens of a file together with the
//! spacers that keep them apart and the placeholders that can be widened.

use vstd::prelude::*;
use vstd::string::{StrSliceExecFns, StringExecFns};
use vstd::utf8::encode_utf8;
use crate::junk::{junk, junk_text, lemma_junk_len, JUNK_COUNT};
use crate::lex::{Spanned, Token};
use crate::location::Event;

verus! {

/// One element of the intermediate representation.
#[derive(Debug, Copy, Clone, PartialEq, Eq)]
pub enum RichToken<'a> {
    /// A filler at statement position: an index into the table of fillers.
    Junk(usize),
    /// A space that keeps two tokens from fusing into another token.
    Spacer,
    /// A token of the source.
    Token(Spanned<Token<'a>>),
    /// A comment that runs to the end of the line.
    EndOfLineComment(&'static str),
    /// `reps` opening parentheses in front of the expression `id`.
    ExprOpen { id: usize, reps: usize },
    /// `reps` closing parentheses behind the expression `id`.
    ExprClose { id: usize, reps: usize },
}

impl<'a> From<Spanned<Token<'a>>> for RichToken<'a> {
    fn from(value: Spanned<Token<'a>>) -> (token: Self) {
        RichToken::Token(value)
    }
}

impl<'a> vstd::std_specs::convert::FromSpecImpl<Spanned<Token<'a>>> for RichToken<'a> {
    open spec fn obeys_from_spec() -> bool {
        true
    }

    open spec fn from_spec(value: Spanned<Token<'a>>) -> Self {
        RichToken::Token(value)
    }
}

/// `n` copies of the character `c`.
pub open spec fn repeated(c: char, n: nat) -> Seq<char> {
    Seq::new(n, |i: int| c)
}

impl<'a> RichToken<'a> {
    /// A filler must name an entry of the table.
    pub open spec fn wf(self) -> bool {
        self matches RichToken::Junk(n) ==> n < JUNK_COUNT
    }

    /// The text that this element is rendered as.
    pub open spec fn text(self) -> Seq<char> {
        match self {
            RichToken::Junk(n) => junk_text(n as int),
            RichToken::Spacer => " "@,
            RichToken::Token(token) => token.inner.text(),
            RichToken::EndOfLineComment(c) => "//"@ + c@,
            RichToken::ExprOpen { reps, .. } => repeated('(', reps as nat),
            RichToken::ExprClose { reps, .. } => repeated(')', reps as nat),
        }
    }

    /// The number of characters that this element takes up on its line.
    pub open spec fn width(self) -> nat {
        self.text().len()
    }

    /// The width of each kind of element.
    pub proof fn lemma_width(self)
        requires
            self.wf(),
        ensures
            self.width() == match self {
                RichToken::Junk(n) => n as nat,
                RichToken::Spacer => 1,
                RichToken::Token(token) => token.inner.text().len(),
                RichToken::EndOfLineComment(c) => 2 + c@.len(),
                RichToken::ExprOpen { reps, .. } => reps as nat,
                RichToken::ExprClose { reps, .. } => reps as nat,
            },
    {
        reveal_strlit(" ");
        reveal_strlit("//");
        if let RichToken::Junk(n) = self {
            lemma_junk_len(n as int);
        }
    }

    pub fn as_str(&self) -> (s: String)
        requires
            self.wf(),
        ensures
            s@ == self.text(),
    {
        proof {
            reveal_strlit("(");
            reveal_strlit(")");
            assert("("@ =~= seq!['(']);
            assert(")"@ =~= seq![')']);
        }
        match self {
            RichToken::Junk(n) => String::from_str(junk(*n)),
            RichToken::Spacer => String::from_str(" "),
            RichToken::Token(token) => String::from_str(token.inner.as_str()),
            RichToken::EndOfLineComment(c) => String::from_str("//").concat(c),
            RichToken::ExprOpen { reps, .. } => repeat_char("(", '(', *reps),
            RichToken::ExprClose { reps, .. } => repeat_char(")", ')', *reps),
        }
    }

    pub fn as_bytes(&self) -> (bytes: Vec<u8>)
        requires
            self.wf(),
        ensures
            bytes@ == encode_utf8(self.text()),
    {
        self.as_str().as_str().as_bytes_vec()
    }

    /// The number of characters of the rendered element.
    #[allow(clippy::len_without_is_empty)]
    pub fn len(&self) -> (n: usize)
        requires
            self.wf(),
        ensures
            n == self.width(),
    {
        proof {
            self.lemma_width();
        }
        match self {
            RichToken::Junk(n) => *n,
            RichToken::Spacer => 1,
            RichToken::Token(token) => token.inner.as_str().unicode_len(),
            RichToken::EndOfLineComment(_) => self.as_str().as_str().unicode_len(),
            RichToken::ExprOpen { reps, .. } => *reps,
            RichToken::ExprClose { reps, .. } => *reps,
        }
    }
}

/// A string of `reps` copies of the one-character string `piece`.
fn repeat_char(piece: &str, c: char, reps: usize) -> (s: String)
    requires
        piece@ == seq![c],
    ensures
        s@ == repeated(c, reps as nat),
{
    let mut s = String::new();
    let mut i: usize = 0;
    while i < reps
        invariant
            i <= reps,
            piece@ == seq![c],
            s@ == repeated(c, i as nat),
        decreases reps - i,
    {
        s.append(piece);
        i += 1;
        assert(s@ =~= repeated(c, i as nat));
    }
    s
}

/// Whether `next` printed directly behind `prev` would read as another
/// token, or as the start of a comment. The list is closed.
pub open spec fn fuses(prev: Token<'_>, next: Token<'_>) -> bool {
    ||| prev is Colon && next is PathSeparator
    ||| prev is Slash && next is Star
    ||| prev is LessThan && next is Minus
    ||| prev is Range && next is FatArrow
    ||| prev is LessThan && next is LessThan
    ||| (prev is GreatherThan || prev is Plus || prev is Star || prev is Question)
        && next is FatArrow
    ||| prev.kind().is_textual() && (next.kind().is_textual() || next is Pound)
}

/// Decides whether a spacer has to stand between two consecutive tokens.
pub fn needs_spacer(prev: &Token<'_>, next: &Token<'_>) -> (b: bool)
    ensures
        b == fuses(*prev, *next),
{
    match (prev, next) {
        // `x: ::std` must not become `x:::std`
        (Token::Colon, Token::PathSeparator) => true,
        // `/` and `*` would open a block comment
        (Token::Slash, Token::Star) => true,
        // `< -1` must not become `<-1`
        (Token::LessThan, Token::Minus) => true,
        // `..` and `=>` would read as `..=` and `>`
        (Token::Range, Token::FatArrow) => true,
        // the remaining pairs can meet inside a macro
        (Token::LessThan, Token::LessThan) => true,
        (Token::GreatherThan | Token::Plus | Token::Star | Token::Question, Token::FatArrow) => true,
        // two words would read as one, and a word before `#` as the prefix
        // of a literal
        (
            Token::Ident(_) | Token::RawIdent(_) | Token::Literal(_) | Token::Lifetime(_),
            Token::Ident(_) | Token::RawIdent(_) | Token::Literal(_) | Token::Lifetime(_)
            | Token::Pound,
        ) => true,
        (_, _) => false,
    }
}

/// The tokens in order, with a spacer in front of every token that would
/// fuse with the one before it.
pub open spec fn fusion_safe<'a>(tokens: Seq<Spanned<Token<'a>>>) -> Seq<RichToken<'a>>
    decreases tokens.len(),
{
    if tokens.len() == 0 {
        Seq::empty()
    } else {
        let init = fusion_safe(tokens.drop_last());
        let last = tokens.last();
        if tokens.len() >= 2 && fuses(tokens[tokens.len() - 2].inner, last.inner) {
            init.push(RichToken::Spacer).push(RichToken::Token(last))
        } else {
            init.push(RichToken::Token(last))
        }
    }
}

/// The tokens and spacers of a stream, in order, without its placeholders
/// and comments.
pub open spec fn skeleton<'a>(stream: Seq<RichToken<'a>>) -> Seq<RichToken<'a>>
    decreases stream.len(),
{
    if stream.len() == 0 {
        Seq::empty()
    } else {
        let init = skeleton(stream.drop_last());
        let last = stream.last();
        if last is Token || last is Spacer {
            init.push(last)
        } else {
            init
        }
    }
}

/// The source tokens of a stream, in order.
pub open spec fn source_tokens<'a>(stream: Seq<RichToken<'a>>) -> Seq<Spanned<Token<'a>>>
    decreases stream.len(),
{
    if stream.len() == 0 {
        Seq::empty()
    } else {
        let init = source_tokens(stream.drop_last());
        match stream.last() {
            RichToken::Token(token) => init.push(token),
            _ => init,
        }
    }
}

/// No two tokens that would fuse stand side by side in the stream.
pub open spec fn separated(stream: Seq<RichToken<'_>>) -> bool {
    forall|i: int|
        0 <= i && i + 1 < stream.len() ==> !(#[trigger] stream[i] matches RichToken::Token(a)
            && stream[i + 1] matches RichToken::Token(b) && fuses(a.inner, b.inner))
}

/// Where lexing left the event queue while the stream is merged with it.
pub struct Cursor {
    /// Index of the first event that has not been consumed.
    pub next: int,
    /// The id that the next opened expression gets.
    pub next_id: int,
    /// The ids of the expressions that are open, innermost last.
    pub open: Seq<usize>,
}

impl Cursor {
    /// Nothing consumed, nothing open.
    pub open spec fn start() -> Cursor {
        Cursor { next: 0, next_id: 0, open: Seq::empty() }
    }
}

/// The placeholders that go before and after one token.
pub struct Markers<'a> {
    pub before: Seq<RichToken<'a>>,
    pub after: Seq<RichToken<'a>>,
    pub cursor: Cursor,
}

/// Consumes, from the front of the queue, every event that is aligned with
/// the token `at`, adding to the placeholders collected so far. A statement
/// start puts an empty filler before the token and a statement end one after
/// it; an expression start opens a fresh id before the token and an
/// expression end closes the innermost open id after it.
pub open spec fn markers<'a>(
    events: Seq<Spanned<Event>>,
    at: Spanned<Token<'a>>,
    sofar: Markers<'a>,
) -> Markers<'a>
    decreases events.len() - sofar.cursor.next,
{
    let cursor = sofar.cursor;
    if 0 <= cursor.next < events.len() && events[cursor.next].aligned(at) {
        match events[cursor.next].inner {
            Event::StatementStart => markers(
                events,
                at,
                Markers {
                    before: sofar.before.push(RichToken::Junk(0)),
                    after: sofar.after,
                    cursor: Cursor { next: cursor.next + 1, ..cursor },
                },
            ),
            Event::StatementEnd => markers(
                events,
                at,
                Markers {
                    before: sofar.before,
                    after: sofar.after.push(RichToken::Junk(0)),
                    cursor: Cursor { next: cursor.next + 1, ..cursor },
                },
            ),
            Event::ExprOpen => markers(
                events,
                at,
                Markers {
                    before: sofar.before.push(
                        RichToken::ExprOpen { id: cursor.next_id as usize, reps: 0 },
                    ),
                    after: sofar.after,
                    cursor: Cursor {
                        next: cursor.next + 1,
                        next_id: cursor.next_id + 1,
                        open: cursor.open.push(cursor.next_id as usize),
                    },
                },
            ),
            Event::ExprClose => markers(
                events,
                at,
                Markers {
                    before: sofar.before,
                    after: sofar.after.push(
                        RichToken::ExprClose { id: cursor.open.last(), reps: 0 },
                    ),
                    cursor: Cursor {
                        next: cursor.next + 1,
                        next_id: cursor.next_id,
                        open: cursor.open.drop_last(),
                    },
                },
            ),
        }
    } else {
        sofar
    }
}

/// The stream from index `from` on, merged with the event queue and added
/// to `out`: every token is surrounded by the placeholders of the events
/// aligned with it, everything else is kept as it is.
pub open spec fn merged<'a>(
    stream: Seq<RichToken<'a>>,
    from: int,
    events: Seq<Spanned<Event>>,
    cursor: Cursor,
    out: Seq<RichToken<'a>>,
) -> Seq<RichToken<'a>>
    decreases stream.len() - from,
{
    if from < 0 || from >= stream.len() {
        out
    } else {
        match stream[from] {
            RichToken::Token(token) => {
                let m = markers(
                    events,
                    token,
                    Markers { before: Seq::empty(), after: Seq::empty(), cursor },
                );
                merged(
                    stream,
                    from + 1,
                    events,
                    m.cursor,
                    out + m.before + seq![stream[from]] + m.after,
                )
            },
            other => merged(stream, from + 1, events, cursor, out.push(other)),
        }
    }
}

/// Some token of the stream starts where the event lies.
pub open spec fn aligned_somewhere(stream: Seq<RichToken<'_>>, event: Spanned<Event>) -> bool {
    exists|i: int|
        0 <= i < stream.len() && (#[trigger] stream[i] matches RichToken::Token(token)
            && event.aligned(token))
}

/// Every event lies at the start of some token of the stream.
pub open spec fn all_aligned(stream: Seq<RichToken<'_>>, events: Seq<Spanned<Event>>) -> bool {
    forall|k: int| 0 <= k < events.len() ==> aligned_somewhere(stream, #[trigger] events[k])
}

/// Statement starts and ends.
pub open spec fn is_statement(event: Event) -> bool {
    event is StatementStart || event is StatementEnd
}

/// The statement events among `events`, in order.
pub open spec fn statements_only(events: Seq<Spanned<Event>>) -> Seq<Spanned<Event>>
    decreases events.len(),
{
    if events.len() == 0 {
        Seq::empty()
    } else {
        let init = statements_only(events.drop_last());
        if is_statement(events.last().inner) {
            init.push(events.last())
        } else {
            init
        }
    }
}

/// Expressions opened minus expressions closed.
pub open spec fn depth(events: Seq<Spanned<Event>>) -> int
    decreases events.len(),
{
    if events.len() == 0 {
        0
    } else {
        depth(events.drop_last()) + match events.last().inner {
            Event::ExprOpen => 1int,
            Event::ExprClose => -1int,
            _ => 0int,
        }
    }
}

/// No expression is closed before it was opened.
pub open spec fn well_nested(events: Seq<Spanned<Event>>) -> bool {
    forall|k: int| 0 <= k <= events.len() ==> depth(#[trigger] events.take(k)) >= 0
}

/// The stream with the events materialized. Where some event lies at no
/// token, the expression events are given up and only the statement events
/// are merged.
pub open spec fn populated<'a>(
    stream: Seq<RichToken<'a>>,
    events: Seq<Spanned<Event>>,
) -> Seq<RichToken<'a>> {
    if all_aligned(stream, events) {
        merged(stream, 0, events, Cursor::start(), Seq::empty())
    } else {
        merged(stream, 0, statements_only(events), Cursor::start(), Seq::empty())
    }
}

/// A sequence of statement events opens and closes nothing.
proof fn lemma_statements_depth(events: Seq<Spanned<Event>>)
    requires
        forall|i: int| 0 <= i < events.len() ==> is_statement(#[trigger] events[i].inner),
    ensures
        depth(events) == 0,
    decreases events.len(),
{
    if events.len() > 0 {
        lemma_statements_depth(events.drop_last());
    }
}

/// Only statement events are left by [`statements_only`].
proof fn lemma_statements_only(events: Seq<Spanned<Event>>)
    ensures
        forall|i: int|
            0 <= i < statements_only(events).len() ==> is_statement(
                #[trigger] statements_only(events)[i].inner,
            ),
    decreases events.len(),
{
    if events.len() > 0 {
        lemma_statements_only(events.drop_last());
        let init = statements_only(events.drop_last());
        assert forall|i: int| 0 <= i < statements_only(events).len() implies is_statement(
            #[trigger] statements_only(events)[i].inner,
        ) by {
            if i < init.len() {
                assert(statements_only(events)[i] == init[i]);
            }
        }
    }
}

/// Statement events alone are always well nested.
pub proof fn lemma_statements_only_well_nested(events: Seq<Spanned<Event>>)
    ensures
        well_nested(statements_only(events)),
{
    let s = statements_only(events);
    lemma_statements_only(events);
    assert forall|k: int| 0 <= k <= s.len() implies depth(#[trigger] s.take(k)) >= 0 by {
        lemma_statements_depth(s.take(k));
    }
}

/// The whole file before it is split into lines.
#[derive(Debug)]
pub struct Ir<'a> {
    tokens: Vec<RichToken<'a>>,
}

impl<'a> View for Ir<'a> {
    type V = Seq<RichToken<'a>>;

    closed spec fn view(&self) -> Seq<RichToken<'a>> {
        self.tokens@
    }
}

impl<'a> Ir<'a> {
    /// Builds the stream of a file from its tokens, with a spacer wherever
    /// two neighbours would fuse.
    pub fn new(tokens: Vec<Spanned<Token<'a>>>) -> (ir: Self)
        ensures
            ir@ == fusion_safe(tokens@),
    {
        let mut rts: Vec<RichToken<'a>> = Vec::new();
        // nothing fuses with a semicolon
        let mut last: Token<'a> = Token::Semi;
        let mut i: usize = 0;
        while i < tokens.len()
            invariant
                i <= tokens.len(),
                rts@ == fusion_safe(tokens@.take(i as int)),
                last == (if i == 0 {
                    Token::Semi
                } else {
                    tokens@[i - 1].inner
                }),
            decreases tokens.len() - i,
        {
            let token = tokens[i];
            proof {
                assert(tokens@.take(i + 1).drop_last() =~= tokens@.take(i as int));
            }
            if needs_spacer(&last, &token.inner) {
                rts.push(RichToken::Spacer);
            }
            rts.push(RichToken::Token(token));
            last = token.inner;
            i += 1;
        }
        proof {
            assert(tokens@.take(i as int) =~= tokens@);
        }
        Self { tokens: rts }
    }

    /// Whether some token of the stream starts where `event` lies.
    fn has_token_at(&self, event: &Spanned<Event>) -> (found: bool)
        ensures
            found == aligned_somewhere(self@, *event),
    {
        let mut i: usize = 0;
        while i < self.tokens.len()
            invariant
                i <= self.tokens.len(),
                forall|j: int|
                    0 <= j < i ==> !(#[trigger] self.tokens@[j] matches RichToken::Token(token)
                        && event.aligned(token)),
            decreases self.tokens.len() - i,
        {
            if let RichToken::Token(token) = &self.tokens[i] {
                if event.aligns_with(token) {
                    return true;
                }
            }
            i += 1;
        }
        false
    }

    /// Whether every event lies at the start of some token.
    fn events_aligned(&self, events: &[Spanned<Event>]) -> (b: bool)
        ensures
            b == all_aligned(self@, events@),
    {
        let mut k: usize = 0;
        while k < events.len()
            invariant
                k <= events.len(),
                forall|j: int| 0 <= j < k ==> aligned_somewhere(self@, #[trigger] events@[j]),
            decreases events.len() - k,
        {
            if !self.has_token_at(&events[k]) {
                return false;
            }
            k += 1;
        }
        true
    }

    /// Merges the stream with a queue of events.
    fn merge(&self, events: &[Spanned<Event>]) -> (ir: Ir<'a>)
        requires
            well_nested(events@),
        ensures
            ir@ == merged(self@, 0, events@, Cursor::start(), Seq::empty()),
    {
        let mut out: Vec<RichToken<'a>> = Vec::new();
        let mut next_id: usize = 0;
        let mut expr_starts: Vec<usize> = Vec::new();
        let mut q: usize = 0;
        let mut i: usize = 0;
        while i < self.tokens.len()
            invariant
                i <= self.tokens.len(),
                q <= events.len(),
                next_id <= q,
                well_nested(events@),
                expr_starts@.len() == depth(events@.take(q as int)),
                merged(self@, 0, events@, Cursor::start(), Seq::empty()) == merged(
                    self@,
                    i as int,
                    events@,
                    Cursor { next: q as int, next_id: next_id as int, open: expr_starts@ },
                    out@,
                ),
            decreases self.tokens.len() - i,
        {
            let token = self.tokens[i];
            match token {
                RichToken::Token(inner) => {
                    let mut befores: Vec<RichToken<'a>> = Vec::new();
                    let mut afters: Vec<RichToken<'a>> = Vec::new();
                    let ghost begin = Cursor {
                        next: q as int,
                        next_id: next_id as int,
                        open: expr_starts@,
                    };
                    let ghost empty = Markers {
                        before: Seq::empty(),
                        after: Seq::empty(),
                        cursor: begin,
                    };
                    while q < events.len() && events[q].aligns_with(&inner)
                        invariant
                            q <= events.len(),
                            next_id <= q,
                            well_nested(events@),
                            expr_starts@.len() == depth(events@.take(q as int)),
                            markers(events@, inner, empty) == markers(
                                events@,
                                inner,
                                Markers {
                                    before: befores@,
                                    after: afters@,
                                    cursor: Cursor {
                                        next: q as int,
                                        next_id: next_id as int,
                                        open: expr_starts@,
                                    },
                                },
                            ),
                        decreases events.len() - q,
                    {
                        proof {
                            assert(events@.take(q + 1).drop_last() =~= events@.take(q as int));
                        }
                        match events[q].inner {
                            Event::StatementStart => {
                                befores.push(RichToken::Junk(0));
                            },
                            Event::StatementEnd => {
                                afters.push(RichToken::Junk(0));
                            },
                            Event::ExprOpen => {
                                let id = next_id;
                                befores.push(RichToken::ExprOpen { id, reps: 0 });
                                expr_starts.push(id);
                                next_id += 1;
                            },
                            Event::ExprClose => {
                                // the events are well nested, so an
                                // expression is open here
                                let id = expr_starts.pop().unwrap();
                                afters.push(RichToken::ExprClose { id, reps: 0 });
                            },
                        }
                        q += 1;
                    }
                    let ghost found = Markers {
                        before: befores@,
                        after: afters@,
                        cursor: Cursor {
                            next: q as int,
                            next_id: next_id as int,
                            open: expr_starts@,
                        },
                    };
                    let ghost sofar = out@;
                    assert(markers(events@, inner, empty) == found);
                    out.append(&mut befores);
                    out.push(token);
                    out.append(&mut afters);
                    assert(out@ =~= sofar + found.before + seq![self@[i as int]] + found.after);
                },
                _ => {
                    out.push(token);
                },
            }
            i += 1;
        }
        Ir { tokens: out }
    }

    /// The statement events among `events`.
    fn statement_events(events: &[Spanned<Event>]) -> (kept: Vec<Spanned<Event>>)
        ensures
            kept@ == statements_only(events@),
    {
        let mut kept: Vec<Spanned<Event>> = Vec::new();
        let mut k: usize = 0;
        while k < events.len()
            invariant
                k <= events.len(),
                kept@ == statements_only(events@.take(k as int)),
            decreases events.len() - k,
        {
            proof {
                assert(events@.take(k + 1).drop_last() =~= events@.take(k as int));
            }
            let event = events[k];
            if matches!(event.inner, Event::StatementStart | Event::StatementEnd) {
                kept.push(event);
            }
            k += 1;
        }
        proof {
            assert(events@.take(k as int) =~= events@);
        }
        kept
    }

    /// Adds the fillers and the parentheses of the events to the stream.
    ///
    /// An event that lies at no token shows that the positions of the
    /// expressions cannot be trusted: the expression events are then given up
    /// and only the statement events are merged.
    pub fn populate_events(&self, events: &[Spanned<Event>]) -> (ir: Ir<'a>)
        requires
            well_nested(events@),
        ensures
            ir@ == populated(self@, events@),
    {
        if self.events_aligned(events) {
            self.merge(events)
        } else {
            let statements = Self::statement_events(events);
            proof {
                lemma_statements_only_well_nested(events@);
            }
            self.merge(statements.as_slice())
        }
    }

    pub fn tokens(&self) -> (tokens: &[RichToken<'a>])
        ensures
            tokens@ == self@,
    {
        self.tokens.as_slice()
    }
}

} // verus!
