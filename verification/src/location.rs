//! Insertion points: the places in a source file where filler may be put
//! without changing what the program means.
//!
//! The syntax tree is held as a tree of statements and expressions, each
//! with its kind and the positions of its first and last token. Walking the
//! tree in source order gives the events that the stream of tokens is merged
//! with.

use vstd::prelude::*;
use crate::ir::{depth, well_nested};
use crate::lex::Spanned;

verus! {

/// A marker at the position of a token. Statement events bound a statement
/// that ends with a separator; expression events bound an expression that
/// may be wrapped in parentheses.
#[derive(Debug, PartialEq, Eq, Clone, Copy, Structural)]
pub enum Event {
    StatementStart,
    StatementEnd,
    ExprOpen,
    ExprClose,
}

/// The position at which a token starts: line and column, both from 1.
#[derive(Debug, PartialEq, Eq, Clone, Copy, Structural)]
pub struct TokenStart {
    pub line: usize,
    pub char: usize,
}

impl TokenStart {
    /// The start of a token from a line counted from 1 and a column counted
    /// from 0, which is how syntax trees report positions.
    pub fn new(line: usize, column: usize) -> (start: Self)
        requires
            column < usize::MAX,
        ensures
            start.line == line,
            start.char == column + 1,
    {
        Self { line, char: column + 1 }
    }
}

/// The kinds of statements.
#[derive(Debug, PartialEq, Eq, Clone, Copy, Structural)]
pub enum StmtKind {
    /// A `let` binding.
    Local,
    /// An item declared among statements.
    Item,
    /// An expression, with or without a semicolon behind it.
    Expr { semi: bool },
    /// A macro invocation in statement position, with or without a
    /// semicolon behind it.
    Macro { semi: bool },
}

impl StmtKind {
    /// A statement can be followed and preceded by filler when it ends with
    /// a separator: every statement but a trailing expression or macro
    /// without a semicolon.
    pub open spec fn separated(self) -> bool {
        match self {
            StmtKind::Expr { semi } => semi,
            StmtKind::Macro { semi } => semi,
            _ => true,
        }
    }

    pub fn has_separator(&self) -> (b: bool)
        ensures
            b == self.separated(),
    {
        match self {
            StmtKind::Expr { semi } => *semi,
            StmtKind::Macro { semi } => *semi,
            StmtKind::Local | StmtKind::Item => true,
        }
    }
}

/// The kinds of expressions.
#[derive(Debug, PartialEq, Eq, Clone, Copy, Structural)]
pub enum ExprKind {
    Array,
    Assign,
    Async,
    Await,
    Binary,
    Block,
    Break,
    Call,
    Cast,
    Closure,
    Const,
    Continue,
    Field,
    ForLoop,
    Group,
    If,
    Index,
    Infer,
    Let,
    Lit,
    Loop,
    Macro,
    Match,
    MethodCall,
    Paren,
    Path,
    Range,
    Reference,
    Repeat,
    Return,
    Struct,
    Try,
    TryBlock,
    Tuple,
    Unary,
    Unsafe,
    Verbatim,
    While,
    Yield,
}

impl ExprKind {
    /// The expressions that keep their value inside one more pair of
    /// parentheses.
    ///
    /// Left out are paths (a field given by its name alone in a struct
    /// literal is a path, and is no longer one in parentheses), blocks and
    /// groups, ranges and field accesses (whose dots do not lie where their
    /// positions say), and the control constructs.
    pub open spec fn wrappable(self) -> bool {
        match self {
            ExprKind::Array
            | ExprKind::Assign
            | ExprKind::Await
            | ExprKind::Binary
            | ExprKind::Break
            | ExprKind::Call
            | ExprKind::Cast
            | ExprKind::Closure
            | ExprKind::Continue
            | ExprKind::Index
            | ExprKind::Infer
            | ExprKind::Lit
            | ExprKind::Macro
            | ExprKind::MethodCall
            | ExprKind::Paren
            | ExprKind::Reference
            | ExprKind::Repeat
            | ExprKind::Return
            | ExprKind::Struct
            | ExprKind::Try
            | ExprKind::Tuple
            | ExprKind::Unary
            | ExprKind::Yield => true,
            ExprKind::Path
            | ExprKind::Block
            | ExprKind::Group
            | ExprKind::Range
            | ExprKind::Field
            | ExprKind::Verbatim
            | ExprKind::Match
            | ExprKind::Let
            | ExprKind::Async
            | ExprKind::Const
            | ExprKind::ForLoop
            | ExprKind::If
            | ExprKind::Loop
            | ExprKind::TryBlock
            | ExprKind::Unsafe
            | ExprKind::While => false,
        }
    }

    pub fn wraps(&self) -> (b: bool)
        ensures
            b == self.wrappable(),
    {
        match self {
            ExprKind::Array
            | ExprKind::Assign
            | ExprKind::Await
            | ExprKind::Binary
            | ExprKind::Break
            | ExprKind::Call
            | ExprKind::Cast
            | ExprKind::Closure
            | ExprKind::Continue
            | ExprKind::Index
            | ExprKind::Infer
            | ExprKind::Lit
            | ExprKind::Macro
            | ExprKind::MethodCall
            | ExprKind::Paren
            | ExprKind::Reference
            | ExprKind::Repeat
            | ExprKind::Return
            | ExprKind::Struct
            | ExprKind::Try
            | ExprKind::Tuple
            | ExprKind::Unary
            | ExprKind::Yield => true,
            ExprKind::Path
            | ExprKind::Block
            | ExprKind::Group
            | ExprKind::Range
            | ExprKind::Field
            | ExprKind::Verbatim
            | ExprKind::Match
            | ExprKind::Let
            | ExprKind::Async
            | ExprKind::Const
            | ExprKind::ForLoop
            | ExprKind::If
            | ExprKind::Loop
            | ExprKind::TryBlock
            | ExprKind::Unsafe
            | ExprKind::While => false,
        }
    }
}

/// What a node of the tree is.
#[derive(Debug, PartialEq, Eq, Clone, Copy, Structural)]
pub enum NodeKind {
    Stmt(StmtKind),
    Expr(ExprKind),
}

/// A statement or an expression, with the positions of its first and its
/// last token and with the statements and expressions directly inside it,
/// in source order. What lies inside a macro invocation is not part of the
/// tree.
#[derive(Debug)]
pub struct Node {
    pub kind: NodeKind,
    pub start: TokenStart,
    pub end: TokenStart,
    pub children: Vec<Node>,
}

/// The events that bound a statement.
pub fn stmt_endpoints(start: TokenStart, end: TokenStart) -> (ends: (
    Spanned<Event>,
    Spanned<Event>,
))
    ensures
        ends.0 == (Spanned { inner: Event::StatementStart, line: start.line, char: start.char }),
        ends.1 == (Spanned { inner: Event::StatementEnd, line: end.line, char: end.char }),
{
    (
        Spanned::new(Event::StatementStart, start.line, start.char),
        Spanned::new(Event::StatementEnd, end.line, end.char),
    )
}

/// The events that bound an expression.
pub fn expr_endpoints(start: TokenStart, end: TokenStart) -> (ends: (
    Spanned<Event>,
    Spanned<Event>,
))
    ensures
        ends.0 == (Spanned { inner: Event::ExprOpen, line: start.line, char: start.char }),
        ends.1 == (Spanned { inner: Event::ExprClose, line: end.line, char: end.char }),
{
    (
        Spanned::new(Event::ExprOpen, start.line, start.char),
        Spanned::new(Event::ExprClose, end.line, end.char),
    )
}

impl Node {
    /// Whether the node gets a pair of events. A statement does when it
    /// ends with a separator. An expression does when its kind can be
    /// wrapped; a literal that starts in the first column is left alone,
    /// because a documentation comment shows up in the tree as such a
    /// literal.
    pub open spec fn marked(self) -> bool {
        match self.kind {
            NodeKind::Stmt(kind) => kind.separated(),
            NodeKind::Expr(kind) => kind.wrappable() && !(kind is Lit && self.start.char == 1),
        }
    }

    /// The event at the first token of a marked node.
    pub open spec fn opening(self) -> Spanned<Event> {
        Spanned {
            inner: match self.kind {
                NodeKind::Stmt(_) => Event::StatementStart,
                NodeKind::Expr(_) => Event::ExprOpen,
            },
            line: self.start.line,
            char: self.start.char,
        }
    }

    /// The event at the last token of a marked node.
    pub open spec fn closing(self) -> Spanned<Event> {
        Spanned {
            inner: match self.kind {
                NodeKind::Stmt(_) => Event::StatementEnd,
                NodeKind::Expr(_) => Event::ExprClose,
            },
            line: self.end.line,
            char: self.end.char,
        }
    }

    /// The events of the node and of everything inside it, in source order:
    /// the events of the children between the two events of the node itself,
    /// where it has them.
    pub open spec fn events(self) -> Seq<Spanned<Event>>
        decreases self, self.children@.len() + 1,
    {
        let inside = self.events_inside(self.children@.len() as int);
        if self.marked() {
            seq![self.opening()] + inside + seq![self.closing()]
        } else {
            inside
        }
    }

    /// The events of the first `upto` children of the node.
    pub open spec fn events_inside(self, upto: int) -> Seq<Spanned<Event>>
        decreases self, upto,
    {
        if upto <= 0 || upto > self.children@.len() {
            Seq::empty()
        } else {
            self.events_inside(upto - 1) + self.children@[upto - 1].events()
        }
    }
}

/// The events of a sequence of trees, in order.
pub open spec fn forest_events(nodes: Seq<Node>) -> Seq<Spanned<Event>>
    decreases nodes.len(),
{
    if nodes.len() == 0 {
        Seq::empty()
    } else {
        forest_events(nodes.drop_last()) + nodes.last().events()
    }
}

/// Collects the events of a syntax tree.
#[derive(Debug)]
pub struct Visitor {
    events: Vec<Spanned<Event>>,
}

impl View for Visitor {
    type V = Seq<Spanned<Event>>;

    closed spec fn view(&self) -> Seq<Spanned<Event>> {
        self.events@
    }
}

impl Visitor {
    pub fn new() -> (visitor: Self)
        ensures
            visitor@ == Seq::<Spanned<Event>>::empty(),
    {
        Self { events: Vec::new() }
    }

    /// The events collected so far.
    pub fn regions(&self) -> (events: &[Spanned<Event>])
        ensures
            events@ == self@,
    {
        self.events.as_slice()
    }

    /// Walks the trees of a file in order.
    pub fn visit_file(&mut self, nodes: &[Node])
        ensures
            final(self)@ == old(self)@ + forest_events(nodes@),
    {
        let ghost start = self@;
        let mut i: usize = 0;
        proof {
            assert(start + forest_events(nodes@.take(0)) =~= start);
        }
        while i < nodes.len()
            invariant
                i <= nodes.len(),
                self@ == start + forest_events(nodes@.take(i as int)),
            decreases nodes.len() - i,
        {
            proof {
                assert(nodes@.take(i + 1).drop_last() =~= nodes@.take(i as int));
            }
            self.visit_node(&nodes[i]);
            proof {
                assert(self@ =~= start + forest_events(nodes@.take(i + 1)));
            }
            i += 1;
        }
        proof {
            assert(nodes@.take(i as int) =~= nodes@);
        }
    }

    /// Walks one tree.
    pub fn visit_node(&mut self, node: &Node)
        ensures
            final(self)@ == old(self)@ + node.events(),
        decreases node, 2nat,
    {
        match node.kind {
            NodeKind::Stmt(kind) => self.visit_stmt(kind, node),
            NodeKind::Expr(kind) => self.visit_expr(kind, node),
        }
    }

    /// Walks a statement: its events bound those of what lies inside it.
    pub fn visit_stmt(&mut self, kind: StmtKind, node: &Node)
        requires
            node.kind == NodeKind::Stmt(kind),
        ensures
            final(self)@ == old(self)@ + node.events(),
        decreases node, 1nat,
    {
        let ghost before = self@;
        if kind.has_separator() {
            let (start, end) = stmt_endpoints(node.start, node.end);
            self.events.push(start);
            self.visit_children(node);
            self.events.push(end);
            proof {
                assert(self@ =~= before + node.events());
            }
        } else {
            // no semicolon: nothing can be put behind this statement
            self.visit_children(node);
        }
    }

    /// Walks an expression: where its kind can be wrapped, its events bound
    /// those of what lies inside it.
    pub fn visit_expr(&mut self, kind: ExprKind, node: &Node)
        requires
            node.kind == NodeKind::Expr(kind),
        ensures
            final(self)@ == old(self)@ + node.events(),
        decreases node, 1nat,
    {
        let ghost before = self@;
        let marked = if matches!(kind, ExprKind::Lit) {
            // a literal in the first column is a documentation comment
            node.start.char != 1
        } else {
            kind.wraps()
        };
        if marked {
            let (start, end) = expr_endpoints(node.start, node.end);
            self.events.push(start);
            self.visit_children(node);
            self.events.push(end);
            proof {
                assert(self@ =~= before + node.events());
            }
        } else {
            self.visit_children(node);
        }
    }

    /// Walks what lies directly inside a node, in source order.
    fn visit_children(&mut self, node: &Node)
        ensures
            final(self)@ == old(self)@ + node.events_inside(node.children@.len() as int),
        decreases node, 0nat,
    {
        let ghost start = self@;
        let mut i: usize = 0;
        proof {
            assert(start + node.events_inside(0) =~= start);
        }
        while i < node.children.len()
            invariant
                i <= node.children.len(),
                self@ == start + node.events_inside(i as int),
            decreases node.children.len() - i,
        {
            self.visit_node(&node.children[i]);
            proof {
                assert(self@ =~= start + node.events_inside(i + 1));
            }
            i += 1;
        }
    }
}

/// The depth of two sequences of events, one after the other.
pub proof fn lemma_depth_concat(a: Seq<Spanned<Event>>, b: Seq<Spanned<Event>>)
    ensures
        depth(a + b) == depth(a) + depth(b),
    decreases b.len(),
{
    if b.len() == 0 {
        assert(a + b =~= a);
    } else {
        assert((a + b).drop_last() =~= a + b.drop_last());
        lemma_depth_concat(a, b.drop_last());
    }
}

/// Events that close what they open and never close what is not open.
pub open spec fn balanced(events: Seq<Spanned<Event>>) -> bool {
    well_nested(events) && depth(events) == 0
}

/// Balanced events followed by balanced events are balanced.
pub proof fn lemma_balanced_concat(a: Seq<Spanned<Event>>, b: Seq<Spanned<Event>>)
    requires
        balanced(a),
        balanced(b),
    ensures
        balanced(a + b),
{
    lemma_depth_concat(a, b);
    assert forall|k: int| 0 <= k <= (a + b).len() implies depth(#[trigger] (a + b).take(k))
        >= 0 by {
        if k <= a.len() {
            assert((a + b).take(k) =~= a.take(k));
        } else {
            assert((a + b).take(k) =~= a + b.take(k - a.len()));
            lemma_depth_concat(a, b.take(k - a.len()));
        }
    }
}

/// Balanced events between the two events of a node are balanced.
pub proof fn lemma_balanced_wrap(
    open: Spanned<Event>,
    inside: Seq<Spanned<Event>>,
    close: Spanned<Event>,
)
    requires
        balanced(inside),
        (open.inner is ExprOpen && close.inner is ExprClose) || (open.inner is StatementStart
            && close.inner is StatementEnd),
    ensures
        balanced(seq![open] + inside + seq![close]),
{
    let all = seq![open] + inside + seq![close];
    assert(seq![open].drop_last() =~= Seq::<Spanned<Event>>::empty());
    assert(seq![close].drop_last() =~= Seq::<Spanned<Event>>::empty());
    assert(seq![open].last() == open);
    assert(seq![close].last() == close);
    assert(depth(seq![open].drop_last()) == 0);
    assert(depth(seq![close].drop_last()) == 0);
    assert(depth(seq![open]) >= 0);
    assert(depth(seq![open]) + depth(seq![close]) == 0);
    lemma_depth_concat(seq![open] + inside, seq![close]);
    lemma_depth_concat(seq![open], inside);
    assert forall|k: int| 0 <= k <= all.len() implies depth(#[trigger] all.take(k)) >= 0 by {
        if k == 0 {
            assert(all.take(0) =~= Seq::<Spanned<Event>>::empty());
        } else if k <= inside.len() + 1 {
            assert(all.take(k) =~= seq![open] + inside.take(k - 1));
            lemma_depth_concat(seq![open], inside.take(k - 1));
            assert(depth(inside.take(k - 1)) >= 0);
        } else {
            assert(all.take(k) =~= all);
        }
    }
}

/// The events of a tree are balanced: what the walk opens it closes, in
/// the right order.
pub proof fn lemma_events_balanced(node: Node)
    ensures
        balanced(node.events()),
    decreases node, node.children@.len() + 1,
{
    let inside = node.events_inside(node.children@.len() as int);
    lemma_inside_balanced(node, node.children@.len() as int);
    if node.marked() {
        lemma_balanced_wrap(node.opening(), inside, node.closing());
    }
}

/// The events of the first children of a node are balanced.
pub proof fn lemma_inside_balanced(node: Node, upto: int)
    ensures
        balanced(node.events_inside(upto)),
    decreases node, upto,
{
    if upto <= 0 || upto > node.children@.len() {
        assert(Seq::<Spanned<Event>>::empty().take(0) =~= Seq::<Spanned<Event>>::empty());
        assert forall|k: int| 0 <= k <= 0 implies depth(
            #[trigger] Seq::<Spanned<Event>>::empty().take(k),
        ) >= 0 by {
            assert(Seq::<Spanned<Event>>::empty().take(k) =~= Seq::<Spanned<Event>>::empty());
        }
    } else {
        lemma_inside_balanced(node, upto - 1);
        lemma_events_balanced(node.children@[upto - 1]);
        lemma_balanced_concat(node.events_inside(upto - 1), node.children@[upto - 1].events());
    }
}

/// The events of a file are well nested: an expression is never closed
/// before it was opened.
pub proof fn lemma_forest_balanced(nodes: Seq<Node>)
    ensures
        balanced(forest_events(nodes)),
        well_nested(forest_events(nodes)),
    decreases nodes.len(),
{
    if nodes.len() == 0 {
        assert forall|k: int| 0 <= k <= 0 implies depth(
            #[trigger] Seq::<Spanned<Event>>::empty().take(k),
        ) >= 0 by {
            assert(Seq::<Spanned<Event>>::empty().take(k) =~= Seq::<Spanned<Event>>::empty());
        }
    } else {
        lemma_forest_balanced(nodes.drop_last());
        lemma_events_balanced(nodes.last());
        lemma_balanced_concat(forest_events(nodes.drop_last()), nodes.last().events());
    }
}

} // verus!
