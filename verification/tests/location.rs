use cargo_unfmt::lex::Spanned;
use cargo_unfmt::location::{
    expr_endpoints, stmt_endpoints, Event, ExprKind, Node, NodeKind, StmtKind, TokenStart, Visitor,
};

fn leaf(kind: NodeKind, start: (usize, usize), end: (usize, usize)) -> Node {
    node(kind, start, end, vec![])
}

fn node(kind: NodeKind, start: (usize, usize), end: (usize, usize), children: Vec<Node>) -> Node {
    Node {
        kind,
        start: TokenStart { line: start.0, char: start.1 },
        end: TokenStart { line: end.0, char: end.1 },
        children,
    }
}

fn events_of(nodes: &[Node]) -> Vec<Spanned<Event>> {
    let mut visitor = Visitor::new();
    visitor.visit_file(nodes);
    visitor.regions().to_vec()
}

#[test]
fn token_start_counts_columns_from_one() {
    assert_eq!(TokenStart::new(3, 0), TokenStart { line: 3, char: 1 });
    assert_eq!(TokenStart::new(1, 16), TokenStart { line: 1, char: 17 });
}

#[test]
fn endpoints_carry_the_positions() {
    let start = TokenStart { line: 1, char: 2 };
    let end = TokenStart { line: 3, char: 4 };
    assert_eq!(
        stmt_endpoints(start, end),
        (
            Spanned::new(Event::StatementStart, 1, 2),
            Spanned::new(Event::StatementEnd, 3, 4)
        )
    );
    assert_eq!(
        expr_endpoints(start, end),
        (
            Spanned::new(Event::ExprOpen, 1, 2),
            Spanned::new(Event::ExprClose, 3, 4)
        )
    );
}

#[test]
fn statements_need_a_separator() {
    assert!(StmtKind::Local.has_separator());
    assert!(StmtKind::Item.has_separator());
    assert!(StmtKind::Expr { semi: true }.has_separator());
    assert!(!StmtKind::Expr { semi: false }.has_separator());
    assert!(StmtKind::Macro { semi: true }.has_separator());
    assert!(!StmtKind::Macro { semi: false }.has_separator());
}

#[test]
fn wrappable_expressions_are_listed() {
    let wrappable = [
        ExprKind::Array,
        ExprKind::Assign,
        ExprKind::Await,
        ExprKind::Binary,
        ExprKind::Break,
        ExprKind::Call,
        ExprKind::Cast,
        ExprKind::Closure,
        ExprKind::Continue,
        ExprKind::Index,
        ExprKind::Infer,
        ExprKind::Lit,
        ExprKind::Macro,
        ExprKind::MethodCall,
        ExprKind::Paren,
        ExprKind::Reference,
        ExprKind::Repeat,
        ExprKind::Return,
        ExprKind::Struct,
        ExprKind::Try,
        ExprKind::Tuple,
        ExprKind::Unary,
        ExprKind::Yield,
    ];
    let other = [
        ExprKind::Path,
        ExprKind::Block,
        ExprKind::Group,
        ExprKind::Range,
        ExprKind::Field,
        ExprKind::Verbatim,
        ExprKind::Match,
        ExprKind::Let,
        ExprKind::Async,
        ExprKind::Const,
        ExprKind::ForLoop,
        ExprKind::If,
        ExprKind::Loop,
        ExprKind::TryBlock,
        ExprKind::Unsafe,
        ExprKind::While,
    ];
    for kind in wrappable {
        assert!(kind.wraps(), "{kind:?}");
        assert_eq!(
            events_of(&[leaf(NodeKind::Expr(kind), (2, 3), (2, 9))]),
            vec![
                Spanned::new(Event::ExprOpen, 2, 3),
                Spanned::new(Event::ExprClose, 2, 9)
            ]
        );
    }
    for kind in other {
        assert!(!kind.wraps(), "{kind:?}");
        assert_eq!(events_of(&[leaf(NodeKind::Expr(kind), (2, 3), (2, 9))]), vec![]);
    }
}

#[test]
fn literal_in_the_first_column_is_left_alone() {
    let lit = NodeKind::Expr(ExprKind::Lit);
    assert_eq!(events_of(&[leaf(lit, (4, 1), (4, 9))]), vec![]);
    assert_eq!(events_of(&[leaf(lit, (4, 2), (4, 9))]).len(), 2);
    // other expressions are wrapped there too
    assert_eq!(
        events_of(&[leaf(NodeKind::Expr(ExprKind::Call), (4, 1), (4, 9))]).len(),
        2
    );
}

#[test]
fn events_come_in_source_order_and_nest() {
    // foo(a + 1); bar
    let binary = node(
        NodeKind::Expr(ExprKind::Binary),
        (1, 5),
        (1, 9),
        vec![
            leaf(NodeKind::Expr(ExprKind::Path), (1, 5), (1, 5)),
            leaf(NodeKind::Expr(ExprKind::Lit), (1, 9), (1, 9)),
        ],
    );
    let call = node(
        NodeKind::Expr(ExprKind::Call),
        (1, 1),
        (1, 10),
        vec![leaf(NodeKind::Expr(ExprKind::Path), (1, 1), (1, 1)), binary],
    );
    let first = node(NodeKind::Stmt(StmtKind::Expr { semi: true }), (1, 1), (1, 11), vec![call]);
    let second = node(
        NodeKind::Stmt(StmtKind::Expr { semi: false }),
        (1, 13),
        (1, 13),
        vec![leaf(NodeKind::Expr(ExprKind::Path), (1, 13), (1, 13))],
    );
    assert_eq!(
        events_of(&[first, second]),
        vec![
            Spanned::new(Event::StatementStart, 1, 1),
            Spanned::new(Event::ExprOpen, 1, 1),
            Spanned::new(Event::ExprOpen, 1, 5),
            Spanned::new(Event::ExprOpen, 1, 9),
            Spanned::new(Event::ExprClose, 1, 9),
            Spanned::new(Event::ExprClose, 1, 9),
            Spanned::new(Event::ExprClose, 1, 10),
            Spanned::new(Event::StatementEnd, 1, 11),
        ]
    );
}

#[test]
fn children_of_an_unmarked_node_are_still_walked() {
    let block = node(
        NodeKind::Expr(ExprKind::Block),
        (1, 1),
        (3, 1),
        vec![leaf(NodeKind::Stmt(StmtKind::Local), (2, 5), (2, 12))],
    );
    assert_eq!(
        events_of(&[block]),
        vec![
            Spanned::new(Event::StatementStart, 2, 5),
            Spanned::new(Event::StatementEnd, 2, 12)
        ]
    );
}

#[test]
fn events_never_close_what_is_not_open() {
    let mut nodes = vec![];
    for i in 0..5usize {
        let inner = node(
            NodeKind::Expr(ExprKind::Tuple),
            (i + 1, 2),
            (i + 1, 8),
            vec![
                leaf(NodeKind::Expr(ExprKind::Lit), (i + 1, 3), (i + 1, 3)),
                leaf(NodeKind::Expr(ExprKind::Range), (i + 1, 5), (i + 1, 7)),
            ],
        );
        nodes.push(node(
            NodeKind::Stmt(StmtKind::Expr { semi: i % 2 == 0 }),
            (i + 1, 2),
            (i + 1, 9),
            vec![inner],
        ));
    }
    let events = events_of(&nodes);
    let mut depth = 0i64;
    for event in &events {
        match event.inner {
            Event::ExprOpen => depth += 1,
            Event::ExprClose => depth -= 1,
            _ => {}
        }
        assert!(depth >= 0);
    }
    assert_eq!(depth, 0);
    assert_eq!(events.len(), 5 * 4 + 3 * 2);
}

#[test]
fn visitor_keeps_what_it_collected() {
    let mut visitor = Visitor::new();
    assert_eq!(visitor.regions().to_vec(), vec![]);
    let lit = leaf(NodeKind::Expr(ExprKind::Lit), (1, 2), (1, 2));
    visitor.visit_node(&lit);
    visitor.visit_expr(ExprKind::Lit, &lit);
    let stmt = leaf(NodeKind::Stmt(StmtKind::Item), (2, 1), (2, 5));
    visitor.visit_stmt(StmtKind::Item, &stmt);
    assert_eq!(visitor.regions().len(), 6);
    assert_eq!(visitor.regions()[4], Spanned::new(Event::StatementStart, 2, 1));
}
