use cargo_unfmt::doc::remove_doc_comments;
use cargo_unfmt::lex::{lex_tokens, Token};
use cargo_unfmt::location::{ExprKind, Node, NodeKind, StmtKind, TokenStart};
use cargo_unfmt::unformat;
use proc_macro2::{Span, TokenTree};
use quote::ToTokens;
use syn::visit::{self, Visit};

struct TreeBuilder {
    open: Vec<Vec<Node>>,
}

impl TreeBuilder {
    fn close(&mut self, kind: NodeKind, ends: (TokenStart, TokenStart)) {
        let children = self.open.pop().unwrap();
        self.open.last_mut().unwrap().push(Node {
            kind,
            start: ends.0,
            end: ends.1,
            children,
        });
    }
}

impl Visit<'_> for TreeBuilder {
    fn visit_stmt(&mut self, i: &syn::Stmt) {
        let kind = match i {
            syn::Stmt::Local(_) => StmtKind::Local,
            syn::Stmt::Item(_) => StmtKind::Item,
            syn::Stmt::Expr(_, semi) => StmtKind::Expr { semi: semi.is_some() },
            syn::Stmt::Macro(mac) => StmtKind::Macro { semi: mac.semi_token.is_some() },
        };
        self.open.push(Vec::new());
        visit::visit_stmt(self, i);
        self.close(NodeKind::Stmt(kind), endpoints(i));
    }

    fn visit_expr(&mut self, i: &syn::Expr) {
        let kind = match i {
            syn::Expr::Array(_) => ExprKind::Array,
            syn::Expr::Assign(_) => ExprKind::Assign,
            syn::Expr::Async(_) => ExprKind::Async,
            syn::Expr::Await(_) => ExprKind::Await,
            syn::Expr::Binary(_) => ExprKind::Binary,
            syn::Expr::Block(_) => ExprKind::Block,
            syn::Expr::Break(_) => ExprKind::Break,
            syn::Expr::Call(_) => ExprKind::Call,
            syn::Expr::Cast(_) => ExprKind::Cast,
            syn::Expr::Closure(_) => ExprKind::Closure,
            syn::Expr::Const(_) => ExprKind::Const,
            syn::Expr::Continue(_) => ExprKind::Continue,
            syn::Expr::Field(_) => ExprKind::Field,
            syn::Expr::ForLoop(_) => ExprKind::ForLoop,
            syn::Expr::Group(_) => ExprKind::Group,
            syn::Expr::If(_) => ExprKind::If,
            syn::Expr::Index(_) => ExprKind::Index,
            syn::Expr::Infer(_) => ExprKind::Infer,
            syn::Expr::Let(_) => ExprKind::Let,
            syn::Expr::Lit(_) => ExprKind::Lit,
            syn::Expr::Loop(_) => ExprKind::Loop,
            syn::Expr::Macro(_) => ExprKind::Macro,
            syn::Expr::Match(_) => ExprKind::Match,
            syn::Expr::MethodCall(_) => ExprKind::MethodCall,
            syn::Expr::Paren(_) => ExprKind::Paren,
            syn::Expr::Path(_) => ExprKind::Path,
            syn::Expr::Range(_) => ExprKind::Range,
            syn::Expr::Reference(_) => ExprKind::Reference,
            syn::Expr::Repeat(_) => ExprKind::Repeat,
            syn::Expr::Return(_) => ExprKind::Return,
            syn::Expr::Struct(_) => ExprKind::Struct,
            syn::Expr::Try(_) => ExprKind::Try,
            syn::Expr::TryBlock(_) => ExprKind::TryBlock,
            syn::Expr::Tuple(_) => ExprKind::Tuple,
            syn::Expr::Unary(_) => ExprKind::Unary,
            syn::Expr::Unsafe(_) => ExprKind::Unsafe,
            syn::Expr::Verbatim(_) => ExprKind::Verbatim,
            syn::Expr::While(_) => ExprKind::While,
            syn::Expr::Yield(_) => ExprKind::Yield,
            _ => panic!("new expression variant"),
        };
        self.open.push(Vec::new());
        visit::visit_expr(self, i);
        self.close(NodeKind::Expr(kind), endpoints(i));
    }
}

fn endpoints<T: ToTokens>(node: &T) -> (TokenStart, TokenStart) {
    let tokens = node.to_token_stream().into_iter().collect::<Vec<_>>();
    let first = match tokens.first().unwrap() {
        TokenTree::Group(group) => group.span_open(),
        TokenTree::Ident(ident) => ident.span(),
        TokenTree::Punct(punct) => punct.span(),
        TokenTree::Literal(literal) => literal.span(),
    };
    let last = match tokens.last().unwrap() {
        TokenTree::Group(group) => group.span_close(),
        TokenTree::Ident(ident) => ident.span(),
        TokenTree::Punct(punct) => punct.span(),
        TokenTree::Literal(literal) => literal.span(),
    };
    (start_of(first), start_of(last))
}

fn start_of(span: Span) -> TokenStart {
    let start = span.start();
    TokenStart::new(start.line, start.column)
}

fn tree_of(source: &str) -> Vec<Node> {
    let file = syn::parse_file(source).unwrap();
    let mut builder = TreeBuilder { open: vec![Vec::new()] };
    builder.visit_file(&file);
    builder.open.pop().unwrap()
}

const SOURCE: &str = r#"
/// Adds things up.
use std::collections::HashMap;

struct Point { x: i64, y: i64 }

impl Point {
    fn norm(&self) -> i64 {
        let a = self.x * self.x;
        let b = self.y*self.y;
        a + b
    }
}

fn count(words: &[&str]) -> HashMap<String, usize> {
    let mut seen: HashMap<String, usize> = HashMap::new();
    for word in words {
        // one more of these
        *seen.entry(word.to_string()).or_insert(0) += 1;
    }
    seen
}

fn main() {
    let p = Point { x: 3, y: -4 };
    let n = p.norm();
    let ratio = n / 2 * 3;
    let shifted = (n << 2) >> 1;
    let t = (1, "two", [3u8; 4]);
    if n >= 25 && ratio != 0 {
        println!("{} {:?}", n, t);
    }
    let v: Vec<i64> = (0..n).filter(|i| i % 2 == 0).collect();
    let total = match v.len() {
        0 => 0,
        k => k as i64 + shifted,
    };
    let _ = count(&["a", "b", "a"]);
    std::process::exit((total % 256) as i32);
}
"#;

fn kinds(text: &str) -> Vec<Token<'_>> {
    lex_tokens(text).unwrap().iter().map(|t| t.inner).collect()
}

/// The words, literals, punctuation characters and brackets of a text, as
/// the parser reads them.
fn atoms(text: &str) -> Vec<String> {
    fn flatten(stream: proc_macro2::TokenStream, out: &mut Vec<String>) {
        for tree in stream {
            match tree {
                TokenTree::Group(group) => {
                    out.push(format!("{:?}(", group.delimiter()));
                    flatten(group.stream(), out);
                    out.push(format!("){:?}", group.delimiter()));
                }
                TokenTree::Ident(ident) => out.push(ident.to_string()),
                TokenTree::Punct(punct) => out.push(punct.as_char().to_string()),
                TokenTree::Literal(literal) => out.push(literal.to_string()),
            }
        }
    }
    let stream: proc_macro2::TokenStream = text.parse().unwrap();
    let mut out = Vec::new();
    flatten(stream, &mut out);
    out
}

/// The file as the parser understands it, written out in one fixed way.
fn parsed(text: &str) -> String {
    syn::parse_file(text).unwrap().to_token_stream().to_string()
}

#[test]
fn laid_out_file_is_valid_and_fits_the_width() {
    let source = remove_doc_comments(SOURCE);
    let tree = tree_of(&source);
    for width in [1, 7, 20, 40, 80, 120, 200] {
        let out = unformat(&source, &tree, width).unwrap();
        let text = String::from_utf8(out).unwrap();
        assert!(syn::parse_file(&text).is_ok(), "{width}:\n{text}");
        for line in text.lines() {
            let fits = line.chars().count() <= width;
            assert!(fits || kinds(line).len() == 1, "{width}: {line}");
        }
    }
}

#[test]
fn lines_reach_the_width() {
    let source = remove_doc_comments(SOURCE);
    let tree = tree_of(&source);
    let out = unformat(&source, &tree, 60).unwrap();
    let text = String::from_utf8(out).unwrap();
    let lines: Vec<&str> = text.lines().collect();
    assert!(lines.len() > 5);
    for line in &lines {
        assert_eq!(line.chars().count(), 60, "{line}");
    }
}

#[test]
fn tokens_of_the_source_survive_in_order() {
    let source = remove_doc_comments(SOURCE);
    let tree = tree_of(&source);
    let before = atoms(&source);
    for width in [10, 33, 80] {
        let out = unformat(&source, &tree, width).unwrap();
        let text = String::from_utf8(out).unwrap();
        let after = atoms(&text);
        // what was added stands between the tokens of the source
        let mut rest = after.iter();
        for atom in &before {
            assert!(rest.any(|t| t == atom), "{width}: {atom:?} is lost");
        }
    }
}

#[test]
fn layout_without_a_tree_means_the_same() {
    let source = remove_doc_comments(SOURCE);
    for width in [1, 5, 50, 500] {
        let out = unformat(&source, &[], width).unwrap();
        let text = String::from_utf8(out).unwrap();
        assert_eq!(atoms(&text), atoms(&source), "{width}");
        assert_eq!(parsed(&text), parsed(&source), "{width}");
    }
}

#[test]
fn layout_with_statements_only_adds_statements() {
    let source = "fn main(){let a=1;let b=a<<2;loop{break}}";
    let tree = tree_of(source);
    let out = unformat(source, &tree, 70).unwrap();
    let text = String::from_utf8(out).unwrap();
    assert_eq!(text.lines().count(), 1);
    assert_eq!(text.lines().next().unwrap().chars().count(), 70);
    let file = syn::parse_file(&text).unwrap();
    let syn::Item::Fn(main) = &file.items[0] else {
        panic!("the function is lost");
    };
    assert!(main.block.stmts.len() > 3);
}
