#![allow(dead_code)]
use rustlight_opt::ast::{Kind, Node, Nodes};
use rustlight_opt::model::node;

fn n(kind: Kind, text: &str, children: Vec<Node>) -> Node {
    node(kind, text.to_string(), children)
}

fn ident(name: &str) -> Node {
    n(Kind::Ident, name, vec![])
}

fn boolean(value: bool) -> Node {
    n(Kind::Bool(value), if value { "true" } else { "false" }, vec![])
}

fn literal(text: &str) -> Node {
    n(Kind::Literal, text, vec![])
}

fn absent() -> Node {
    n(Kind::Absent, "", vec![])
}

fn tail(expr: Node) -> Node {
    n(Kind::Tail, "", vec![expr])
}

fn block(mut stmts: Vec<Node>, expr: Option<Node>) -> Node {
    if let Some(expr) = expr {
        stmts.push(tail(expr));
    }
    n(Kind::Block, "", stmts)
}

fn block_expr(stmts: Vec<Node>, expr: Option<Node>) -> Node {
    n(Kind::BlockExpr, "", vec![block(stmts, expr)])
}

fn let_stmt(name: &str, init: Node) -> Node {
    n(Kind::Let { mutable: false }, name, vec![absent(), init])
}

fn path(segments: &[&str]) -> Node {
    n(
        Kind::Path { member: false },
        "",
        segments.iter().map(|s| n(Kind::Segment, s, vec![])).collect(),
    )
}

fn call(callee: Node, mut args: Vec<Node>) -> Node {
    args.insert(0, callee);
    n(Kind::Call, "", args)
}

fn method(receiver: Node, name: &str, mut args: Vec<Node>) -> Node {
    args.insert(0, receiver);
    n(Kind::MethodCall, name, args)
}

fn binop(left: Node, op: &str, right: Node) -> Node {
    n(Kind::BinaryOp, op, vec![left, right])
}

fn unop(op: &str, inner: Node) -> Node {
    n(Kind::UnaryOp, op, vec![inner])
}

fn parens(inner: Node) -> Node {
    n(Kind::Parenthesized, "", vec![inner])
}

fn if_else(condition: Node, then_branch: Node, else_branch: Node) -> Node {
    n(Kind::If, "", vec![condition, then_branch, else_branch])
}

fn named(name: &str) -> Node {
    n(Kind::TypeNamed, name, vec![])
}

fn generic(name: &str, bounds: &[&str]) -> Node {
    n(Kind::Generic, name, bounds.iter().map(|b| n(Kind::Bound, b, vec![])).collect())
}

fn param(name: &str, ty: Node) -> Node {
    n(Kind::Param, name, vec![ty])
}

fn function(name: &str, generics: Vec<Node>, params: Vec<Node>, ret: Node, body: Node) -> Node {
    n(
        Kind::Function { asyncness: false },
        name,
        vec![
            n(Kind::Visibility, "pub", vec![]),
            ret,
            n(Kind::Generics, "", generics),
            n(Kind::Params, "", params),
            body,
        ],
    )
}

fn module(items: Vec<Node>) -> Node {
    n(Kind::Module, "Test", items)
}

fn kids(node: &Node) -> Vec<&Node> {
    let mut out = Vec::new();
    let mut list = &node.children;
    while let Nodes::Cons(head, rest) = list {
        out.push(&**head);
        list = &**rest;
    }
    out
}

use rustlight_opt::binding_pattern::{
    collect_deref_box_binding_names_from_body, collect_pattern_binding_names, outer_parens_inner,
    split_constructor_pattern, split_top_level_commas,
};
use rustlight_opt::closure_binding::{collect_deref_ident_uses_block, collect_deref_ident_uses_expr};

fn bound(pattern: &str) -> Vec<String> {
    let mut out = Vec::new();
    collect_pattern_binding_names(pattern, &mut out);
    out.sort();
    out
}

fn strings(list: &[&str]) -> Vec<String> {
    list.iter().map(|s| s.to_string()).collect()
}

fn deref(name: &str) -> Node {
    unop("*", ident(name))
}

fn expr_stmt(expr: Node) -> Node {
    n(Kind::ExprStmt, "", vec![expr])
}

#[test]
fn plain_and_modified_identifiers_bind_themselves() {
    assert_eq!(bound("x"), strings(&["x"]));
    assert_eq!(bound("  mut x "), strings(&["x"]));
    assert_eq!(bound("ref mut value"), strings(&["value"]));
    assert_eq!(bound("refx"), strings(&["refx"]));
}

#[test]
fn wildcards_paths_and_literals_bind_nothing() {
    assert!(bound("_").is_empty());
    assert!(bound("..").is_empty());
    assert!(bound("").is_empty());
    assert!(bound("true").is_empty());
    assert!(bound("None::Thing").is_empty());
    assert!(bound("Some(_)").is_empty());
    assert!(bound("Point { x, y }").is_empty());
    assert!(bound("[a, b]").is_empty());
}

#[test]
fn tuples_and_constructors_bind_their_parts() {
    assert_eq!(bound("(a, ref mut b)"), strings(&["a", "b"]));
    assert_eq!(bound("Some(x)"), strings(&["x"]));
    assert_eq!(bound("Ok((left, right))"), strings(&["left", "right"]));
    assert_eq!(bound("Node(l, _, Box(r))"), strings(&["l", "r"]));
    assert_eq!(bound("(x, x)"), strings(&["x"]));
    // A single parenthesized name is neither a tuple nor a constructor.
    assert!(bound("(x)").is_empty());
    // A group closing before the end is no constructor application.
    assert!(bound("A(x)(y)").is_empty());
}

#[test]
fn outer_parentheses_must_enclose_everything() {
    assert_eq!(outer_parens_inner("(a, b)"), Some("a, b".to_string()));
    assert_eq!(outer_parens_inner("((a), b)"), Some("(a), b".to_string()));
    assert_eq!(outer_parens_inner("(a)(b)"), None);
    assert_eq!(outer_parens_inner("a(b)"), None);
    assert_eq!(outer_parens_inner("(a))"), None);
    assert_eq!(outer_parens_inner("()"), Some(String::new()));
}

#[test]
fn commas_split_only_at_top_level() {
    assert_eq!(split_top_level_commas(" a , (b, c), [d, e], {f, g} "), strings(&["a", "(b, c)", "[d, e]", "{f, g}"]));
    assert_eq!(split_top_level_commas("a,"), strings(&["a"]));
    assert_eq!(split_top_level_commas(", a"), strings(&["", "a"]));
    assert_eq!(split_top_level_commas(") , x"), strings(&[")", "x"]));
    assert!(split_top_level_commas("   ").is_empty());
}

#[test]
fn constructor_split_names_the_constructor() {
    assert_eq!(
        split_constructor_pattern(" Tree::Node( l , r )"),
        Some(("Tree::Node".to_string(), strings(&["l", "r"])))
    );
    assert_eq!(split_constructor_pattern("(a, b)"), None);
    assert_eq!(split_constructor_pattern("Some(x) "), None);
    assert_eq!(split_constructor_pattern("x"), None);
    assert_eq!(split_constructor_pattern("Unit()"), Some(("Unit".to_string(), vec![])));
}

#[test]
fn dereferenced_names_are_collected_once() {
    let expr = binop(deref("a"), "+", call(ident("f"), vec![deref("b"), unop("*", parens(deref("a")))]));
    let mut out = Vec::new();
    collect_deref_ident_uses_expr(&expr, &mut out);
    out.sort();
    assert_eq!(out, strings(&["a", "b"]));
    // Negation and other operators do not count.
    let mut out = Vec::new();
    collect_deref_ident_uses_expr(&unop("!", ident("c")), &mut out);
    assert!(out.is_empty());
}

#[test]
fn block_dereferences_skip_types_and_reach_tails() {
    let body = block(
        vec![let_stmt("v", deref("x")), expr_stmt(deref("y"))],
        Some(method(deref("z"), "len", vec![])),
    );
    let mut out = Vec::new();
    collect_deref_ident_uses_block(&body.children, &mut out);
    out.sort();
    assert_eq!(out, strings(&["x", "y", "z"]));
}

#[test]
fn boxed_pattern_bindings_are_those_the_body_dereferences() {
    let body = block(vec![], Some(binop(deref("l"), "+", ident("r"))));
    let mut out = Vec::new();
    collect_deref_box_binding_names_from_body("Node(l, r)", &body, &mut out);
    assert_eq!(out, strings(&["l"]));
    let mut out = Vec::new();
    collect_deref_box_binding_names_from_body("_", &body, &mut out);
    assert!(out.is_empty());
}
