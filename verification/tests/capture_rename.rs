#![allow(dead_code)]
use rustlight_opt::ast::{Kind, Node, Nodes};
use rustlight_opt::model::node;

fn n(kind: Kind, text: &str, children: Vec<Node>) -> Node {
    node(kind, text.to_string(), children)
}

fn ident(name: &str) -> Node {
    n(Kind::Ident, name, vec![])
}

fn boolean(value: bool) -> Node {
    n(Kind::Bool(value), if value { "true" } else { "false" }, vec![])
}

fn literal(text: &str) -> Node {
    n(Kind::Literal, text, vec![])
}

fn absent() -> Node {
    n(Kind::Absent, "", vec![])
}

fn tail(expr: Node) -> Node {
    n(Kind::Tail, "", vec![expr])
}

fn block(mut stmts: Vec<Node>, expr: Option<Node>) -> Node {
    if let Some(expr) = expr {
        stmts.push(tail(expr));
    }
    n(Kind::Block, "", stmts)
}

fn block_expr(stmts: Vec<Node>, expr: Option<Node>) -> Node {
    n(Kind::BlockExpr, "", vec![block(stmts, expr)])
}

fn let_stmt(name: &str, init: Node) -> Node {
    n(Kind::Let { mutable: false }, name, vec![absent(), init])
}

fn path(segments: &[&str]) -> Node {
    n(
        Kind::Path { member: false },
        "",
        segments.iter().map(|s| n(Kind::Segment, s, vec![])).collect(),
    )
}

fn call(callee: Node, mut args: Vec<Node>) -> Node {
    args.insert(0, callee);
    n(Kind::Call, "", args)
}

fn method(receiver: Node, name: &str, mut args: Vec<Node>) -> Node {
    args.insert(0, receiver);
    n(Kind::MethodCall, name, args)
}

fn binop(left: Node, op: &str, right: Node) -> Node {
    n(Kind::BinaryOp, op, vec![left, right])
}

fn unop(op: &str, inner: Node) -> Node {
    n(Kind::UnaryOp, op, vec![inner])
}

fn parens(inner: Node) -> Node {
    n(Kind::Parenthesized, "", vec![inner])
}

fn if_else(condition: Node, then_branch: Node, else_branch: Node) -> Node {
    n(Kind::If, "", vec![condition, then_branch, else_branch])
}

fn named(name: &str) -> Node {
    n(Kind::TypeNamed, name, vec![])
}

fn generic(name: &str, bounds: &[&str]) -> Node {
    n(Kind::Generic, name, bounds.iter().map(|b| n(Kind::Bound, b, vec![])).collect())
}

fn param(name: &str, ty: Node) -> Node {
    n(Kind::Param, name, vec![ty])
}

fn function(name: &str, generics: Vec<Node>, params: Vec<Node>, ret: Node, body: Node) -> Node {
    n(
        Kind::Function { asyncness: false },
        name,
        vec![
            n(Kind::Visibility, "pub", vec![]),
            ret,
            n(Kind::Generics, "", generics),
            n(Kind::Params, "", params),
            body,
        ],
    )
}

fn module(items: Vec<Node>) -> Node {
    n(Kind::Module, "Test", items)
}

fn kids(node: &Node) -> Vec<&Node> {
    let mut out = Vec::new();
    let mut list = &node.children;
    while let Nodes::Cons(head, rest) = list {
        out.push(&**head);
        list = &**rest;
    }
    out
}

use rustlight_opt::capture_rename::{
    extract_move_closure_parts, strip_parens, subst_idents_in_block, subst_idents_in_expr,
};

fn closure(moves: bool, params: &[&str], body: Node) -> Node {
    let mut children = vec![body];
    children.extend(params.iter().map(|p| n(Kind::ClosureParam, p, vec![])));
    n(Kind::Closure { moves }, "", children)
}

fn caps(pairs: &[(&str, &str)]) -> Vec<(String, String)> {
    pairs.iter().map(|(a, b)| (a.to_string(), b.to_string())).collect()
}

fn expr_stmt(expr: Node) -> Node {
    n(Kind::ExprStmt, "", vec![expr])
}

fn idents(node: &Node, out: &mut Vec<String>) {
    if node.kind == Kind::Ident {
        out.push(node.text.clone());
    }
    for k in kids(node) {
        idents(k, out);
    }
}

fn names_in(node: &Node) -> Vec<String> {
    let mut out = Vec::new();
    idents(node, &mut out);
    out
}

#[test]
fn captured_copies_are_renamed_to_their_originals() {
    let body = call(ident("plus"), vec![method(ident("x_cap"), "clone", vec![]), ident("y")]);
    let renamed = subst_idents_in_expr(&body, &caps(&[("x_cap", "x")]));
    assert_eq!(names_in(&renamed), vec!["plus", "x", "y"]);
    assert_eq!(renamed.kind, Kind::Call);
}

#[test]
fn closure_parameters_hide_the_renaming() {
    let inner = closure(false, &["mut x_cap"], ident("x_cap"));
    let body = n(Kind::Tuple, "", vec![inner, ident("x_cap")]);
    let renamed = subst_idents_in_expr(&body, &caps(&[("x_cap", "x")]));
    assert_eq!(names_in(&renamed), vec!["x_cap", "x"]);
}

#[test]
fn let_bindings_hide_the_renaming_from_later_statements() {
    let body = block(
        vec![let_stmt("x_cap", ident("x_cap")), expr_stmt(ident("x_cap"))],
        Some(ident("y_cap")),
    );
    let renamed = subst_idents_in_block(&body.children, &caps(&[("x_cap", "x"), ("y_cap", "y")]));
    let mut stmts = Vec::new();
    let mut list = &renamed;
    while let rustlight_opt::ast::Nodes::Cons(head, rest) = list {
        stmts.push(&**head);
        list = &**rest;
    }
    assert_eq!(stmts.len(), 3);
    // The initializer still sees the capture; the statements after it see the new binding.
    assert_eq!(names_in(stmts[0]), vec!["x"]);
    assert_eq!(names_in(stmts[1]), vec!["x_cap"]);
    assert_eq!(names_in(stmts[2]), vec!["y"]);
}

#[test]
fn unreached_expressions_are_left_as_they_are() {
    // Indexing and loops are not entered.
    let index = n(Kind::Index, "", vec![ident("x_cap"), literal("0")]);
    let renamed = subst_idents_in_expr(&index, &caps(&[("x_cap", "x")]));
    assert_eq!(names_in(&renamed), vec!["x_cap"]);
    let cast = n(Kind::Cast, "", vec![ident("x_cap"), named("x_cap")]);
    let renamed = subst_idents_in_expr(&cast, &caps(&[("x_cap", "x")]));
    assert_eq!(kids(&renamed)[0].text, "x");
    assert_eq!(kids(&renamed)[1].text, "x_cap");
}

#[test]
fn move_closures_are_found_through_parentheses() {
    let c = closure(true, &["a", "b"], ident("a"));
    let wrapped = parens(parens(c));
    let (params, body) = extract_move_closure_parts(&wrapped).unwrap();
    assert_eq!(body.text, "a");
    match params {
        rustlight_opt::ast::Nodes::Cons(first, _) => assert_eq!(first.text, "a"),
        rustlight_opt::ast::Nodes::Nil => panic!("no parameters"),
    }
    assert!(extract_move_closure_parts(&closure(false, &["a"], ident("a"))).is_none());
    assert!(extract_move_closure_parts(&ident("f")).is_none());
    assert_eq!(strip_parens(&wrapped).kind, Kind::Closure { moves: true });
}
