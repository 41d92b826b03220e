#![allow(dead_code)]
use rustlight_opt::ast::{Kind, Node, Nodes};
use rustlight_opt::model::node;

fn n(kind: Kind, text: &str, children: Vec<Node>) -> Node {
    node(kind, text.to_string(), children)
}

fn ident(name: &str) -> Node {
    n(Kind::Ident, name, vec![])
}

fn boolean(value: bool) -> Node {
    n(Kind::Bool(value), if value { "true" } else { "false" }, vec![])
}

fn literal(text: &str) -> Node {
    n(Kind::Literal, text, vec![])
}

fn absent() -> Node {
    n(Kind::Absent, "", vec![])
}

fn tail(expr: Node) -> Node {
    n(Kind::Tail, "", vec![expr])
}

fn block(mut stmts: Vec<Node>, expr: Option<Node>) -> Node {
    if let Some(expr) = expr {
        stmts.push(tail(expr));
    }
    n(Kind::Block, "", stmts)
}

fn block_expr(stmts: Vec<Node>, expr: Option<Node>) -> Node {
    n(Kind::BlockExpr, "", vec![block(stmts, expr)])
}

fn let_stmt(name: &str, init: Node) -> Node {
    n(Kind::Let { mutable: false }, name, vec![absent(), init])
}

fn path(segments: &[&str]) -> Node {
    n(
        Kind::Path { member: false },
        "",
        segments.iter().map(|s| n(Kind::Segment, s, vec![])).collect(),
    )
}

fn call(callee: Node, mut args: Vec<Node>) -> Node {
    args.insert(0, callee);
    n(Kind::Call, "", args)
}

fn method(receiver: Node, name: &str, mut args: Vec<Node>) -> Node {
    args.insert(0, receiver);
    n(Kind::MethodCall, name, args)
}

fn binop(left: Node, op: &str, right: Node) -> Node {
    n(Kind::BinaryOp, op, vec![left, right])
}

fn unop(op: &str, inner: Node) -> Node {
    n(Kind::UnaryOp, op, vec![inner])
}

fn parens(inner: Node) -> Node {
    n(Kind::Parenthesized, "", vec![inner])
}

fn if_else(condition: Node, then_branch: Node, else_branch: Node) -> Node {
    n(Kind::If, "", vec![condition, then_branch, else_branch])
}

fn named(name: &str) -> Node {
    n(Kind::TypeNamed, name, vec![])
}

fn generic(name: &str, bounds: &[&str]) -> Node {
    n(Kind::Generic, name, bounds.iter().map(|b| n(Kind::Bound, b, vec![])).collect())
}

fn param(name: &str, ty: Node) -> Node {
    n(Kind::Param, name, vec![ty])
}

fn function(name: &str, generics: Vec<Node>, params: Vec<Node>, ret: Node, body: Node) -> Node {
    n(
        Kind::Function { asyncness: false },
        name,
        vec![
            n(Kind::Visibility, "pub", vec![]),
            ret,
            n(Kind::Generics, "", generics),
            n(Kind::Params, "", params),
            body,
        ],
    )
}

fn module(items: Vec<Node>) -> Node {
    n(Kind::Module, "Test", items)
}

fn kids(node: &Node) -> Vec<&Node> {
    let mut out = Vec::new();
    let mut list = &node.children;
    while let Nodes::Cons(head, rest) = list {
        out.push(&**head);
        list = &**rest;
    }
    out
}

use rustlight_opt::binding_cleanup::{cleanup_bindings, collapse_trailing_let_return};

fn clone_call(name: &str) -> Node {
    method(ident(name), "clone", vec![])
}

/// The statements of a block, its tail left out.
fn stmts_of(block: &Node) -> Vec<&Node> {
    kids(block).into_iter().filter(|s| s.kind != Kind::Tail).collect()
}

fn tail_of(block: &Node) -> Option<&Node> {
    kids(block).into_iter().find(|s| s.kind == Kind::Tail).map(|t| kids(t)[0])
}

#[test]
fn binding_cleanup_collapses_borrowed_alias_before_clone() {
    let arm_body = block(
        vec![let_stmt("left", method(ident("p0"), "as_ref", vec![]))],
        Some(clone_call("left")),
    );
    let arm = n(Kind::Arm, "Tree::Node(p0, _, _)", vec![absent(), arm_body]);
    let body = block(vec![], Some(n(Kind::Match, "", vec![ident("x0"), arm])));
    let ty = n(Kind::TypeRef { shared: true, mutable: false }, "", vec![named("Tree")]);
    let mut module = module(vec![function("get", vec![], vec![param("x0", ty)], named("Int"), body)]);

    cleanup_bindings(&mut module);

    let function = kids(&module)[0];
    let matched = tail_of(kids(function)[4]).expect("expected match");
    assert!(matched.kind == Kind::Match);
    let arm_body = kids(kids(matched)[1])[1];
    assert!(stmts_of(arm_body).is_empty());
    let result = tail_of(arm_body).unwrap();
    assert!(result.kind == Kind::MethodCall && result.text == "clone");
    assert_eq!(kids(result).len(), 1);
    let receiver = kids(result)[0];
    assert!(receiver.kind == Kind::MethodCall && receiver.text == "as_ref");
    assert_eq!(kids(receiver).len(), 1);
    assert!(kids(receiver)[0].kind == Kind::Ident && kids(receiver)[0].text == "p0");
}

#[test]
fn binding_cleanup_collapses_trailing_alias_chain_to_fixed_point() {
    let mut block = block(
        vec![let_stmt("x", ident("x0")), let_stmt("y", ident("x"))],
        Some(ident("y")),
    );

    collapse_trailing_let_return(&mut block);

    assert!(stmts_of(&block).is_empty());
    let result = tail_of(&block).unwrap();
    assert!(result.kind == Kind::Ident && result.text == "x0");
}

#[test]
fn trailing_let_cleanup_keeps_mut_typed_and_pattern_bindings() {
    let mut_binding = n(Kind::Let { mutable: true }, "x", vec![absent(), ident("x0")]);
    let typed_binding = n(Kind::Let { mutable: false }, "x", vec![named("Int"), ident("x0")]);
    let pattern_binding = n(Kind::Let { mutable: false }, "(x, y)", vec![absent(), ident("x0")]);

    for binding in [mut_binding, typed_binding, pattern_binding] {
        let mut block = block(vec![binding], Some(ident("x")));
        collapse_trailing_let_return(&mut block);
        assert_eq!(stmts_of(&block).len(), 1);
    }
}

#[test]
fn trailing_let_cleanup_reaches_module_level_consts() {
    let value = block_expr(vec![let_stmt("x", literal("1"))], Some(ident("x")));
    let constant = n(
        Kind::Const,
        "VALUE",
        vec![n(Kind::Visibility, "pub", vec![]), named("Int"), value],
    );
    let mut module = module(vec![constant]);

    cleanup_bindings(&mut module);

    let constant = kids(&module)[0];
    let value = kids(constant)[2];
    assert!(value.kind == Kind::BlockExpr);
    let block = kids(value)[0];
    assert!(stmts_of(block).is_empty());
    let result = tail_of(block).unwrap();
    assert!(result.kind == Kind::Literal && result.text == "1");
}

#[test]
fn keeps_reserved_words_and_other_tails() {
    let mut reserved = block(vec![let_stmt("self", ident("x0"))], Some(ident("self")));
    collapse_trailing_let_return(&mut reserved);
    assert_eq!(stmts_of(&reserved).len(), 1);

    let mut other = block(vec![let_stmt("x", ident("x0"))], Some(ident("y")));
    collapse_trailing_let_return(&mut other);
    assert_eq!(stmts_of(&other).len(), 1);

    let mut with_args = block(vec![let_stmt("x", ident("x0"))], Some(method(ident("x"), "clone", vec![ident("a")])));
    collapse_trailing_let_return(&mut with_args);
    assert_eq!(stmts_of(&with_args).len(), 1);
}

#[test]
fn collapsing_twice_changes_nothing_more() {
    let mut block = block(
        vec![let_stmt("a", literal("1")), let_stmt("x", ident("x0")), let_stmt("y", ident("x"))],
        Some(clone_call("y")),
    );
    collapse_trailing_let_return(&mut block);
    assert_eq!(stmts_of(&block).len(), 1);
    let once = format!("{:?}", block);
    collapse_trailing_let_return(&mut block);
    assert_eq!(format!("{:?}", block), once);
    let result = tail_of(&block).unwrap();
    assert!(result.kind == Kind::MethodCall && result.text == "clone");
    assert_eq!(kids(result)[0].text, "x0");
}
