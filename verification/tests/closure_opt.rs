#![allow(dead_code)]
use rustlight_opt::ast::{Kind, Node, Nodes};
use rustlight_opt::model::node;

fn n(kind: Kind, text: &str, children: Vec<Node>) -> Node {
    node(kind, text.to_string(), children)
}

fn ident(name: &str) -> Node {
    n(Kind::Ident, name, vec![])
}

fn boolean(value: bool) -> Node {
    n(Kind::Bool(value), if value { "true" } else { "false" }, vec![])
}

fn literal(text: &str) -> Node {
    n(Kind::Literal, text, vec![])
}

fn absent() -> Node {
    n(Kind::Absent, "", vec![])
}

fn tail(expr: Node) -> Node {
    n(Kind::Tail, "", vec![expr])
}

fn block(mut stmts: Vec<Node>, expr: Option<Node>) -> Node {
    if let Some(expr) = expr {
        stmts.push(tail(expr));
    }
    n(Kind::Block, "", stmts)
}

fn block_expr(stmts: Vec<Node>, expr: Option<Node>) -> Node {
    n(Kind::BlockExpr, "", vec![block(stmts, expr)])
}

fn let_stmt(name: &str, init: Node) -> Node {
    n(Kind::Let { mutable: false }, name, vec![absent(), init])
}

fn path(segments: &[&str]) -> Node {
    n(
        Kind::Path { member: false },
        "",
        segments.iter().map(|s| n(Kind::Segment, s, vec![])).collect(),
    )
}

fn call(callee: Node, mut args: Vec<Node>) -> Node {
    args.insert(0, callee);
    n(Kind::Call, "", args)
}

fn method(receiver: Node, name: &str, mut args: Vec<Node>) -> Node {
    args.insert(0, receiver);
    n(Kind::MethodCall, name, args)
}

fn binop(left: Node, op: &str, right: Node) -> Node {
    n(Kind::BinaryOp, op, vec![left, right])
}

fn unop(op: &str, inner: Node) -> Node {
    n(Kind::UnaryOp, op, vec![inner])
}

fn parens(inner: Node) -> Node {
    n(Kind::Parenthesized, "", vec![inner])
}

fn if_else(condition: Node, then_branch: Node, else_branch: Node) -> Node {
    n(Kind::If, "", vec![condition, then_branch, else_branch])
}

fn named(name: &str) -> Node {
    n(Kind::TypeNamed, name, vec![])
}

fn generic(name: &str, bounds: &[&str]) -> Node {
    n(Kind::Generic, name, bounds.iter().map(|b| n(Kind::Bound, b, vec![])).collect())
}

fn param(name: &str, ty: Node) -> Node {
    n(Kind::Param, name, vec![ty])
}

fn function(name: &str, generics: Vec<Node>, params: Vec<Node>, ret: Node, body: Node) -> Node {
    n(
        Kind::Function { asyncness: false },
        name,
        vec![
            n(Kind::Visibility, "pub", vec![]),
            ret,
            n(Kind::Generics, "", generics),
            n(Kind::Params, "", params),
            body,
        ],
    )
}

fn module(items: Vec<Node>) -> Node {
    n(Kind::Module, "Test", items)
}

fn kids(node: &Node) -> Vec<&Node> {
    let mut out = Vec::new();
    let mut list = &node.children;
    while let Nodes::Cons(head, rest) = list {
        out.push(&**head);
        list = &**rest;
    }
    out
}
use rustlight_opt::closure_opt::optimize_closure;

fn closure_param(pattern: &str) -> Node {
    n(Kind::ClosureParam, pattern, vec![])
}

fn move_closure(params: Vec<Node>, body: Node) -> Node {
    let mut children = vec![body];
    children.extend(params);
    n(Kind::Closure { moves: true }, "", children)
}

/// `(*Rc::new(closure))(args..)`
fn apply_rc(closure: Node, args: Vec<Node>) -> Node {
    let rc = call(path(&["Rc", "new"]), vec![closure]);
    call(parens(unop("*", rc)), args)
}

fn arm(pattern: &str, body: Node) -> Node {
    n(Kind::Arm, pattern, vec![absent(), body])
}

fn match_expr(scrutinee: Node, arms: Vec<Node>) -> Node {
    let mut children = vec![scrutinee];
    children.extend(arms);
    n(Kind::Match, "", children)
}

fn wrap(expr: Node) -> Node {
    let function = function("f", vec![], vec![], named("Int"), block(vec![], Some(expr)));
    module(vec![function])
}

fn result_of(module: &Node) -> &Node {
    let function = kids(module)[0];
    let body = kids(function)[4];
    let tail = *kids(body).last().unwrap();
    kids(tail)[0]
}

fn mentions_rc_new(node: &Node) -> bool {
    (matches!(node.kind, Kind::Path { .. })
        && kids(node).iter().map(|s| s.text.as_str()).collect::<Vec<_>>() == vec!["Rc", "new"])
        || kids(node).into_iter().any(mentions_rc_new)
}

fn tuple(items: Vec<Node>) -> Node {
    n(Kind::Tuple, "", items)
}

#[test]
fn beta_reduces_immediate_rc_closure() {
    let body = block_expr(vec![], Some(call(ident("plus_int"), vec![ident("xa"), call(ident("one_int"), vec![])])));
    let mut module = wrap(apply_rc(move_closure(vec![closure_param("xa : Int")], body), vec![ident("x")]));
    let analysis = optimize_closure(&mut module);

    assert_eq!(analysis.beta_reductions, 1);
    let expected = call(ident("plus_int"), vec![ident("x"), call(ident("one_int"), vec![])]);
    assert_eq!(format!("{:?}", result_of(&module)), format!("{:?}", expected));
    assert!(!mentions_rc_new(&module));
}

#[test]
fn keeps_multi_use_params() {
    let body = block_expr(vec![], Some(tuple(vec![ident("xa"), ident("xa")])));
    let mut module = wrap(apply_rc(move_closure(vec![closure_param("xa : Int")], body), vec![ident("x")]));
    let analysis = optimize_closure(&mut module);

    assert_eq!(analysis.beta_reductions, 0);
    assert!(mentions_rc_new(&module));
}

#[test]
fn keeps_shadowed_pattern_bindings_intact() {
    let matched = match_expr(
        ident("y"),
        vec![
            arm("Aoption::Somea(xa)", block(vec![], Some(ident("xa")))),
            arm("Aoption::None", block(vec![], Some(call(ident("one_int"), vec![])))),
        ],
    );
    let body = block_expr(vec![], Some(matched));
    let mut module = wrap(apply_rc(move_closure(vec![closure_param("xa : Int")], body), vec![ident("x")]));
    let analysis = optimize_closure(&mut module);

    assert_eq!(analysis.beta_reductions, 0);
    assert!(mentions_rc_new(&module));
}

#[test]
fn reduces_with_a_cloned_argument_and_a_mut_parameter() {
    let body = block_expr(vec![], Some(call(ident("consume"), vec![ident("v")])));
    let arg = method(ident("w"), "clone", vec![]);
    let mut module = wrap(apply_rc(move_closure(vec![closure_param("mut v: Vec")], body), vec![arg]));
    let analysis = optimize_closure(&mut module);

    assert_eq!(analysis.beta_reductions, 1);
    let expected = call(ident("consume"), vec![method(ident("w"), "clone", vec![])]);
    assert_eq!(format!("{:?}", result_of(&module)), format!("{:?}", expected));
}

#[test]
fn keeps_closures_applied_to_calls_or_to_the_wrong_number_of_arguments() {
    let body = || block_expr(vec![], Some(call(ident("g"), vec![ident("xa")])));
    let mut module = wrap(apply_rc(move_closure(vec![closure_param("xa")], body()), vec![call(ident("h"), vec![])]));
    assert_eq!(optimize_closure(&mut module).beta_reductions, 0);

    let mut module = wrap(apply_rc(move_closure(vec![closure_param("xa")], body()), vec![ident("a"), ident("b")]));
    assert_eq!(optimize_closure(&mut module).beta_reductions, 0);
}

#[test]
fn reduces_nested_applications_inside_out() {
    let inner = apply_rc(
        move_closure(vec![closure_param("b")], block_expr(vec![], Some(call(ident("g"), vec![ident("b")])))),
        vec![ident("a")],
    );
    let outer_body = block_expr(vec![], Some(call(ident("f"), vec![ident("c"), inner])));
    let mut module = wrap(apply_rc(move_closure(vec![closure_param("c")], outer_body), vec![literal("1")]));
    let analysis = optimize_closure(&mut module);

    assert_eq!(analysis.beta_reductions, 2);
    let expected = call(ident("f"), vec![literal("1"), call(ident("g"), vec![ident("a")])]);
    assert_eq!(format!("{:?}", result_of(&module)), format!("{:?}", expected));
}

#[test]
fn keeps_a_closure_whose_parameter_is_rebound_before_its_value() {
    let body = block_expr(
        vec![let_stmt("xa", call(ident("one_int"), vec![]))],
        Some(ident("xa")),
    );
    let mut module = wrap(apply_rc(move_closure(vec![closure_param("xa : Int")], body), vec![ident("x")]));
    let analysis = optimize_closure(&mut module);

    assert_eq!(analysis.beta_reductions, 0);
    assert!(mentions_rc_new(&module));
}
