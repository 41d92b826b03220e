#![allow(dead_code)]
use rustlight_opt::ast::{Kind, Node, Nodes};
use rustlight_opt::model::node;

fn n(kind: Kind, text: &str, children: Vec<Node>) -> Node {
    node(kind, text.to_string(), children)
}

fn ident(name: &str) -> Node {
    n(Kind::Ident, name, vec![])
}

fn boolean(value: bool) -> Node {
    n(Kind::Bool(value), if value { "true" } else { "false" }, vec![])
}

fn literal(text: &str) -> Node {
    n(Kind::Literal, text, vec![])
}

fn absent() -> Node {
    n(Kind::Absent, "", vec![])
}

fn tail(expr: Node) -> Node {
    n(Kind::Tail, "", vec![expr])
}

fn block(mut stmts: Vec<Node>, expr: Option<Node>) -> Node {
    if let Some(expr) = expr {
        stmts.push(tail(expr));
    }
    n(Kind::Block, "", stmts)
}

fn block_expr(stmts: Vec<Node>, expr: Option<Node>) -> Node {
    n(Kind::BlockExpr, "", vec![block(stmts, expr)])
}

fn let_stmt(name: &str, init: Node) -> Node {
    n(Kind::Let { mutable: false }, name, vec![absent(), init])
}

fn path(segments: &[&str]) -> Node {
    n(
        Kind::Path { member: false },
        "",
        segments.iter().map(|s| n(Kind::Segment, s, vec![])).collect(),
    )
}

fn call(callee: Node, mut args: Vec<Node>) -> Node {
    args.insert(0, callee);
    n(Kind::Call, "", args)
}

fn method(receiver: Node, name: &str, mut args: Vec<Node>) -> Node {
    args.insert(0, receiver);
    n(Kind::MethodCall, name, args)
}

fn binop(left: Node, op: &str, right: Node) -> Node {
    n(Kind::BinaryOp, op, vec![left, right])
}

fn unop(op: &str, inner: Node) -> Node {
    n(Kind::UnaryOp, op, vec![inner])
}

fn parens(inner: Node) -> Node {
    n(Kind::Parenthesized, "", vec![inner])
}

fn if_else(condition: Node, then_branch: Node, else_branch: Node) -> Node {
    n(Kind::If, "", vec![condition, then_branch, else_branch])
}

fn named(name: &str) -> Node {
    n(Kind::TypeNamed, name, vec![])
}

fn generic(name: &str, bounds: &[&str]) -> Node {
    n(Kind::Generic, name, bounds.iter().map(|b| n(Kind::Bound, b, vec![])).collect())
}

fn param(name: &str, ty: Node) -> Node {
    n(Kind::Param, name, vec![ty])
}

fn function(name: &str, generics: Vec<Node>, params: Vec<Node>, ret: Node, body: Node) -> Node {
    n(
        Kind::Function { asyncness: false },
        name,
        vec![
            n(Kind::Visibility, "pub", vec![]),
            ret,
            n(Kind::Generics, "", generics),
            n(Kind::Params, "", params),
            body,
        ],
    )
}

fn module(items: Vec<Node>) -> Node {
    n(Kind::Module, "Test", items)
}

fn kids(node: &Node) -> Vec<&Node> {
    let mut out = Vec::new();
    let mut list = &node.children;
    while let Nodes::Cons(head, rest) = list {
        out.push(&**head);
        list = &**rest;
    }
    out
}

use rustlight_opt::boolean_cleanup::{cleanup_booleans, cleanup_expr, BooleanCleanupAnalysis};

fn bool_block(value: bool) -> Node {
    block(vec![], Some(boolean(value)))
}

fn bool_if(then_value: bool, else_value: bool) -> Node {
    if_else(ident("condition"), bool_block(then_value), bool_block(else_value))
}

fn cleanup(expr: &mut Node) -> BooleanCleanupAnalysis {
    let mut analysis = BooleanCleanupAnalysis::default();
    cleanup_expr(expr, &mut analysis);
    analysis
}

fn body_tail(module: &Node) -> &Node {
    let function = kids(module)[0];
    let body = kids(function)[4];
    let stmts = kids(body);
    kids(stmts[stmts.len() - 1])[0]
}

fn one_function(params: Vec<Node>, body: Node) -> Node {
    module(vec![function("f", vec![], params, named("bool"), body)])
}

#[test]
fn folds_true_false_to_condition() {
    let mut expr = bool_if(true, false);

    let analysis = cleanup(&mut expr);

    assert_eq!(analysis.conditional_folds, 1);
    assert!(expr.kind == Kind::Ident && expr.text == "condition");
}

#[test]
fn folds_false_true_to_negated_condition() {
    let mut expr = bool_if(false, true);

    let analysis = cleanup(&mut expr);

    assert_eq!(analysis.conditional_folds, 1);
    assert!(expr.kind == Kind::UnaryOp && expr.text == "!");
    let inner = kids(&expr)[0];
    assert!(inner.kind == Kind::Parenthesized);
    let condition = kids(inner)[0];
    assert!(condition.kind == Kind::Ident && condition.text == "condition");
}

#[test]
fn keeps_branches_with_statements() {
    let then_branch = block(vec![n(Kind::Comment, "preserve evaluation", vec![])], Some(boolean(true)));
    let mut expr = if_else(ident("condition"), then_branch, bool_block(false));

    let analysis = cleanup(&mut expr);

    assert_eq!(analysis.conditional_folds, 0);
    assert!(expr.kind == Kind::If);
}

#[test]
fn keeps_equal_boolean_branches() {
    let mut expr = bool_if(true, true);

    let analysis = cleanup(&mut expr);

    assert_eq!(analysis.conditional_folds, 0);
    assert!(expr.kind == Kind::If);
}

#[test]
fn folds_or_false_on_either_side() {
    let pair = n(
        Kind::Tuple,
        "",
        vec![binop(boolean(false), "||", ident("left")), binop(ident("right"), "||", boolean(false))],
    );
    let mut module = one_function(vec![], block(vec![], Some(pair)));

    let analysis = cleanup_booleans(&mut module);

    let items = kids(body_tail(&module));
    assert!(items[0].kind == Kind::Ident && items[0].text == "left");
    assert!(items[1].kind == Kind::Ident && items[1].text == "right");
    assert_eq!(analysis.or_false_folds, 2);
}

#[test]
fn folds_negated_equality() {
    let negated = unop("!", parens(binop(ident("left"), "==", ident("right"))));
    let mut module = one_function(vec![], block(vec![], Some(negated)));

    let analysis = cleanup_booleans(&mut module);

    let result = body_tail(&module);
    assert!(result.kind == Kind::BinaryOp && result.text == "!=");
    assert_eq!(kids(result)[0].text, "left");
    assert_eq!(kids(result)[1].text, "right");
    assert_eq!(analysis.negated_equality_folds, 1);
}

#[test]
fn closes_rewrites_introduced_by_conditional_fold() {
    let expr = if_else(binop(ident("left"), "==", ident("right")), bool_block(false), bool_block(true));
    let mut module = one_function(vec![], block(vec![], Some(expr)));

    let analysis = cleanup_booleans(&mut module);

    let result = body_tail(&module);
    assert!(result.kind == Kind::BinaryOp && result.text == "!=");
    assert_eq!(analysis.conditional_folds, 1);
    assert_eq!(analysis.negated_equality_folds, 1);
}

#[test]
fn preserves_precedence_inside_another_comparison() {
    let negated = unop("!", parens(binop(ident("left"), "==", ident("right"))));
    let expr = binop(negated, "==", ident("expected"));
    let mut module = one_function(vec![], block(vec![], Some(expr)));

    let analysis = cleanup_booleans(&mut module);

    let result = body_tail(&module);
    assert!(result.kind == Kind::BinaryOp && result.text == "==");
    let left = kids(result)[0];
    assert!(left.kind == Kind::Parenthesized);
    let inner = kids(left)[0];
    assert!(inner.kind == Kind::BinaryOp && inner.text == "!=");
    assert_eq!(kids(result)[1].text, "expected");
    assert_eq!(analysis.negated_equality_folds, 1);
}

#[test]
fn keeps_or_true_because_folding_would_discard_left_evaluation() {
    let mut expr = binop(call(ident("effect"), vec![]), "||", boolean(true));

    let analysis = cleanup(&mut expr);

    assert_eq!(analysis.or_false_folds, 0);
    assert!(expr.kind == Kind::BinaryOp && expr.text == "||");
}

fn block_condition() -> Node {
    block_expr(vec![let_stmt("(k, _)", ident("x"))], Some(ident("k")))
}

#[test]
fn hoists_block_valued_if_condition() {
    let expr = if_else(block_condition(), bool_block(true), block(vec![], Some(ident("fallback"))));
    let mut module = one_function(vec![], block(vec![], Some(expr)));

    let analysis = cleanup_booleans(&mut module);

    assert_eq!(analysis.hoisted_block_conditions, 1);
    let body = kids(kids(&module)[0])[4];
    let stmts = kids(body);
    assert_eq!(stmts.len(), 2);
    assert!(stmts[0].kind == Kind::Let { mutable: false } && stmts[0].text == "condition");
    assert!(kids(stmts[0])[1].kind == Kind::BlockExpr);
    let result = kids(stmts[1])[0];
    assert!(result.kind == Kind::If);
    let condition = kids(result)[0];
    assert!(condition.kind == Kind::Ident && condition.text == "condition");
}

#[test]
fn uses_fresh_name_when_condition_is_already_referenced() {
    let expr = if_else(block_condition(), block(vec![], Some(ident("condition"))), bool_block(false));
    let mut module = one_function(vec![], block(vec![], Some(expr)));

    let analysis = cleanup_booleans(&mut module);

    assert_eq!(analysis.hoisted_block_conditions, 1);
    let body = kids(kids(&module)[0])[4];
    let stmts = kids(body);
    assert_eq!(stmts[0].text, "condition1");
    let result = kids(stmts[1])[0];
    assert_eq!(kids(result)[0].text, "condition1");
    let then_branch = kids(result)[1];
    assert_eq!(kids(kids(then_branch)[0])[0].text, "condition");
}

#[test]
fn folding_reaches_a_fixpoint_through_nested_rewrites() {
    let inner = if_else(binop(ident("a"), "==", ident("b")), bool_block(true), bool_block(false));
    let mut expr = binop(boolean(false), "||", parens(inner));

    let analysis = cleanup(&mut expr);

    assert_eq!(analysis.or_false_folds, 1);
    assert_eq!(analysis.conditional_folds, 1);
    assert!(expr.kind == Kind::Parenthesized);
    assert!(kids(&expr)[0].kind == Kind::BinaryOp && kids(&expr)[0].text == "==");
}

#[test]
fn counts_keep_growing_across_calls() {
    let mut analysis = BooleanCleanupAnalysis::default();
    let mut first = bool_if(true, false);
    cleanup_expr(&mut first, &mut analysis);
    let mut second = bool_if(false, true);
    cleanup_expr(&mut second, &mut analysis);
    assert_eq!(analysis.conditional_folds, 2);
}

#[test]
fn keeps_every_call_while_folding() {
    let condition = call(ident("check"), vec![ident("x")]);
    let folded = if_else(
        condition,
        block(vec![], Some(boolean(true))),
        block(vec![], Some(boolean(false))),
    );
    let or = binop(boolean(false), "||", call(ident("probe"), vec![]));
    let mut module = one_function(vec![], block(vec![let_stmt("a", folded)], Some(or)));
    cleanup_booleans(&mut module);
    assert_eq!(calls(&module), 2);
}

fn calls(node: &Node) -> usize {
    usize::from(matches!(node.kind, Kind::Call | Kind::MethodCall | Kind::Macro))
        + kids(node).into_iter().map(calls).sum::<usize>()
}
