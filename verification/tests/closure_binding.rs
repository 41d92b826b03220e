#![allow(dead_code)]
use rustlight_opt::ast::{Kind, Node, Nodes};
use rustlight_opt::model::node;

fn n(kind: Kind, text: &str, children: Vec<Node>) -> Node {
    node(kind, text.to_string(), children)
}

fn ident(name: &str) -> Node {
    n(Kind::Ident, name, vec![])
}

fn boolean(value: bool) -> Node {
    n(Kind::Bool(value), if value { "true" } else { "false" }, vec![])
}

fn literal(text: &str) -> Node {
    n(Kind::Literal, text, vec![])
}

fn absent() -> Node {
    n(Kind::Absent, "", vec![])
}

fn tail(expr: Node) -> Node {
    n(Kind::Tail, "", vec![expr])
}

fn block(mut stmts: Vec<Node>, expr: Option<Node>) -> Node {
    if let Some(expr) = expr {
        stmts.push(tail(expr));
    }
    n(Kind::Block, "", stmts)
}

fn block_expr(stmts: Vec<Node>, expr: Option<Node>) -> Node {
    n(Kind::BlockExpr, "", vec![block(stmts, expr)])
}

fn let_stmt(name: &str, init: Node) -> Node {
    n(Kind::Let { mutable: false }, name, vec![absent(), init])
}

fn path(segments: &[&str]) -> Node {
    n(
        Kind::Path { member: false },
        "",
        segments.iter().map(|s| n(Kind::Segment, s, vec![])).collect(),
    )
}

fn call(callee: Node, mut args: Vec<Node>) -> Node {
    args.insert(0, callee);
    n(Kind::Call, "", args)
}

fn method(receiver: Node, name: &str, mut args: Vec<Node>) -> Node {
    args.insert(0, receiver);
    n(Kind::MethodCall, name, args)
}

fn binop(left: Node, op: &str, right: Node) -> Node {
    n(Kind::BinaryOp, op, vec![left, right])
}

fn unop(op: &str, inner: Node) -> Node {
    n(Kind::UnaryOp, op, vec![inner])
}

fn parens(inner: Node) -> Node {
    n(Kind::Parenthesized, "", vec![inner])
}

fn if_else(condition: Node, then_branch: Node, else_branch: Node) -> Node {
    n(Kind::If, "", vec![condition, then_branch, else_branch])
}

fn named(name: &str) -> Node {
    n(Kind::TypeNamed, name, vec![])
}

fn generic(name: &str, bounds: &[&str]) -> Node {
    n(Kind::Generic, name, bounds.iter().map(|b| n(Kind::Bound, b, vec![])).collect())
}

fn param(name: &str, ty: Node) -> Node {
    n(Kind::Param, name, vec![ty])
}

fn function(name: &str, generics: Vec<Node>, params: Vec<Node>, ret: Node, body: Node) -> Node {
    n(
        Kind::Function { asyncness: false },
        name,
        vec![
            n(Kind::Visibility, "pub", vec![]),
            ret,
            n(Kind::Generics, "", generics),
            n(Kind::Params, "", params),
            body,
        ],
    )
}

fn module(items: Vec<Node>) -> Node {
    n(Kind::Module, "Test", items)
}

fn kids(node: &Node) -> Vec<&Node> {
    let mut out = Vec::new();
    let mut list = &node.children;
    while let Nodes::Cons(head, rest) = list {
        out.push(&**head);
        list = &**rest;
    }
    out
}

use rustlight_opt::closure_binding::{
    closure_binding_is_nonescaping_use, collect_closure_binding_usage_expr, expr_has_free_var_from,
    expr_is_ident_named, pattern_binds_name, ClosureBindingUsage,
};

fn closure(params: &[&str], body: Node) -> Node {
    let mut children = vec![body];
    children.extend(params.iter().map(|p| n(Kind::ClosureParam, p, vec![])));
    n(Kind::Closure { moves: false }, "", children)
}

fn expr_stmt(expr: Node) -> Node {
    n(Kind::ExprStmt, "", vec![expr])
}

fn arm(pattern: &str, body: Node) -> Node {
    n(Kind::Arm, pattern, vec![absent(), body])
}

fn match_expr(scrutinee: Node, arms: Vec<Node>) -> Node {
    let mut children = vec![scrutinee];
    children.extend(arms);
    n(Kind::Match, "", children)
}

fn adder() -> Node {
    closure(&["x"], binop(ident("x"), "+", literal("1")))
}

fn names(list: &[&str]) -> Vec<String> {
    list.iter().map(|s| s.to_string()).collect()
}

fn usage_of(expr: &Node, name: &str) -> ClosureBindingUsage {
    let mut usage = ClosureBindingUsage { call_uses: 0, escapes: false };
    collect_closure_binding_usage_expr(expr, &name.to_string(), &mut usage);
    usage
}

#[test]
fn called_closure_binding_can_be_borrowed() {
    let body = block(
        vec![let_stmt("f", adder()), expr_stmt(call(ident("f"), vec![literal("1")]))],
        Some(call(ident("f"), vec![literal("2")])),
    );
    assert!(closure_binding_is_nonescaping_use(&body, 0, &"f".to_string()));
}

#[test]
fn returned_closure_binding_escapes() {
    let body = block(
        vec![let_stmt("f", adder()), expr_stmt(call(ident("f"), vec![literal("1")]))],
        Some(ident("f")),
    );
    assert!(!closure_binding_is_nonescaping_use(&body, 0, &"f".to_string()));
}

#[test]
fn closure_binding_captured_by_another_closure_escapes() {
    let capture = closure(&["y"], call(ident("f"), vec![ident("y")]));
    let body = block(
        vec![let_stmt("f", adder()), expr_stmt(call(ident("f"), vec![literal("1")]))],
        Some(capture),
    );
    assert!(!closure_binding_is_nonescaping_use(&body, 0, &"f".to_string()));
}

#[test]
fn closure_parameter_hides_the_binding() {
    let hidden = closure(&["f"], ident("f"));
    let body = block(
        vec![let_stmt("f", adder()), expr_stmt(call(ident("f"), vec![literal("1")]))],
        Some(hidden),
    );
    assert!(closure_binding_is_nonescaping_use(&body, 0, &"f".to_string()));
}

#[test]
fn unused_closure_binding_is_not_borrowed() {
    let body = block(vec![let_stmt("f", adder())], Some(literal("0")));
    assert!(!closure_binding_is_nonescaping_use(&body, 0, &"f".to_string()));
}

#[test]
fn rebinding_ends_the_closure_binding_scope() {
    // let f = ..; f(1); let f = g; f  -- the returned `f` is the new binding.
    let body = block(
        vec![
            let_stmt("f", adder()),
            expr_stmt(call(ident("f"), vec![literal("1")])),
            let_stmt("f", ident("g")),
        ],
        Some(ident("f")),
    );
    assert!(closure_binding_is_nonescaping_use(&body, 0, &"f".to_string()));
    // A rebinding whose initializer returns the old closure lets it escape.
    let body = block(
        vec![
            let_stmt("f", adder()),
            expr_stmt(call(ident("f"), vec![literal("1")])),
            let_stmt("f", ident("f")),
        ],
        None,
    );
    assert!(!closure_binding_is_nonescaping_use(&body, 0, &"f".to_string()));
}

#[test]
fn parenthesized_callee_counts_as_a_call() {
    let expr = call(parens(parens(ident("f"))), vec![literal("1")]);
    let usage = usage_of(&expr, "f");
    assert_eq!(usage, ClosureBindingUsage { call_uses: 1, escapes: false });
    assert!(expr_is_ident_named(&parens(ident("f")), &"f".to_string()));
    assert!(!expr_is_ident_named(&parens(ident("g")), &"f".to_string()));
}

#[test]
fn calls_are_counted_until_the_binding_escapes() {
    let twice = n(
        Kind::Tuple,
        "",
        vec![
            call(ident("f"), vec![literal("1")]),
            call(ident("f"), vec![literal("2")]),
            ident("f"),
            call(ident("f"), vec![literal("3")]),
        ],
    );
    assert_eq!(usage_of(&twice, "f"), ClosureBindingUsage { call_uses: 2, escapes: true });
}

#[test]
fn match_arm_binding_hides_the_closure() {
    let expr = match_expr(
        ident("v"),
        vec![
            arm("Some(f)", block(vec![], Some(ident("f")))),
            arm("None", block(vec![], Some(call(ident("f"), vec![literal("0")])))),
        ],
    );
    assert_eq!(usage_of(&expr, "f"), ClosureBindingUsage { call_uses: 1, escapes: false });
}

#[test]
fn argument_position_is_an_escape() {
    let expr = call(ident("apply"), vec![ident("f"), literal("1")]);
    assert_eq!(usage_of(&expr, "f"), ClosureBindingUsage { call_uses: 0, escapes: true });
}

#[test]
fn free_variable_test_respects_closure_parameters_only() {
    let vars = names(&["x", "y"]);
    // `|x| x + 1` mentions no free `x`.
    assert!(!expr_has_free_var_from(&adder(), &vars));
    // `|x| y` mentions `y`.
    assert!(expr_has_free_var_from(&closure(&["x"], ident("y")), &vars));
    // `|x, y| x + y` hides both.
    assert!(!expr_has_free_var_from(
        &closure(&["x", "mut y"], binop(ident("x"), "+", ident("y"))),
        &vars
    ));
    // A `let` does not hide a name: `{ let x = 1; x }` counts `x`.
    let shadowing = block_expr(vec![let_stmt("x", literal("1"))], Some(ident("x")));
    assert!(expr_has_free_var_from(&shadowing, &names(&["x"])));
    // Paths and literals mention nothing.
    assert!(!expr_has_free_var_from(&path(&["x", "y"]), &vars));
    assert!(!expr_has_free_var_from(&literal("x"), &vars));
}

#[test]
fn pattern_binding_reads_whole_tokens() {
    assert!(pattern_binds_name(&"Some(ref mut f)".to_string(), &"f".to_string()));
    assert!(!pattern_binds_name(&"Some(fx)".to_string(), &"f".to_string()));
    assert!(!pattern_binds_name(&"(mut, x)".to_string(), &"mut".to_string()));
    assert!(pattern_binds_name(&"Point { x, y }".to_string(), &"y".to_string()));
}
