#![allow(dead_code)]
use rustlight_opt::ast::{Kind, Node, Nodes};
use rustlight_opt::model::node;

fn n(kind: Kind, text: &str, children: Vec<Node>) -> Node {
    node(kind, text.to_string(), children)
}

fn ident(name: &str) -> Node {
    n(Kind::Ident, name, vec![])
}

fn boolean(value: bool) -> Node {
    n(Kind::Bool(value), if value { "true" } else { "false" }, vec![])
}

fn literal(text: &str) -> Node {
    n(Kind::Literal, text, vec![])
}

fn absent() -> Node {
    n(Kind::Absent, "", vec![])
}

fn tail(expr: Node) -> Node {
    n(Kind::Tail, "", vec![expr])
}

fn block(mut stmts: Vec<Node>, expr: Option<Node>) -> Node {
    if let Some(expr) = expr {
        stmts.push(tail(expr));
    }
    n(Kind::Block, "", stmts)
}

fn block_expr(stmts: Vec<Node>, expr: Option<Node>) -> Node {
    n(Kind::BlockExpr, "", vec![block(stmts, expr)])
}

fn let_stmt(name: &str, init: Node) -> Node {
    n(Kind::Let { mutable: false }, name, vec![absent(), init])
}

fn path(segments: &[&str]) -> Node {
    n(
        Kind::Path { member: false },
        "",
        segments.iter().map(|s| n(Kind::Segment, s, vec![])).collect(),
    )
}

fn call(callee: Node, mut args: Vec<Node>) -> Node {
    args.insert(0, callee);
    n(Kind::Call, "", args)
}

fn method(receiver: Node, name: &str, mut args: Vec<Node>) -> Node {
    args.insert(0, receiver);
    n(Kind::MethodCall, name, args)
}

fn binop(left: Node, op: &str, right: Node) -> Node {
    n(Kind::BinaryOp, op, vec![left, right])
}

fn unop(op: &str, inner: Node) -> Node {
    n(Kind::UnaryOp, op, vec![inner])
}

fn parens(inner: Node) -> Node {
    n(Kind::Parenthesized, "", vec![inner])
}

fn if_else(condition: Node, then_branch: Node, else_branch: Node) -> Node {
    n(Kind::If, "", vec![condition, then_branch, else_branch])
}

fn named(name: &str) -> Node {
    n(Kind::TypeNamed, name, vec![])
}

fn generic(name: &str, bounds: &[&str]) -> Node {
    n(Kind::Generic, name, bounds.iter().map(|b| n(Kind::Bound, b, vec![])).collect())
}

fn param(name: &str, ty: Node) -> Node {
    n(Kind::Param, name, vec![ty])
}

fn function(name: &str, generics: Vec<Node>, params: Vec<Node>, ret: Node, body: Node) -> Node {
    n(
        Kind::Function { asyncness: false },
        name,
        vec![
            n(Kind::Visibility, "pub", vec![]),
            ret,
            n(Kind::Generics, "", generics),
            n(Kind::Params, "", params),
            body,
        ],
    )
}

fn module(items: Vec<Node>) -> Node {
    n(Kind::Module, "Test", items)
}

fn kids(node: &Node) -> Vec<&Node> {
    let mut out = Vec::new();
    let mut list = &node.children;
    while let Nodes::Cons(head, rest) = list {
        out.push(&**head);
        list = &**rest;
    }
    out
}

use rustlight_opt::bound_cleanup::{cleanup_bounds, BoundCleanupAnalysis};

fn generated(name: &str) -> Node {
    generic(name, &["Clone", "'static"])
}

fn bounds_of(module: &Node, function: usize, generic: usize) -> Vec<String> {
    let f = kids(module)[function];
    let generics = kids(f)[2];
    kids(kids(generics)[generic]).iter().map(|b| b.text.clone()).collect()
}

fn tuple_type(items: Vec<Node>) -> Node {
    n(Kind::TypeTuple, "", items)
}

#[test]
fn removes_generated_bounds_from_identity_function() {
    let f = function("id", vec![generated("A")], vec![param("x", named("A"))], named("A"), block(vec![], Some(ident("x"))));
    let mut module = module(vec![f]);

    let analysis = cleanup_bounds(&mut module);

    assert!(bounds_of(&module, 0, 0).is_empty());
    assert_eq!(analysis.removed_clone_bounds, 1);
    assert_eq!(analysis.removed_static_bounds, 1);
    assert_eq!(analysis.changed_functions, 1);
}

#[test]
fn removes_generated_bounds_from_tuple_projection() {
    let body = block(vec![let_stmt("(_, value)", ident("x"))], Some(ident("value")));
    let f = function(
        "snd",
        vec![generated("A"), generated("B")],
        vec![param("x", tuple_type(vec![named("A"), named("B")]))],
        named("B"),
        body,
    );
    let mut module = module(vec![f]);

    let analysis = cleanup_bounds(&mut module);

    assert!(bounds_of(&module, 0, 0).is_empty());
    assert!(bounds_of(&module, 0, 1).is_empty());
    assert_eq!(analysis.removed_clone_bounds, 2);
    assert_eq!(analysis.removed_static_bounds, 2);
}

#[test]
fn keeps_clone_but_removes_static_from_direct_clone() {
    let body = block(vec![], Some(method(ident("x"), "clone", vec![])));
    let f = function("duplicate", vec![generated("A")], vec![param("x", named("A"))], named("A"), body);
    let mut module = module(vec![f]);

    let analysis = cleanup_bounds(&mut module);

    assert_eq!(bounds_of(&module, 0, 0), vec!["Clone".to_string()]);
    assert_eq!(analysis.removed_clone_bounds, 0);
    assert_eq!(analysis.removed_static_bounds, 1);
}

#[test]
fn keeps_bounds_across_calls_and_closures() {
    let called_body = block(vec![], Some(call(ident("helper"), vec![ident("x")])));
    let called = function("caller", vec![generated("A")], vec![param("x", named("A"))], named("A"), called_body);
    let mut called_module = module(vec![called]);
    let called_analysis = cleanup_bounds(&mut called_module);

    let closure = n(Kind::Closure { moves: true }, "", vec![ident("x")]);
    let closed_body = block(vec![], Some(call(parens(closure), vec![])));
    let closed = function("close", vec![generated("A")], vec![param("x", named("A"))], named("A"), closed_body);
    let mut closed_module = module(vec![closed]);
    let closed_analysis = cleanup_bounds(&mut closed_module);

    assert_eq!(bounds_of(&called_module, 0, 0), vec!["Clone".to_string(), "'static".to_string()]);
    assert_eq!(bounds_of(&closed_module, 0, 0), vec!["Clone".to_string(), "'static".to_string()]);
    assert_eq!(called_analysis.changed_functions, 0);
    assert_eq!(closed_analysis.changed_functions, 0);
}

#[test]
fn keeps_bounds_for_generic_wrappers_and_impls() {
    let wrapper = || n(Kind::TypeGeneric, "Wrapper", vec![named("A")]);
    let wrapped = function("unwrap", vec![generated("A")], vec![param("x", wrapper())], wrapper(), block(vec![], Some(ident("x"))));
    let mut wrapped_module = module(vec![wrapped]);
    let wrapped_analysis = cleanup_bounds(&mut wrapped_module);

    let method = function("value", vec![], vec![param("x", named("A"))], named("A"), block(vec![], Some(ident("x"))));
    let implementation = n(
        Kind::Impl,
        "",
        vec![n(Kind::Generics, "", vec![generated("A")]), wrapper(), named("Trait"), method],
    );
    let mut implemented_module = module(vec![implementation]);
    let implemented_analysis = cleanup_bounds(&mut implemented_module);

    assert_eq!(bounds_of(&wrapped_module, 0, 0), vec!["Clone".to_string(), "'static".to_string()]);
    let impl_generics = kids(kids(&implemented_module)[0])[0];
    let impl_bounds: Vec<String> = kids(kids(impl_generics)[0]).iter().map(|b| b.text.clone()).collect();
    assert_eq!(impl_bounds, vec!["Clone".to_string(), "'static".to_string()]);
    assert_eq!(wrapped_analysis.changed_functions, 0);
    assert_eq!(implemented_analysis.changed_functions, 0);
}

#[test]
fn preserves_non_generated_bounds() {
    let f = function(
        "id",
        vec![generic("A", &["Clone", "Equal", "'static"])],
        vec![param("x", named("A"))],
        named("A"),
        block(vec![], Some(ident("x"))),
    );
    let mut module = module(vec![f]);

    let analysis = cleanup_bounds(&mut module);

    assert_eq!(bounds_of(&module, 0, 0), vec!["Equal".to_string()]);
    assert_eq!(analysis.removed_clone_bounds, 1);
    assert_eq!(analysis.removed_static_bounds, 1);
}

#[test]
fn keeps_bounds_that_another_bound_mentions() {
    let f = function(
        "pair",
        vec![generated("A"), generic("B", &["Clone", "'static", "Trait<A>"])],
        vec![param("x", named("A")), param("y", named("B"))],
        named("A"),
        block(vec![], Some(ident("x"))),
    );
    let mut module = module(vec![f]);

    let analysis = cleanup_bounds(&mut module);

    assert_eq!(bounds_of(&module, 0, 0), vec!["Clone".to_string(), "'static".to_string()]);
    assert_eq!(bounds_of(&module, 0, 1), vec!["Trait<A>".to_string()]);
    assert_eq!(analysis.removed_clone_bounds, 1);
    assert_eq!(analysis.removed_static_bounds, 1);
    assert_eq!(analysis.changed_functions, 1);
}

#[test]
fn reaches_functions_of_inner_modules_only() {
    let inner = n(
        Kind::Module,
        "inner",
        vec![function("id", vec![generated("A")], vec![param("x", named("A"))], named("A"), block(vec![], Some(ident("x"))))],
    );
    let mut module = module(vec![inner]);

    let analysis = cleanup_bounds(&mut module);

    assert_eq!(analysis, BoundCleanupAnalysis { removed_clone_bounds: 1, removed_static_bounds: 1, changed_functions: 1 });
}
