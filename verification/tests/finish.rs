#![allow(dead_code)]
use rustlight_opt::ast::{Kind, Node, Nodes};
use rustlight_opt::model::node;

fn n(kind: Kind, text: &str, children: Vec<Node>) -> Node {
    node(kind, text.to_string(), children)
}

fn ident(name: &str) -> Node {
    n(Kind::Ident, name, vec![])
}

fn boolean(value: bool) -> Node {
    n(Kind::Bool(value), if value { "true" } else { "false" }, vec![])
}

fn literal(text: &str) -> Node {
    n(Kind::Literal, text, vec![])
}

fn absent() -> Node {
    n(Kind::Absent, "", vec![])
}

fn tail(expr: Node) -> Node {
    n(Kind::Tail, "", vec![expr])
}

fn block(mut stmts: Vec<Node>, expr: Option<Node>) -> Node {
    if let Some(expr) = expr {
        stmts.push(tail(expr));
    }
    n(Kind::Block, "", stmts)
}

fn block_expr(stmts: Vec<Node>, expr: Option<Node>) -> Node {
    n(Kind::BlockExpr, "", vec![block(stmts, expr)])
}

fn let_stmt(name: &str, init: Node) -> Node {
    n(Kind::Let { mutable: false }, name, vec![absent(), init])
}

fn path(segments: &[&str]) -> Node {
    n(
        Kind::Path { member: false },
        "",
        segments.iter().map(|s| n(Kind::Segment, s, vec![])).collect(),
    )
}

fn call(callee: Node, mut args: Vec<Node>) -> Node {
    args.insert(0, callee);
    n(Kind::Call, "", args)
}

fn method(receiver: Node, name: &str, mut args: Vec<Node>) -> Node {
    args.insert(0, receiver);
    n(Kind::MethodCall, name, args)
}

fn binop(left: Node, op: &str, right: Node) -> Node {
    n(Kind::BinaryOp, op, vec![left, right])
}

fn unop(op: &str, inner: Node) -> Node {
    n(Kind::UnaryOp, op, vec![inner])
}

fn parens(inner: Node) -> Node {
    n(Kind::Parenthesized, "", vec![inner])
}

fn if_else(condition: Node, then_branch: Node, else_branch: Node) -> Node {
    n(Kind::If, "", vec![condition, then_branch, else_branch])
}

fn named(name: &str) -> Node {
    n(Kind::TypeNamed, name, vec![])
}

fn generic(name: &str, bounds: &[&str]) -> Node {
    n(Kind::Generic, name, bounds.iter().map(|b| n(Kind::Bound, b, vec![])).collect())
}

fn param(name: &str, ty: Node) -> Node {
    n(Kind::Param, name, vec![ty])
}

fn function(name: &str, generics: Vec<Node>, params: Vec<Node>, ret: Node, body: Node) -> Node {
    n(
        Kind::Function { asyncness: false },
        name,
        vec![
            n(Kind::Visibility, "pub", vec![]),
            ret,
            n(Kind::Generics, "", generics),
            n(Kind::Params, "", params),
            body,
        ],
    )
}

fn module(items: Vec<Node>) -> Node {
    n(Kind::Module, "Test", items)
}

fn kids(node: &Node) -> Vec<&Node> {
    let mut out = Vec::new();
    let mut list = &node.children;
    while let Nodes::Cons(head, rest) = list {
        out.push(&**head);
        list = &**rest;
    }
    out
}
use rustlight_opt::finish::finish_module;
use rustlight_opt::pipeline::PipelineOptions;

fn generic_type(name: &str, args: Vec<Node>) -> Node {
    n(Kind::TypeGeneric, name, args)
}

fn dyn_fn(mut args: Vec<Node>, ret: Node) -> Node {
    args.push(ret);
    n(Kind::TypeCallable { dynamic: true }, "Fn", args)
}

fn nested_callable(t: &str) -> Node {
    let pair = || n(Kind::TypeTuple, "", vec![named(t), named(t)]);
    let inner = generic_type("Rc", vec![dyn_fn(vec![named(t)], pair())]);
    generic_type("Rc", vec![dyn_fn(vec![inner, named(t)], pair())])
}

#[test]
fn finishing_runs_the_cleanups_in_order() {
    let negated = unop("!", parens(binop(ident("left"), "==", ident("right"))));
    let function = function(
        "check",
        vec![],
        vec![param("f", nested_callable("i32"))],
        named("bool"),
        block(vec![], Some(negated)),
    );
    let mut module = module(vec![function]);
    finish_module(&mut module, PipelineOptions::default());

    let items = kids(&module);
    assert_eq!(items.len(), 2);
    assert_eq!(items[0].kind, Kind::TypeAlias);
    let body = kids(items[1])[4];
    let tail = kids(body)[0];
    let folded = kids(tail)[0];
    assert_eq!(folded.kind, Kind::BinaryOp);
    assert_eq!(folded.text, "!=");
}

#[test]
fn finishing_twice_adds_no_second_alias() {
    let function = function("apply", vec![], vec![param("f", nested_callable("i32"))], n(Kind::TypeUnit, "", vec![]), block(vec![], None));
    let mut module = module(vec![function]);
    finish_module(&mut module, PipelineOptions::default());
    let once = format!("{:?}", module);
    finish_module(&mut module, PipelineOptions::default());
    assert_eq!(format!("{:?}", module), once);
}
