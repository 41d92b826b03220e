#![allow(dead_code)]
use rustlight_opt::ast::{Kind, Node, Nodes};
use rustlight_opt::model::node;

fn n(kind: Kind, text: &str, children: Vec<Node>) -> Node {
    node(kind, text.to_string(), children)
}

fn ident(name: &str) -> Node {
    n(Kind::Ident, name, vec![])
}

fn boolean(value: bool) -> Node {
    n(Kind::Bool(value), if value { "true" } else { "false" }, vec![])
}

fn literal(text: &str) -> Node {
    n(Kind::Literal, text, vec![])
}

fn absent() -> Node {
    n(Kind::Absent, "", vec![])
}

fn tail(expr: Node) -> Node {
    n(Kind::Tail, "", vec![expr])
}

fn block(mut stmts: Vec<Node>, expr: Option<Node>) -> Node {
    if let Some(expr) = expr {
        stmts.push(tail(expr));
    }
    n(Kind::Block, "", stmts)
}

fn block_expr(stmts: Vec<Node>, expr: Option<Node>) -> Node {
    n(Kind::BlockExpr, "", vec![block(stmts, expr)])
}

fn let_stmt(name: &str, init: Node) -> Node {
    n(Kind::Let { mutable: false }, name, vec![absent(), init])
}

fn path(segments: &[&str]) -> Node {
    n(
        Kind::Path { member: false },
        "",
        segments.iter().map(|s| n(Kind::Segment, s, vec![])).collect(),
    )
}

fn call(callee: Node, mut args: Vec<Node>) -> Node {
    args.insert(0, callee);
    n(Kind::Call, "", args)
}

fn method(receiver: Node, name: &str, mut args: Vec<Node>) -> Node {
    args.insert(0, receiver);
    n(Kind::MethodCall, name, args)
}

fn binop(left: Node, op: &str, right: Node) -> Node {
    n(Kind::BinaryOp, op, vec![left, right])
}

fn unop(op: &str, inner: Node) -> Node {
    n(Kind::UnaryOp, op, vec![inner])
}

fn parens(inner: Node) -> Node {
    n(Kind::Parenthesized, "", vec![inner])
}

fn if_else(condition: Node, then_branch: Node, else_branch: Node) -> Node {
    n(Kind::If, "", vec![condition, then_branch, else_branch])
}

fn named(name: &str) -> Node {
    n(Kind::TypeNamed, name, vec![])
}

fn generic(name: &str, bounds: &[&str]) -> Node {
    n(Kind::Generic, name, bounds.iter().map(|b| n(Kind::Bound, b, vec![])).collect())
}

fn param(name: &str, ty: Node) -> Node {
    n(Kind::Param, name, vec![ty])
}

fn function(name: &str, generics: Vec<Node>, params: Vec<Node>, ret: Node, body: Node) -> Node {
    n(
        Kind::Function { asyncness: false },
        name,
        vec![
            n(Kind::Visibility, "pub", vec![]),
            ret,
            n(Kind::Generics, "", generics),
            n(Kind::Params, "", params),
            body,
        ],
    )
}

fn module(items: Vec<Node>) -> Node {
    n(Kind::Module, "Test", items)
}

fn kids(node: &Node) -> Vec<&Node> {
    let mut out = Vec::new();
    let mut list = &node.children;
    while let Nodes::Cons(head, rest) = list {
        out.push(&**head);
        list = &**rest;
    }
    out
}

use rustlight_opt::bigint_shift::{lower_bigint_shifts, BigIntShiftAnalysis};

fn bigint_method(name: &str, params: &[&str], body: Node) -> Node {
    function(
        name,
        vec![],
        params.iter().map(|p| param(p, named("BigInt"))).collect(),
        named("BigInt"),
        body,
    )
}

fn impl_for_bigint(trait_name: &str, items: Vec<Node>) -> Node {
    let mut children = vec![n(Kind::Generics, "", vec![]), named("BigInt"), named(trait_name)];
    children.extend(items);
    n(Kind::Impl, "", children)
}

fn call_named(name: &str, args: Vec<Node>) -> Node {
    call(ident(name), args)
}

fn old_drop_bit_body() -> Node {
    block(vec![], Some(call_named("divide", vec![ident("k"), call_named("power", vec![call_named("two", vec![]), ident("n")])])))
}

fn body_match(method: &Node) -> &Node {
    let body = kids(method)[4];
    kids(kids(body)[0])[0]
}

fn segments(path: &Node) -> Vec<String> {
    kids(path).iter().map(|s| s.text.clone()).collect()
}

fn arm_value(arm: &Node) -> &Node {
    let body = kids(arm)[1];
    kids(kids(body)[0])[0]
}

#[test]
fn lowers_only_the_concrete_bigint_bit_operations_impl() {
    let push_bit = bigint_method("push_bit", &["n", "k"], block(vec![], Some(call_named("power", vec![ident("k"), ident("n")]))));
    let drop_bit = bigint_method("drop_bit", &["n", "k"], old_drop_bit_body());
    let mask = bigint_method(
        "mask",
        &["n"],
        block(vec![], Some(call_named("subtract", vec![call_named("power", vec![call_named("two", vec![]), ident("n")]), call_named("one", vec![])]))),
    );
    let other_drop_bit = bigint_method("drop_bit", &["n", "k"], old_drop_bit_body());
    let mut module = module(vec![
        impl_for_bigint("SemiringBitOperations", vec![push_bit, drop_bit, mask]),
        impl_for_bigint("OtherOperations", vec![other_drop_bit]),
    ]);

    let analysis = lower_bigint_shifts(&mut module);

    assert_eq!(analysis, BigIntShiftAnalysis { push_bit_methods: 1, drop_bit_methods: 1, mask_methods: 1 });
    let lowered = kids(kids(&module)[0]);
    let push = body_match(lowered[3]);
    assert!(push.kind == Kind::Match);
    let count = kids(push)[0];
    assert_eq!(segments(kids(count)[0]), vec!["num_traits", "ToPrimitive", "to_usize"]);
    let magnitude = kids(count)[1];
    assert!(magnitude.kind == Kind::MethodCall && magnitude.text == "magnitude");
    assert_eq!(kids(magnitude)[0].text, "n");
    let shifted = arm_value(kids(push)[1]);
    assert!(shifted.kind == Kind::BinaryOp && shifted.text == "<<");
    assert_eq!(kids(shifted)[0].text, "k");
    assert_eq!(kids(shifted)[1].text, "shift");
    let dropped = arm_value(kids(body_match(lowered[4]))[1]);
    assert!(dropped.kind == Kind::BinaryOp && dropped.text == ">>");
    assert_eq!(kids(dropped)[0].text, "k");
    let mask_value = arm_value(kids(body_match(lowered[5]))[1]);
    assert!(mask_value.kind == Kind::BinaryOp && mask_value.text == "-");
    let shifted_one = kids(kids(mask_value)[0])[0];
    assert!(shifted_one.kind == Kind::BinaryOp && shifted_one.text == "<<");
    assert_eq!(segments(kids(kids(shifted_one)[0])[0]), vec!["num_bigint", "BigInt", "from"]);
    assert_eq!(kids(kids(shifted_one)[0])[1].text, "1u8");
    let other = kids(kids(&module)[1]);
    assert!(format!("{:?}", other[3]) == format!("{:?}", bigint_method("drop_bit", &["n", "k"], old_drop_bit_body())));
}

#[test]
fn ignores_methods_with_non_bigint_signatures() {
    let drop_bit = function(
        "drop_bit",
        vec![],
        vec![param("n", named("usize")), param("k", named("BigInt"))],
        named("BigInt"),
        block(vec![], Some(ident("k"))),
    );
    let mut module = module(vec![impl_for_bigint("SemiringBitOperations", vec![drop_bit])]);
    let before = format!("{:?}", module);

    let analysis = lower_bigint_shifts(&mut module);

    assert_eq!(analysis, BigIntShiftAnalysis::default());
    assert_eq!(format!("{:?}", module), before);
}

#[test]
fn right_shift_overflow_keeps_the_sign() {
    let drop_bit = bigint_method("drop_bit", &["n", "k"], old_drop_bit_body());
    let mut module = module(vec![impl_for_bigint("num::SemiringBitOperations", vec![drop_bit])]);

    let analysis = lower_bigint_shifts(&mut module);

    assert_eq!(analysis.drop_bit_methods, 1);
    let lowered = body_match(kids(kids(&module)[0])[3]);
    let overflow = arm_value(kids(lowered)[2]);
    assert!(overflow.kind == Kind::If);
    let condition = kids(overflow)[0];
    assert_eq!(condition.text, "==");
    assert_eq!(segments(kids(condition)[1]), vec!["num_bigint", "Sign", "Minus"]);
    let zero = kids(kids(kids(overflow)[2])[0])[0];
    assert_eq!(segments(zero), vec!["num_bigint", "BigInt", "ZERO"]);
}

#[test]
fn lowering_twice_gives_the_same_tree() {
    let push_bit = bigint_method("push_bit", &["n", "k"], block(vec![], Some(ident("k"))));
    let mut module = module(vec![impl_for_bigint("SemiringBitOperations", vec![push_bit])]);
    lower_bigint_shifts(&mut module);
    let once = format!("{:?}", module);
    let again = lower_bigint_shifts(&mut module);
    assert_eq!(again.push_bit_methods, 1);
    assert_eq!(format!("{:?}", module), once);
}
