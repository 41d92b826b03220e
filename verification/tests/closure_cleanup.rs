#![allow(dead_code)]
use rustlight_opt::ast::{Kind, Node, Nodes};
use rustlight_opt::model::node;

fn n(kind: Kind, text: &str, children: Vec<Node>) -> Node {
    node(kind, text.to_string(), children)
}

fn ident(name: &str) -> Node {
    n(Kind::Ident, name, vec![])
}

fn boolean(value: bool) -> Node {
    n(Kind::Bool(value), if value { "true" } else { "false" }, vec![])
}

fn literal(text: &str) -> Node {
    n(Kind::Literal, text, vec![])
}

fn absent() -> Node {
    n(Kind::Absent, "", vec![])
}

fn tail(expr: Node) -> Node {
    n(Kind::Tail, "", vec![expr])
}

fn block(mut stmts: Vec<Node>, expr: Option<Node>) -> Node {
    if let Some(expr) = expr {
        stmts.push(tail(expr));
    }
    n(Kind::Block, "", stmts)
}

fn block_expr(stmts: Vec<Node>, expr: Option<Node>) -> Node {
    n(Kind::BlockExpr, "", vec![block(stmts, expr)])
}

fn let_stmt(name: &str, init: Node) -> Node {
    n(Kind::Let { mutable: false }, name, vec![absent(), init])
}

fn path(segments: &[&str]) -> Node {
    n(
        Kind::Path { member: false },
        "",
        segments.iter().map(|s| n(Kind::Segment, s, vec![])).collect(),
    )
}

fn call(callee: Node, mut args: Vec<Node>) -> Node {
    args.insert(0, callee);
    n(Kind::Call, "", args)
}

fn method(receiver: Node, name: &str, mut args: Vec<Node>) -> Node {
    args.insert(0, receiver);
    n(Kind::MethodCall, name, args)
}

fn binop(left: Node, op: &str, right: Node) -> Node {
    n(Kind::BinaryOp, op, vec![left, right])
}

fn unop(op: &str, inner: Node) -> Node {
    n(Kind::UnaryOp, op, vec![inner])
}

fn parens(inner: Node) -> Node {
    n(Kind::Parenthesized, "", vec![inner])
}

fn if_else(condition: Node, then_branch: Node, else_branch: Node) -> Node {
    n(Kind::If, "", vec![condition, then_branch, else_branch])
}

fn named(name: &str) -> Node {
    n(Kind::TypeNamed, name, vec![])
}

fn generic(name: &str, bounds: &[&str]) -> Node {
    n(Kind::Generic, name, bounds.iter().map(|b| n(Kind::Bound, b, vec![])).collect())
}

fn param(name: &str, ty: Node) -> Node {
    n(Kind::Param, name, vec![ty])
}

fn function(name: &str, generics: Vec<Node>, params: Vec<Node>, ret: Node, body: Node) -> Node {
    n(
        Kind::Function { asyncness: false },
        name,
        vec![
            n(Kind::Visibility, "pub", vec![]),
            ret,
            n(Kind::Generics, "", generics),
            n(Kind::Params, "", params),
            body,
        ],
    )
}

fn module(items: Vec<Node>) -> Node {
    n(Kind::Module, "Test", items)
}

fn kids(node: &Node) -> Vec<&Node> {
    let mut out = Vec::new();
    let mut list = &node.children;
    while let Nodes::Cons(head, rest) = list {
        out.push(&**head);
        list = &**rest;
    }
    out
}

use rustlight_opt::closure_cleanup::optimize_closure;

fn closure_param(name: &str, ty: &str) -> Node {
    n(Kind::ClosureParam, name, vec![named(ty)])
}

fn move_closure(params: Vec<Node>, body: Node) -> Node {
    let mut children = vec![body];
    children.extend(params);
    n(Kind::Closure { moves: true }, "", children)
}

fn rc_new(closure: Node) -> Node {
    call(path(&["Rc", "new"]), vec![closure])
}

fn clone_of(name: &str) -> Node {
    method(ident(name), "clone", vec![])
}

fn fn_with_body(body: Node) -> Node {
    module(vec![function("make", vec![], vec![param("n", named("Int"))], named("Int"), body)])
}

fn body_block(module: &Node, index: usize) -> &Node {
    kids(kids(module)[index])[4]
}

fn stmts_of(block: &Node) -> Vec<&Node> {
    kids(block).into_iter().filter(|s| s.kind != Kind::Tail).collect()
}

fn tail_of(block: &Node) -> &Node {
    kids(kids(block).into_iter().find(|s| s.kind == Kind::Tail).unwrap())[0]
}

fn mentions(node: &Node, text: &str) -> bool {
    format!("{:?}", node).contains(&format!("{:?}", text))
}

#[test]
fn keeps_alias_when_original_name_is_a_closure_parameter() {
    let body = block_expr(vec![], Some(call(ident("plus_int"), vec![ident("n"), clone_of("n_cap")])));
    let tail = rc_new(move_closure(vec![closure_param("n", "Int")], body));
    let mut module = fn_with_body(block(vec![let_stmt("n_cap", ident("n"))], Some(tail)));

    let analysis = optimize_closure(&mut module);

    assert_eq!(analysis.capture_alias_eliminations, 0);
    let body = body_block(&module, 0);
    assert_eq!(stmts_of(body).len(), 1);
    assert_eq!(stmts_of(body)[0].text, "n_cap");
    assert!(mentions(tail_of(body), "n_cap"));
}

#[test]
fn keeps_unused_outer_alias_when_body_shadows_alias_name() {
    let body = block_expr(vec![let_stmt("n_cap", ident("x"))], Some(ident("n_cap")));
    let tail = rc_new(move_closure(vec![closure_param("x", "Int")], body));
    let mut module = fn_with_body(block(vec![let_stmt("n_cap", ident("n"))], Some(tail)));

    let analysis = optimize_closure(&mut module);

    assert_eq!(analysis.capture_alias_eliminations, 0);
    assert_eq!(stmts_of(body_block(&module, 0)).len(), 1);
}

#[test]
fn eliminates_multiple_capture_aliases() {
    let sum = call(ident("plus_int"), vec![clone_of("x_cap"), clone_of("y_cap")]);
    let body = block_expr(vec![], Some(call(ident("plus_int"), vec![ident("z"), sum])));
    let tail = rc_new(move_closure(vec![closure_param("z", "Int")], body));
    let mut module = fn_with_body(block(
        vec![let_stmt("x_cap", ident("x")), let_stmt("y_cap", ident("y"))],
        Some(tail),
    ));

    let analysis = optimize_closure(&mut module);

    assert_eq!(analysis.capture_alias_eliminations, 2);
    let body = body_block(&module, 0);
    assert!(stmts_of(body).is_empty());
    let tail = tail_of(body);
    assert!(tail.kind == Kind::Call);
    assert_eq!(kids(kids(tail)[0])[0].text, "Rc");
    let closure = kids(tail)[1];
    let result = tail_of(kids(kids(closure)[0])[0]);
    let inner = kids(result)[2];
    assert_eq!(kids(kids(inner)[1])[0].text, "x");
    assert_eq!(kids(kids(inner)[2])[0].text, "y");
    assert!(!mentions(tail, "x_cap") && !mentions(tail, "y_cap"));
}

#[test]
fn keeps_forwarder_to_backend_closure_factory() {
    let deref_call = call(parens(unop("*", ident("f_cap"))), vec![ident("x")]);
    let choice = if_else(
        binop(ident("x"), "==", ident("key_cap")),
        block(vec![], Some(ident("value_cap"))),
        block(vec![], Some(deref_call)),
    );
    let upd_tail = rc_new(move_closure(vec![closure_param("x", "u8")], block_expr(vec![], Some(choice))));
    let fun_upd = function(
        "fun_upd",
        vec![],
        vec![param("f", named("RegisterFile")), param("key", named("u8")), param("value", named("u64"))],
        named("RegisterFile"),
        block(
            vec![let_stmt("f_cap", ident("f")), let_stmt("key_cap", ident("key")), let_stmt("value_cap", ident("value"))],
            Some(upd_tail),
        ),
    );
    let forwarded = call(
        parens(unop("*", call(ident("fun_upd"), vec![clone_of("rs"), ident("key"), ident("value")]))),
        vec![ident("x")],
    );
    let typed = n(
        Kind::TypedClosure { moves: true },
        "",
        vec![block_expr(vec![], Some(forwarded)), named("u64"), closure_param("x", "u8")],
    );
    let cast = n(Kind::Cast, "", vec![parens(block_expr(vec![], Some(rc_new(typed)))), named("RegisterFile")]);
    let update = function(
        "update",
        vec![],
        vec![param("key", named("u8")), param("value", named("u64")), param("rs", named("RegisterFile"))],
        named("RegisterFile"),
        block(vec![], Some(parens(cast))),
    );
    let alias = n(Kind::Opaque(0), "type RegisterFile = Rc<dyn Fn(u8) -> u64>;", vec![]);
    let mut module = module(vec![alias, fun_upd, update]);
    let update_before = format!("{:?}", kids(&module)[2]);

    let analysis = optimize_closure(&mut module);

    assert_eq!(analysis.capture_alias_eliminations, 3);
    assert!(stmts_of(body_block(&module, 1)).is_empty());
    let upd = tail_of(body_block(&module, 1));
    assert!(upd.kind == Kind::Call && mentions(upd, "value") && !mentions(upd, "value_cap"));
    assert_eq!(format!("{:?}", kids(&module)[2]), update_before);
}

#[test]
fn keeps_alias_that_is_not_read() {
    let body = block_expr(vec![], Some(ident("z")));
    let tail = rc_new(move_closure(vec![closure_param("z", "Int")], body));
    let mut module = fn_with_body(block(vec![let_stmt("x_cap", ident("x"))], Some(tail)));

    let analysis = optimize_closure(&mut module);

    assert_eq!(analysis.capture_alias_eliminations, 0);
}

#[test]
fn keeps_alias_whose_original_is_still_read() {
    let body = block_expr(vec![], Some(call(ident("pair"), vec![ident("x_cap"), ident("x")])));
    let tail = rc_new(move_closure(vec![closure_param("z", "Int")], body));
    let mut module = fn_with_body(block(vec![let_stmt("x_cap", ident("x"))], Some(tail)));

    let analysis = optimize_closure(&mut module);

    assert_eq!(analysis.capture_alias_eliminations, 0);
}

#[test]
fn folds_capture_moves_exposed_inside_nested_blocks() {
    let inner_tail = rc_new(move_closure(vec![], block_expr(vec![], Some(clone_of("a_cap")))));
    let inner = block_expr(vec![let_stmt("a_cap", ident("a"))], Some(inner_tail));
    let mut module = fn_with_body(block(vec![let_stmt("v", inner)], Some(ident("v"))));

    let analysis = optimize_closure(&mut module);

    assert_eq!(analysis.capture_alias_eliminations, 1);
    assert!(!mentions(&module, "a_cap"));
}

#[test]
fn keeps_immediately_invoked_rc_closure() {
    // `(*Rc::new(move |xa: A| { xa.clone() }))(x.clone())`; the argument
    // stays `x.clone()` here, since dropping that clone is the last-use
    // pass's work.
    let closure = move_closure(vec![closure_param("xa", "A")], block_expr(vec![], Some(clone_of("xa"))));
    let invoked = call(parens(unop("*", rc_new(closure))), vec![clone_of("x")]);
    let id_abs = function(
        "id_abs",
        vec![generic("A", &["Clone", "'static"])],
        vec![param("x", named("A"))],
        named("A"),
        block(vec![], Some(invoked)),
    );
    let mut module = module(vec![id_abs]);

    let analysis = optimize_closure(&mut module);

    assert_eq!(analysis.capture_alias_eliminations, 0);
    let tail = tail_of(body_block(&module, 0));
    assert!(tail.kind == Kind::Call);
    let deref = kids(kids(tail)[0])[0];
    let rc_call = kids(deref)[0];
    let callee = kids(rc_call)[0];
    assert_eq!(kids(callee)[0].text, "Rc");
    assert_eq!(kids(callee)[1].text, "new");
    let closure = kids(rc_call)[1];
    assert!(closure.kind == Kind::Closure { moves: true });
    let params = &kids(closure)[1..];
    assert_eq!(params.len(), 1);
    assert_eq!(params[0].text, "xa");
    assert_eq!(kids(params[0])[0].text, "A");
    let arg = kids(tail)[1];
    assert!(arg.kind == Kind::MethodCall && arg.text == "clone");
    assert_eq!(kids(arg)[0].text, "x");
}
