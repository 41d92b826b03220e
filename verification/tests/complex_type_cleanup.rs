#![allow(dead_code)]
use rustlight_opt::ast::{Kind, Node, Nodes};
use rustlight_opt::model::node;

fn n(kind: Kind, text: &str, children: Vec<Node>) -> Node {
    node(kind, text.to_string(), children)
}

fn ident(name: &str) -> Node {
    n(Kind::Ident, name, vec![])
}

fn boolean(value: bool) -> Node {
    n(Kind::Bool(value), if value { "true" } else { "false" }, vec![])
}

fn literal(text: &str) -> Node {
    n(Kind::Literal, text, vec![])
}

fn absent() -> Node {
    n(Kind::Absent, "", vec![])
}

fn tail(expr: Node) -> Node {
    n(Kind::Tail, "", vec![expr])
}

fn block(mut stmts: Vec<Node>, expr: Option<Node>) -> Node {
    if let Some(expr) = expr {
        stmts.push(tail(expr));
    }
    n(Kind::Block, "", stmts)
}

fn block_expr(stmts: Vec<Node>, expr: Option<Node>) -> Node {
    n(Kind::BlockExpr, "", vec![block(stmts, expr)])
}

fn let_stmt(name: &str, init: Node) -> Node {
    n(Kind::Let { mutable: false }, name, vec![absent(), init])
}

fn path(segments: &[&str]) -> Node {
    n(
        Kind::Path { member: false },
        "",
        segments.iter().map(|s| n(Kind::Segment, s, vec![])).collect(),
    )
}

fn call(callee: Node, mut args: Vec<Node>) -> Node {
    args.insert(0, callee);
    n(Kind::Call, "", args)
}

fn method(receiver: Node, name: &str, mut args: Vec<Node>) -> Node {
    args.insert(0, receiver);
    n(Kind::MethodCall, name, args)
}

fn binop(left: Node, op: &str, right: Node) -> Node {
    n(Kind::BinaryOp, op, vec![left, right])
}

fn unop(op: &str, inner: Node) -> Node {
    n(Kind::UnaryOp, op, vec![inner])
}

fn parens(inner: Node) -> Node {
    n(Kind::Parenthesized, "", vec![inner])
}

fn if_else(condition: Node, then_branch: Node, else_branch: Node) -> Node {
    n(Kind::If, "", vec![condition, then_branch, else_branch])
}

fn named(name: &str) -> Node {
    n(Kind::TypeNamed, name, vec![])
}

fn generic(name: &str, bounds: &[&str]) -> Node {
    n(Kind::Generic, name, bounds.iter().map(|b| n(Kind::Bound, b, vec![])).collect())
}

fn param(name: &str, ty: Node) -> Node {
    n(Kind::Param, name, vec![ty])
}

fn function(name: &str, generics: Vec<Node>, params: Vec<Node>, ret: Node, body: Node) -> Node {
    n(
        Kind::Function { asyncness: false },
        name,
        vec![
            n(Kind::Visibility, "pub", vec![]),
            ret,
            n(Kind::Generics, "", generics),
            n(Kind::Params, "", params),
            body,
        ],
    )
}

fn module(items: Vec<Node>) -> Node {
    n(Kind::Module, "Test", items)
}

fn kids(node: &Node) -> Vec<&Node> {
    let mut out = Vec::new();
    let mut list = &node.children;
    while let Nodes::Cons(head, rest) = list {
        out.push(&**head);
        list = &**rest;
    }
    out
}
use rustlight_opt::complex_type_cleanup::{cleanup_complex_types, ComplexTypeCleanupAnalysis};

fn generic_type(name: &str, args: Vec<Node>) -> Node {
    n(Kind::TypeGeneric, name, args)
}

fn dyn_fn(mut args: Vec<Node>, ret: Node) -> Node {
    args.push(ret);
    n(Kind::TypeCallable { dynamic: true }, "Fn", args)
}

fn impl_fn(mut args: Vec<Node>, ret: Node) -> Node {
    args.push(ret);
    n(Kind::TypeCallable { dynamic: false }, "Fn", args)
}

fn tuple_type(items: Vec<Node>) -> Node {
    n(Kind::TypeTuple, "", items)
}

fn shared_ref(inner: Node) -> Node {
    n(Kind::TypeRef { shared: true, mutable: false }, "", vec![inner])
}

fn unit() -> Node {
    n(Kind::TypeUnit, "", vec![])
}

fn use_item(source: &str) -> Node {
    n(Kind::Use, source, vec![])
}

fn empty_body() -> Node {
    block(vec![], None)
}

fn private_function(name: &str, generics: Vec<Node>, params: Vec<Node>, ret: Node, body: Node) -> Node {
    n(
        Kind::Function { asyncness: false },
        name,
        vec![
            n(Kind::Visibility, "", vec![]),
            ret,
            n(Kind::Generics, "", generics),
            n(Kind::Params, "", params),
            body,
        ],
    )
}

/// `Rc<dyn Fn(Rc<dyn Fn(T) -> (T, T)>, T) -> (T, T)>`
fn nested_callable(t: &str) -> Node {
    let pair = || tuple_type(vec![named(t), named(t)]);
    let inner = generic_type("Rc", vec![dyn_fn(vec![named(t)], pair())]);
    generic_type("Rc", vec![dyn_fn(vec![inner, named(t)], pair())])
}

/// `Rc<dyn Fn(T) -> (T, T)>`
fn small_callable(t: &str) -> Node {
    generic_type("Rc", vec![dyn_fn(vec![named(t)], tuple_type(vec![named(t), named(t)]))])
}

/// The source spelling of a type.
fn type_text(t: &Node) -> String {
    let parts: Vec<String> = kids(t).into_iter().map(type_text).collect();
    match t.kind {
        Kind::TypeNamed => t.text.clone(),
        Kind::TypeUnit => "()".to_string(),
        Kind::TypeGeneric => format!("{}<{}>", t.text, parts.join(", ")),
        Kind::TypeTuple => format!("({})", parts.join(", ")),
        Kind::TypeRef { mutable, .. } => {
            format!("&{}{}", if mutable { "mut " } else { "" }, parts.join(""))
        }
        Kind::TypeCallable { dynamic } => {
            let (ret, args) = parts.split_last().unwrap();
            format!(
                "{} {}({}) -> {}",
                if dynamic { "dyn" } else { "impl" },
                t.text,
                args.join(", "),
                ret
            )
        }
        _ => format!("{:?}", t.kind),
    }
}

fn param_type<'a>(function: &'a Node, index: usize) -> &'a Node {
    let params = kids(function)[3];
    kids(kids(params)[index])[0]
}

fn counts(aliases: usize, rewritten: usize) -> ComplexTypeCleanupAnalysis {
    ComplexTypeCleanupAnalysis { aliases_created: aliases, rewritten_types: rewritten }
}

#[test]
fn shares_one_generic_alias_across_alpha_renamed_functions() {
    let mut module = module(vec![
        use_item("use std::rc::Rc;"),
        function("first", vec![generic("A", &[])], vec![param("f", nested_callable("A"))], unit(), empty_body()),
        function("second", vec![generic("X", &[])], vec![param("f", nested_callable("X"))], unit(), empty_body()),
    ]);
    let analysis = cleanup_complex_types(&mut module);

    assert_eq!(analysis.aliases_created, 1);
    assert_eq!(analysis.rewritten_types, 2);
    let items = kids(&module);
    assert_eq!(items.len(), 4);
    assert_eq!(items[0].kind, Kind::Use);
    let alias = items[1];
    assert_eq!(alias.kind, Kind::TypeAlias);
    assert!(alias.text.starts_with("I2rComplexTypeH"));
    let parts = kids(alias);
    assert_eq!(parts[0].text, "pub");
    let params: Vec<&str> = kids(parts[1]).iter().map(|g| g.text.as_str()).collect();
    assert_eq!(params, vec!["I2rT0"]);
    assert_eq!(
        type_text(parts[2]),
        "Rc<dyn Fn(Rc<dyn Fn(I2rT0) -> (I2rT0, I2rT0)>, I2rT0) -> (I2rT0, I2rT0)>"
    );
    assert_eq!(type_text(param_type(items[2], 0)), format!("{}<A>", alias.text));
    assert_eq!(type_text(param_type(items[3], 0)), format!("{}<X>", alias.text));
}

#[test]
fn rewrites_casts_but_keeps_reference_outside_alias() {
    let closure = n(
        Kind::TypedClosure { moves: true },
        "",
        vec![
            block(vec![], Some(call(ident("g"), vec![ident("x")]))),
            tuple_type(vec![named("i32"), named("i32")]),
            n(Kind::ClosureParam, "g", vec![small_callable("i32")]),
            n(Kind::ClosureParam, "x", vec![named("i32")]),
        ],
    );
    let cast = n(
        Kind::Cast,
        "",
        vec![parens(call(path(&["Rc", "new"]), vec![closure])), nested_callable("i32")],
    );
    let body = block(vec![let_stmt("_g", cast)], None);
    let mut module = module(vec![
        use_item("use std::rc::Rc;"),
        function("borrow", vec![], vec![param("f", shared_ref(nested_callable("i32")))], unit(), body),
    ]);
    let analysis = cleanup_complex_types(&mut module);

    assert_eq!(analysis.aliases_created, 1);
    assert_eq!(analysis.rewritten_types, 2);
    let items = kids(&module);
    let alias = items[1];
    assert_eq!(alias.kind, Kind::TypeAlias);
    let target = kids(alias)[2];
    assert!(!matches!(target.kind, Kind::TypeRef { .. }));
    assert_eq!(type_text(param_type(items[2], 0)), format!("&{}", alias.text));
    let body = kids(items[2])[4];
    let binding = kids(body)[0];
    let cast = kids(binding)[1];
    assert_eq!(type_text(kids(cast)[1]), alias.text);
}

#[test]
fn leaves_impl_trait_types_unaliased() {
    let closure = n(
        Kind::Closure { moves: false },
        "",
        vec![ident("x"), n(Kind::ClosureParam, "x", vec![])],
    );
    let ret = impl_fn(vec![named("i32")], named("i32"));
    let mut module = module(vec![function("make", vec![], vec![], ret, block(vec![], Some(closure)))]);
    let analysis = cleanup_complex_types(&mut module);

    assert_eq!(analysis.aliases_created, 0);
    let items = kids(&module);
    assert_eq!(type_text(kids(items[0])[1]), "impl Fn(i32) -> i32");
}

#[test]
fn leaves_types_below_clippys_default_threshold_unaliased() {
    let ty = generic_type("Rc", vec![dyn_fn(vec![named("i32")], named("i32"))]);
    let mut module = module(vec![
        use_item("use std::rc::Rc;"),
        function("apply", vec![], vec![param("f", ty)], unit(), empty_body()),
    ]);
    let analysis = cleanup_complex_types(&mut module);

    assert_eq!(analysis.aliases_created, 0);
    assert_eq!(analysis.rewritten_types, 0);
}

#[test]
fn second_run_is_idempotent() {
    let mut module = module(vec![
        use_item("use std::rc::Rc;"),
        function("apply", vec![], vec![param("f", nested_callable("i32"))], unit(), empty_body()),
    ]);
    cleanup_complex_types(&mut module);
    let first = format!("{:?}", module);
    let second_analysis = cleanup_complex_types(&mut module);
    let second = format!("{:?}", module);

    assert_eq!(second_analysis.aliases_created, 0);
    assert_eq!(second_analysis.rewritten_types, 0);
    assert_eq!(first, second);
}

#[test]
fn alias_is_private_when_only_private_items_use_it() {
    let mut module = module(vec![private_function(
        "apply",
        vec![],
        vec![param("f", nested_callable("i32"))],
        unit(),
        empty_body(),
    )]);
    let analysis = cleanup_complex_types(&mut module);

    assert_eq!(analysis, counts(1, 1));
    let alias = kids(&module)[0];
    assert_eq!(alias.kind, Kind::TypeAlias);
    assert_eq!(kids(alias)[0].text, "");
    assert_eq!(kids(kids(alias)[1]).len(), 0);
}

#[test]
fn alias_name_avoids_an_item_of_the_same_name() {
    let mut probe = module(vec![function("apply", vec![], vec![param("f", nested_callable("i32"))], unit(), empty_body())]);
    cleanup_complex_types(&mut probe);
    let taken = kids(&probe)[0].text.clone();
    assert_eq!(taken.len(), "I2rComplexTypeH".len() + 16);
    assert!(taken["I2rComplexTypeH".len()..].chars().all(|c| c.is_ascii_digit() || ('A'..='F').contains(&c)));

    let existing = n(
        Kind::Struct,
        &taken,
        vec![n(Kind::Visibility, "", vec![]), n(Kind::Generics, "", vec![])],
    );
    let mut module = module(vec![
        existing,
        function("apply", vec![], vec![param("f", nested_callable("i32"))], unit(), empty_body()),
    ]);
    let analysis = cleanup_complex_types(&mut module);

    assert_eq!(analysis, counts(1, 1));
    let items = kids(&module);
    assert_eq!(items[0].kind, Kind::TypeAlias);
    assert_eq!(items[0].text, format!("{}N2", taken));
    assert_eq!(items[1].text, taken);
    assert_eq!(type_text(param_type(items[2], 0)), format!("{}N2", taken));
}

#[test]
fn nested_modules_get_their_own_aliases() {
    let inner = n(
        Kind::Module,
        "inner",
        vec![function("apply", vec![], vec![param("f", nested_callable("i32"))], unit(), empty_body())],
    );
    let mut module = module(vec![
        function("apply", vec![], vec![param("f", nested_callable("i32"))], unit(), empty_body()),
        inner,
    ]);
    let analysis = cleanup_complex_types(&mut module);

    assert_eq!(analysis, counts(2, 2));
    let items = kids(&module);
    assert_eq!(items.len(), 3);
    assert_eq!(items[0].kind, Kind::TypeAlias);
    let nested = kids(items[2]);
    assert_eq!(nested[0].kind, Kind::TypeAlias);
    assert_eq!(nested[0].text, items[0].text);
}

#[test]
fn impl_target_type_is_left_alone() {
    let method = function("apply", vec![], vec![param("f", nested_callable("i32"))], unit(), empty_body());
    let block_impl = n(
        Kind::Impl,
        "",
        vec![n(Kind::Generics, "", vec![]), nested_callable("u8"), absent(), method],
    );
    let mut module = module(vec![block_impl]);
    let analysis = cleanup_complex_types(&mut module);

    assert_eq!(analysis, counts(1, 1));
    let items = kids(&module);
    let alias = items[0];
    assert_eq!(kids(alias)[0].text, "pub");
    let parts = kids(items[1]);
    assert_eq!(type_text(parts[1]), type_text(&nested_callable("u8")));
    assert_eq!(type_text(param_type(parts[3], 0)), alias.text);
}

#[test]
fn existing_aliases_are_not_rewritten() {
    let existing = n(
        Kind::TypeAlias,
        "Handler",
        vec![n(Kind::Visibility, "pub", vec![]), n(Kind::Generics, "", vec![]), nested_callable("i32")],
    );
    let mut module = module(vec![existing]);
    let before = format!("{:?}", module);
    let analysis = cleanup_complex_types(&mut module);

    assert_eq!(analysis, counts(0, 0));
    assert_eq!(format!("{:?}", module), before);
}

#[test]
fn distinct_types_get_distinct_aliases_in_key_order() {
    let mut module = module(vec![
        function("first", vec![], vec![param("f", nested_callable("i32"))], unit(), empty_body()),
        function("second", vec![], vec![param("g", nested_callable("u64"))], unit(), empty_body()),
    ]);
    let analysis = cleanup_complex_types(&mut module);

    assert_eq!(analysis, counts(2, 2));
    let items = kids(&module);
    assert_eq!(items[0].kind, Kind::TypeAlias);
    assert_eq!(items[1].kind, Kind::TypeAlias);
    assert_ne!(items[0].text, items[1].text);
    // The keys name `i32` and `u64` in atoms tagged by length; `N3:i32` sorts
    // before `N3:u64`.
    assert_eq!(type_text(kids(items[0])[2]), type_text(&nested_callable("i32")));
    assert_eq!(type_text(param_type(items[2], 0)), items[0].text);
    assert_eq!(type_text(param_type(items[3], 0)), items[1].text);
}

fn fnv1a64(bytes: &[u8]) -> u64 {
    let mut hash = 0xcbf29ce484222325u64;
    for byte in bytes {
        hash ^= u64::from(*byte);
        hash = hash.wrapping_mul(0x100000001b3);
    }
    hash
}

fn expected_alias_name(key: &str) -> String {
    format!("I2rComplexTypeH{:016X}", fnv1a64(key.as_bytes()))
}

#[test]
fn alias_is_named_after_the_hash_of_its_key() {
    let mut module = module(vec![function("apply", vec![], vec![param("f", nested_callable("i32"))], unit(), empty_body())]);
    cleanup_complex_types(&mut module);

    let key = "G2:Rc[CD2:Fn[G2:Rc[CD2:Fn[N3:i32]->T[N3:i32,N3:i32]],N3:i32]->T[N3:i32,N3:i32]]";
    assert_eq!(kids(&module)[0].text, expected_alias_name(key));
}

#[test]
fn keys_measure_names_in_utf8_bytes_and_number_generic_parameters() {
    let mut module = module(vec![function(
        "apply",
        vec![generic("T", &[])],
        vec![param("f", nested_callable("Ωmega")), param("g", nested_callable("T"))],
        unit(),
        empty_body(),
    )]);
    let analysis = cleanup_complex_types(&mut module);

    assert_eq!(analysis, counts(2, 2));
    let omega = "G2:Rc[CD2:Fn[G2:Rc[CD2:Fn[N6:Ωmega]->T[N6:Ωmega,N6:Ωmega]],N6:Ωmega]->T[N6:Ωmega,N6:Ωmega]]";
    let generic = "G2:Rc[CD2:Fn[G2:Rc[CD2:Fn[V0]->T[V0,V0]],V0]->T[V0,V0]]";
    let names: Vec<String> = kids(&module)[..2].iter().map(|alias| alias.text.clone()).collect();
    // The aliases come in the order of their keys: `G2:Rc[CD2:Fn[G2:Rc[CD2:Fn[N..`
    // before `..[V..`.
    assert_eq!(names, vec![expected_alias_name(omega), expected_alias_name(generic)]);
}
