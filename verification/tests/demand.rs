use rustlight_opt::ast::{Kind, Node};
use rustlight_opt::demand::{
    derived_borrow_alias_origin, interface_borrow_safe, local_rewrite_safe, prefer_owned, Demand,
    DerivedOrigins, DupUse, Materialization, MoveUse, Origin,
};
use rustlight_opt::model::node;
use rustlight_opt::module_scope::ModuleScope;

fn n(kind: Kind, text: &str, children: Vec<Node>) -> Node {
    node(kind, text.to_string(), children)
}

fn ident(name: &str) -> Node {
    n(Kind::Ident, name, vec![])
}

fn parens(inner: Node) -> Node {
    n(Kind::Parenthesized, "", vec![inner])
}

fn returned(origin: Origin) -> Demand {
    Demand::Move(MoveUse::Return(origin, "y".to_string()), Materialization::Available)
}

fn sunk(origin: Origin, m: Materialization) -> Demand {
    Demand::Move(MoveUse::OwnedSink(origin, "y".to_string()), m)
}

fn s(name: &str) -> String {
    name.to_string()
}

#[test]
fn observing_borrowing_and_duplicating_are_locally_safe() {
    let ds = vec![Demand::Obs, Demand::Bor, Demand::Dup(DupUse::ExplicitClone), Demand::Dup(DupUse::CopyUse)];
    assert!(local_rewrite_safe(&ds));
    assert!(interface_borrow_safe(&ds));
    assert!(!prefer_owned(&ds, true));
    assert!(local_rewrite_safe(&vec![]));
}

#[test]
fn materializable_moves_are_safe_to_share_but_not_locally() {
    let ds = vec![Demand::Obs, sunk(Origin::Payload, Materialization::Available), Demand::AggregatePayloadReturn];
    assert!(!local_rewrite_safe(&ds));
    assert!(interface_borrow_safe(&ds));
    let ds = vec![sunk(Origin::Payload, Materialization::Unavailable)];
    assert!(!interface_borrow_safe(&ds));
}

#[test]
fn escapes_and_unknown_forms_block_sharing() {
    assert!(!interface_borrow_safe(&vec![Demand::Bor, Demand::Esc]));
    assert!(!interface_borrow_safe(&vec![Demand::Unk]));
    assert!(!local_rewrite_safe(&vec![Demand::Esc]));
}

#[test]
fn structural_moves_and_consumed_payloads_prefer_ownership() {
    assert!(prefer_owned(&vec![returned(Origin::Structure)], false));
    assert!(prefer_owned(&vec![sunk(Origin::Structure, Materialization::Available)], false));
    assert!(prefer_owned(&vec![sunk(Origin::Payload, Materialization::Available)], false));
    assert!(prefer_owned(
        &vec![Demand::Move(MoveUse::ClosureCapture(Origin::Payload, s("y")), Materialization::Unavailable)],
        false
    ));
    assert!(prefer_owned(&vec![Demand::Obs, Demand::AggregatePayloadReturn], false));
}

#[test]
fn returned_payload_prefers_ownership_only_when_rebuilding_the_family() {
    let ds = vec![Demand::Obs, returned(Origin::Payload)];
    assert!(!prefer_owned(&ds, false));
    assert!(prefer_owned(&ds, true));
}

#[test]
fn derived_origins_track_structure_and_payloads() {
    let mut d = DerivedOrigins::with_root_family("xs", Some(s("List")));
    assert!(d.contains(&s("xs")));
    assert!(!d.is_empty());
    assert_eq!(d.origin(&s("xs")), Some(Origin::Structure));
    assert_eq!(d.origin(&s("h")), None);
    d.insert(s("h"), Origin::Payload);
    d.insert(s("t"), Origin::Structure);
    assert_eq!(d.origin(&s("h")), Some(Origin::Payload));
    assert_eq!(d.origin(&s("t")), Some(Origin::Structure));
    d.insert(s("t"), Origin::Payload);
    assert_eq!(d.origin(&s("t")), Some(Origin::Payload));
    assert_eq!(d.all.len(), 3);
    d.remove(&s("h"));
    assert_eq!(d.origin(&s("h")), None);
    assert_eq!(d.root_family, Some(s("List")));
}

#[test]
fn without_forgets_exactly_the_given_names() {
    let mut d = DerivedOrigins::with_root_family("xs", None);
    d.insert(s("t"), Origin::Structure);
    d.insert(s("h"), Origin::Payload);
    let e = d.without(&vec![s("t"), s("zz")]);
    assert_eq!(e.origin(&s("t")), None);
    assert_eq!(e.origin(&s("h")), Some(Origin::Payload));
    assert_eq!(e.origin(&s("xs")), Some(Origin::Structure));
    assert_eq!(d.origin(&s("t")), Some(Origin::Structure));
    let empty = DerivedOrigins::with_root_family("xs", None).without(&vec![s("xs")]);
    assert!(empty.is_empty());
}

#[test]
fn borrow_aliases_carry_the_origin_of_their_name() {
    let mut d = DerivedOrigins::with_root_family("xs", None);
    d.insert(s("h"), Origin::Payload);
    assert_eq!(derived_borrow_alias_origin(&parens(ident("xs")), &d), Some(Origin::Structure));
    let deref = n(Kind::UnaryOp, "*", vec![parens(ident("h"))]);
    assert_eq!(derived_borrow_alias_origin(&deref, &d), Some(Origin::Payload));
    let as_ref = n(Kind::MethodCall, "as_ref", vec![ident("xs")]);
    assert_eq!(derived_borrow_alias_origin(&as_ref, &d), Some(Origin::Structure));
    let shared = n(Kind::Reference { mutable: false, raw: false }, "", vec![ident("h")]);
    assert_eq!(derived_borrow_alias_origin(&shared, &d), Some(Origin::Payload));
    // Owned materializations and other shapes carry nothing.
    let clone = n(Kind::MethodCall, "clone", vec![ident("xs")]);
    assert_eq!(derived_borrow_alias_origin(&clone, &d), None);
    let exclusive = n(Kind::Reference { mutable: true, raw: false }, "", vec![ident("h")]);
    assert_eq!(derived_borrow_alias_origin(&exclusive, &d), None);
    assert_eq!(derived_borrow_alias_origin(&ident("other"), &d), None);
}

use rustlight_opt::binding_pattern::{
    collect_pattern_bindings_with_origin, collect_untyped_tuple_derived_from_pattern,
    projected_origin,
};

fn ty_named(name: &str) -> Node {
    n(Kind::TypeNamed, name, vec![])
}

#[test]
fn projections_keep_structure_only_along_the_family() {
    let d = DerivedOrigins::with_root_family("t", Some(s("Tree")));
    let boxed = n(Kind::TypeGeneric, "Box", vec![ty_named("Tree")]);
    assert_eq!(projected_origin(Origin::Structure, &boxed, &d), Origin::Structure);
    assert_eq!(projected_origin(Origin::Structure, &ty_named("u64"), &d), Origin::Payload);
    assert_eq!(projected_origin(Origin::Payload, &boxed, &d), Origin::Payload);
    let unknown = DerivedOrigins::with_root_family("t", None);
    assert_eq!(projected_origin(Origin::Structure, &boxed, &unknown), Origin::Payload);
}

#[test]
fn pattern_bindings_take_the_given_origin() {
    let mut d = DerivedOrigins::with_root_family("t", None);
    collect_pattern_bindings_with_origin("Node(l, v, r)", Origin::Payload, &mut d);
    assert_eq!(d.origin(&s("l")), Some(Origin::Payload));
    assert_eq!(d.origin(&s("v")), Some(Origin::Payload));
    collect_pattern_bindings_with_origin("(l, _)", Origin::Structure, &mut d);
    assert_eq!(d.origin(&s("l")), Some(Origin::Structure));
    assert_eq!(d.origin(&s("t")), Some(Origin::Structure));
}

#[test]
fn untyped_tuple_matches_derive_through_aliased_elements() {
    let mut d = DerivedOrigins::with_root_family("xs", None);
    d.insert(s("n"), Origin::Payload);
    let scrutinee = n(Kind::Tuple, "", vec![ident("xs"), ident("other"), ident("n")]);
    let mut out = DerivedOrigins::with_root_family("xs", None);
    collect_untyped_tuple_derived_from_pattern(&scrutinee, " (Cons(h, t), y, m) ", &d, &mut out);
    assert_eq!(out.origin(&s("h")), Some(Origin::Structure));
    assert_eq!(out.origin(&s("t")), Some(Origin::Structure));
    assert_eq!(out.origin(&s("y")), None);
    assert_eq!(out.origin(&s("m")), Some(Origin::Payload));
    // A scrutinee that is no tuple derives nothing.
    let mut out = DerivedOrigins::with_root_family("xs", None);
    collect_untyped_tuple_derived_from_pattern(&ident("xs"), "(a, b)", &d, &mut out);
    assert_eq!(out.origin(&s("a")), None);
}

#[test]
fn parameter_origins_take_the_family_of_the_parameter_type() {
    let scope = ModuleScope { module_segments: vec![s("crate"), s("tree")], imports: vec![], current_function: None };
    let ty = n(Kind::TypeGeneric, "Tree", vec![n(Kind::TypeNamed, "T", vec![])]);
    let d = DerivedOrigins::for_parameter("t", &ty, &scope);
    assert_eq!(d.root_family, Some(s("crate::tree::Tree")));
    assert_eq!(d.origin(&s("t")), Some(Origin::Structure));
    let unit = n(Kind::TypeUnit, "", vec![]);
    assert_eq!(DerivedOrigins::for_parameter("u", &unit, &scope).root_family, None);
}
