use rustlight_opt::ast::{Kind, Node};
use rustlight_opt::model::node;
use rustlight_opt::type_shape::{
    borrowed_box_inner_type, box_inner_type, contains_callable_trait, is_box_type,
    is_reference_type, make_ref_type, primitive_size_words, ref_inner, same_type, type_name_leaf,
};

fn n(kind: Kind, text: &str, children: Vec<Node>) -> Node {
    node(kind, text.to_string(), children)
}

fn named(name: &str) -> Node {
    n(Kind::TypeNamed, name, vec![])
}

fn generic(name: &str, args: Vec<Node>) -> Node {
    n(Kind::TypeGeneric, name, args)
}

fn shared(inner: Node) -> Node {
    n(Kind::TypeRef { shared: true, mutable: false }, "", vec![inner])
}

fn callable(args: Vec<Node>, ret: Node) -> Node {
    let mut children = args;
    children.push(ret);
    n(Kind::TypeCallable { dynamic: true }, "Fn", children)
}

#[test]
fn type_name_leaf_is_the_last_path_segment() {
    assert_eq!(type_name_leaf("std::boxed::Box"), "Box");
    assert_eq!(type_name_leaf("Box"), "Box");
    assert_eq!(type_name_leaf("a::"), "");
    assert_eq!(type_name_leaf("a:::b"), "b");
    assert_eq!(type_name_leaf(""), "");
}

#[test]
fn references_and_boxes_are_recognised() {
    let boxed = generic("std::boxed::Box", vec![named("Tree")]);
    assert!(is_box_type(&boxed));
    assert_eq!(box_inner_type(&boxed).unwrap().text, "Tree");
    assert!(!is_box_type(&generic("Rc", vec![named("Tree")])));
    assert!(!is_box_type(&generic("Box", vec![named("A"), named("B")])));
    let borrowed = shared(generic("Box", vec![named("Tree")]));
    assert!(is_reference_type(&borrowed));
    assert_eq!(ref_inner(&borrowed).unwrap().text, "Box");
    assert_eq!(borrowed_box_inner_type(&borrowed).unwrap().text, "Tree");
    let raw = n(Kind::TypeRef { shared: false, mutable: true }, "", vec![named("u8")]);
    assert!(!is_reference_type(&raw));
    assert!(ref_inner(&raw).is_none());
    assert!(borrowed_box_inner_type(&boxed).is_none());
}

#[test]
fn make_ref_type_wraps_in_a_shared_reference() {
    let r = make_ref_type(&named("T"));
    assert!(r.kind == Kind::TypeRef { shared: true, mutable: false });
    assert_eq!(ref_inner(&r).unwrap().text, "T");
}

#[test]
fn callable_traits_are_found_inside_containers() {
    let f = callable(vec![named("i64")], named("i64"));
    assert!(contains_callable_trait(&f));
    assert!(contains_callable_trait(&generic("Rc", vec![f])));
    let g = callable(vec![], n(Kind::TypeUnit, "", vec![]));
    assert!(contains_callable_trait(&n(Kind::TypeTuple, "", vec![named("u8"), shared(g)])));
    assert!(!contains_callable_trait(&generic("Vec", vec![named("u8")])));
    assert!(!contains_callable_trait(&named("Fn")));
}

#[test]
fn types_written_alike_are_the_same() {
    let a = generic("Vec", vec![shared(named("T"))]);
    let b = generic("Vec", vec![shared(named("T"))]);
    assert!(same_type(&a, &b));
    assert!(!same_type(&a, &generic("Vec", vec![named("T")])));
    assert!(!same_type(&generic("Vec", vec![named("T")]), &generic("Vec", vec![named("T"), named("U")])));
    let mutable = n(Kind::TypeRef { shared: true, mutable: true }, "", vec![named("T")]);
    assert!(!same_type(&shared(named("T")), &mutable));
    assert!(same_type(&n(Kind::TypeUnit, "", vec![]), &n(Kind::TypeUnit, "", vec![])));
    assert!(!same_type(&n(Kind::TypeUnit, "", vec![]), &n(Kind::TypeNever, "", vec![])));
    let array = |len: &str| n(Kind::TypeArray, len, vec![named("u8")]);
    assert!(same_type(&array("4"), &array("4")));
    assert!(!same_type(&array("4"), &array("8")));
}

#[test]
fn primitive_sizes_are_counted_in_words() {
    assert_eq!(primitive_size_words(&"u64".to_string()), Some(1));
    assert_eq!(primitive_size_words(&"bool".to_string()), Some(1));
    assert_eq!(primitive_size_words(&"i128".to_string()), Some(2));
    assert_eq!(primitive_size_words(&"String".to_string()), None);
}

use rustlight_opt::type_shape::{outer_nominal_family, type_carries_nominal_family};

fn type_path(segments: &[&str]) -> Node {
    n(Kind::TypePath, "", segments.iter().map(|s| n(Kind::Segment, s, vec![])).collect())
}

#[test]
fn nominal_families_drop_generic_arguments() {
    assert_eq!(outer_nominal_family(&generic("List", vec![named("T")])), Some("List".to_string()));
    assert_eq!(outer_nominal_family(&named("Tree")), Some("Tree".to_string()));
    assert_eq!(
        outer_nominal_family(&type_path(&["crate", "list", "List<T>"])),
        Some("crate::list::List".to_string())
    );
    assert_eq!(outer_nominal_family(&shared(named("Tree"))), None);
}

#[test]
fn families_are_carried_by_ownership_only() {
    let family = "Tree".to_string();
    assert!(type_carries_nominal_family(&named("Tree"), &family));
    assert!(type_carries_nominal_family(&generic("Box", vec![named("Tree")]), &family));
    let pair = n(Kind::TypeTuple, "", vec![named("u8"), generic("Vec", vec![named("Tree")])]);
    assert!(type_carries_nominal_family(&pair, &family));
    let array = n(Kind::TypeArray, "2", vec![named("Tree")]);
    assert!(type_carries_nominal_family(&array, &family));
    assert!(!type_carries_nominal_family(&shared(named("Tree")), &family));
    assert!(!type_carries_nominal_family(&callable(vec![named("Tree")], named("Tree")), &family));
    assert!(!type_carries_nominal_family(&named("Forest"), &family));
}

use rustlight_opt::type_shape::{apply_type_subst, type_substitution};

#[test]
fn type_parameters_are_instantiated_from_the_type() {
    let list_of_u8 = generic("List", vec![named("u8")]);
    let subst = type_substitution(&vec!["T".to_string()], &list_of_u8);
    assert_eq!(subst.len(), 1);
    assert_eq!(subst[0].0, "T");
    let field = generic("Box", vec![generic("List", vec![named("T")])]);
    let instantiated = apply_type_subst(&field, &subst);
    assert!(same_type(&instantiated, &generic("Box", vec![generic("List", vec![named("u8")])])));
    let reference = shared(named("T"));
    assert!(same_type(&apply_type_subst(&reference, &subst), &shared(named("u8"))));
    // Other names, paths and mismatched arities are left alone.
    assert!(same_type(&apply_type_subst(&named("U"), &subst), &named("U")));
    assert!(type_substitution(&vec!["A".to_string(), "B".to_string()], &list_of_u8).is_empty());
    assert!(type_substitution(&vec!["T".to_string()], &named("u8")).is_empty());
}

use rustlight_opt::module_scope::ModuleScope;
use rustlight_opt::type_shape::{callable_return_type, outer_nominal_family_in_scope, same_outer_nominal_family_in_scope};

#[test]
fn callables_return_their_declared_type_through_pointers() {
    let f = callable(vec![named("i64")], named("bool"));
    assert_eq!(callable_return_type(&f).unwrap().text, "bool");
    let rc = generic("std::rc::Rc", vec![callable(vec![], named("u8"))]);
    assert_eq!(callable_return_type(&rc).unwrap().text, "u8");
    assert_eq!(callable_return_type(&shared(rc)).unwrap().text, "u8");
    assert!(callable_return_type(&generic("Vec", vec![f])).is_none());
    assert!(callable_return_type(&named("F")).is_none());
}

#[test]
fn families_in_scope_follow_resolution() {
    let scope = ModuleScope {
        module_segments: vec!["crate".to_string(), "m".to_string()],
        imports: vec![("T".to_string(), vec!["crate".to_string(), "tree".to_string(), "Tree".to_string()])],
        current_function: None,
    };
    assert_eq!(outer_nominal_family_in_scope(&named("T"), &scope), Some("crate::tree::Tree".to_string()));
    assert!(same_outer_nominal_family_in_scope(&named("T"), &generic("crate::tree::Tree", vec![named("u8")]), &scope));
    assert!(!same_outer_nominal_family_in_scope(&named("T"), &named("Tree"), &scope));
    assert!(!same_outer_nominal_family_in_scope(&shared(named("T")), &shared(named("T")), &scope));
}
