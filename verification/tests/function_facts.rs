use rustlight_opt::ast::{Kind, Node, Nodes};
use rustlight_opt::function_facts::{
    ensure_function_comment, generic_has_bound, generic_names_with_bound, type_is_clone_trait,
    type_is_copy_trait,
};
use rustlight_opt::model::node;

fn n(kind: Kind, text: &str, children: Vec<Node>) -> Node {
    node(kind, text.to_string(), children)
}

fn generic(name: &str, bounds: &[&str]) -> Node {
    n(Kind::Generic, name, bounds.iter().map(|b| n(Kind::Bound, b, vec![])).collect())
}

fn function(generics: Vec<Node>, docs: &[&str]) -> Node {
    let mut children = vec![
        n(Kind::Visibility, "pub", vec![]),
        n(Kind::TypeNamed, "T", vec![]),
        n(Kind::Generics, "", generics),
        n(Kind::Params, "", vec![]),
        n(Kind::Block, "", vec![]),
    ];
    children.extend(docs.iter().map(|d| n(Kind::Doc, d, vec![])));
    n(Kind::Function { asyncness: false }, "f", children)
}

fn docs_of(f: &Node) -> Vec<String> {
    let mut out = Vec::new();
    let mut list = &f.children;
    while let Nodes::Cons(head, rest) = list {
        if head.kind == Kind::Doc {
            out.push(head.text.clone());
        }
        list = &**rest;
    }
    out
}

#[test]
fn generics_with_an_exact_bound_are_listed_once() {
    let f = function(
        vec![generic("A", &["Clone", "Copy"]), generic("B", &["Clone"]), generic("C", &["std::marker::Copy"])],
        &[],
    );
    let mut copy = generic_names_with_bound(&f, &"Copy".to_string());
    copy.sort();
    assert_eq!(copy, vec!["A".to_string()]);
    let mut clone = generic_names_with_bound(&f, &"Clone".to_string());
    clone.sort();
    assert_eq!(clone, vec!["A".to_string(), "B".to_string()]);
    assert!(generic_names_with_bound(&function(vec![], &[]), &"Copy".to_string()).is_empty());
}

#[test]
fn bounds_match_by_their_last_segment() {
    let g = generic("C", &[" std::marker::Copy "]);
    assert!(generic_has_bound(&g, &"Copy".to_string()));
    assert!(!generic_has_bound(&g, &"Clone".to_string()));
    assert!(!generic_has_bound(&generic("D", &[]), &"Copy".to_string()));
}

#[test]
fn copy_and_clone_traits_are_recognised_by_name() {
    assert!(type_is_copy_trait(&n(Kind::TypeNamed, "Copy", vec![])));
    let path = n(
        Kind::TypePath,
        "",
        vec![n(Kind::Segment, "core", vec![]), n(Kind::Segment, "clone", vec![]), n(Kind::Segment, "Clone", vec![])],
    );
    assert!(type_is_clone_trait(&path));
    assert!(!type_is_copy_trait(&path));
    assert!(!type_is_clone_trait(&n(Kind::TypeGeneric, "Clone", vec![])));
}

#[test]
fn function_comments_are_added_once() {
    let mut f = function(vec![], &["  existing note  "]);
    ensure_function_comment(&mut f, "existing note");
    assert_eq!(docs_of(&f), vec!["  existing note  ".to_string()]);
    ensure_function_comment(&mut f, "borrowed");
    ensure_function_comment(&mut f, "borrowed");
    assert_eq!(docs_of(&f), vec!["  existing note  ".to_string(), "borrowed".to_string()]);
}
