use rustlight_opt::ast::{Kind, Node};
use rustlight_opt::demand::Materialization;
use rustlight_opt::model::node;
use rustlight_opt::module_scope::ModuleScope;
use rustlight_opt::type_facts::{
    builtin_type_name_is_unshadowed, known_unconditional_clone_type,
    written_or_imported_path_has_root, TypeFacts,
};

fn n(kind: Kind, text: &str, children: Vec<Node>) -> Node {
    node(kind, text.to_string(), children)
}

fn named(name: &str) -> Node {
    n(Kind::TypeNamed, name, vec![])
}

fn generic(name: &str, args: Vec<Node>) -> Node {
    n(Kind::TypeGeneric, name, args)
}

fn path(segments: &[&str]) -> Vec<String> {
    segments.iter().map(|s| s.to_string()).collect()
}

fn scope(imports: &[(&str, &[&str])], current: Option<&[&str]>) -> ModuleScope {
    ModuleScope {
        module_segments: path(&["crate"]),
        imports: imports.iter().map(|(k, p)| (k.to_string(), path(p))).collect(),
        current_function: current.map(path),
    }
}

fn facts() -> TypeFacts {
    TypeFacts {
        inferred_copy_types: path(&["Point"]),
        source_copy_types: path(&["Word"]),
        materialized_copy_type_ids: vec![path(&["crate", "Word"]), path(&["crate", "Pair"])],
        unconditional_copy_types: path(&["Marker"]),
        materialized_unconditional_copy_type_ids: vec![path(&["crate", "Marker"])],
        derived_clone_types: vec![path(&["crate", "Tree"]), path(&["crate", "Pair"])],
        unconditional_clone_types: vec![path(&["crate", "Handle"])],
        local_type_ids: vec![path(&["crate", "Tree"]), path(&["crate", "Word"]), path(&["crate", "Pair"])],
        fn_generics: vec![(
            path(&["crate", "f"]),
            vec![
                n(Kind::Generic, "A", vec![n(Kind::Bound, "Clone", vec![])]),
                n(Kind::Generic, "B", vec![n(Kind::Bound, "std::marker::Copy", vec![])]),
                n(Kind::Generic, "C", vec![]),
            ],
        )],
    }
}

#[test]
fn path_roots_come_from_the_path_or_the_import() {
    let s = scope(&[("BigInt", &["num_bigint", "BigInt"])], None);
    assert!(written_or_imported_path_has_root("std::rc::Rc", &s, "std"));
    assert!(!written_or_imported_path_has_root("crate::Rc", &s, "std"));
    assert!(written_or_imported_path_has_root("BigInt", &s, "num_bigint"));
    assert!(!written_or_imported_path_has_root("Box", &s, "std"));
    assert!(builtin_type_name_is_unshadowed("Box", &s));
    assert!(builtin_type_name_is_unshadowed("alloc::boxed::Box", &s));
    assert!(!builtin_type_name_is_unshadowed("my::Box", &s));
    assert!(known_unconditional_clone_type("String", &s));
    assert!(known_unconditional_clone_type("BigInt", &s));
    assert!(!known_unconditional_clone_type("BigRational", &s));
}

#[test]
fn copy_follows_scalars_inferred_and_source_facts() {
    let f = facts();
    let s = scope(&[], None);
    let none: Vec<String> = vec![];
    assert!(f.is_copy(&named("u64"), &none, &s));
    assert!(f.is_copy(&named("Point"), &none, &s));
    assert!(f.is_copy(&named("T"), &path(&["T"]), &s));
    assert!(!f.is_copy(&named("String"), &none, &s));
    assert!(f.is_copy(&generic("Word", vec![named("u8")]), &none, &s));
    assert!(!f.is_copy(&generic("Word", vec![named("String")]), &none, &s));
    assert!(f.is_copy(&generic("PhantomData", vec![named("String")]), &none, &s));
    assert!(f.is_copy(&generic("Marker", vec![named("String")]), &none, &s));
    let shared = n(Kind::TypeRef { shared: true, mutable: false }, "", vec![named("String")]);
    let exclusive = n(Kind::TypeRef { shared: true, mutable: true }, "", vec![named("String")]);
    assert!(f.is_copy(&shared, &none, &s));
    assert!(!f.is_copy(&exclusive, &none, &s));
    assert!(f.is_copy(&n(Kind::TypeTuple, "", vec![named("u8"), named("bool")]), &none, &s));
}

#[test]
fn materialized_copy_needs_evidence_in_the_program() {
    let f = facts();
    let in_f = scope(&[], Some(&["crate", "f"]));
    let none: Vec<String> = vec![];
    // `Point` is only inferred Copy: no implementation in the program.
    assert!(!f.is_materialized_copy(&named("Point"), &none, &in_f));
    assert!(f.is_materialized_copy(&named("Word"), &none, &in_f));
    assert!(f.is_materialized_copy(&named("B"), &none, &in_f));
    assert!(!f.is_materialized_copy(&named("A"), &none, &in_f));
    assert!(f.is_materialized_copy(&generic("Pair", vec![named("u8")]), &none, &in_f));
    assert!(!f.is_materialized_copy(&generic("Pair", vec![named("A")]), &none, &in_f));
    let array = n(Kind::TypeArray, "4", vec![named("i32")]);
    assert!(f.is_materialized_copy(&array, &none, &in_f));
}

#[test]
fn clone_follows_bounds_derives_and_containers() {
    let f = facts();
    let in_f = scope(&[], Some(&["crate", "f"]));
    let none: Vec<String> = vec![];
    assert!(f.is_clone(&named("A"), &none, &in_f));
    assert!(!f.is_clone(&named("C"), &none, &in_f));
    assert!(f.is_clone(&generic("Tree", vec![named("A")]), &none, &in_f));
    assert!(!f.is_clone(&generic("Tree", vec![named("C")]), &none, &in_f));
    assert!(f.is_clone(&generic("Vec", vec![named("String")]), &none, &in_f));
    assert!(f.is_clone(&generic("Rc", vec![named("C")]), &none, &in_f));
    assert!(f.is_clone(&generic("Handle", vec![named("C")]), &none, &in_f));
    assert!(!f.is_clone(&generic("Cell", vec![named("u8")]), &none, &in_f));
    let slice = n(Kind::TypeSlice, "", vec![named("u8")]);
    assert!(!f.is_clone(&slice, &none, &in_f));
    assert!(f.can_materialize_owned(&named("String"), &none, &in_f));
    assert_eq!(f.move_materialization(Some(&named("C")), &none, &in_f), Materialization::Unavailable);
    assert_eq!(f.move_materialization(Some(&named("A")), &none, &in_f), Materialization::Available);
    assert_eq!(f.move_materialization(None, &none, &in_f), Materialization::Unavailable);
}
