use rustlight_opt::module_scope::ModuleScope;
use rustlight_opt::variant_owners::VariantOwners;

fn path(segments: &[&str]) -> Vec<String> {
    segments.iter().map(|s| s.to_string()).collect()
}

fn scope(module: &[&str], imports: &[(&str, &[&str])]) -> ModuleScope {
    ModuleScope {
        module_segments: path(module),
        imports: imports.iter().map(|(n, p)| (n.to_string(), path(p))).collect(),
        current_function: None,
    }
}

fn table() -> VariantOwners {
    let mut t = VariantOwners::new();
    t.insert_variant_owner(path(&["crate", "tree", "Tree", "Leaf"]), &path(&["crate", "tree", "Tree"]));
    t.insert_variant_owner(path(&["crate", "tree", "Tree", "Node"]), &path(&["crate", "tree", "Tree"]));
    t.insert_variant_owner(path(&["crate", "list", "List", "Nil"]), &path(&["crate", "list", "List"]));
    t.insert_variant_owner(path(&["crate", "list", "Leaf"]), &path(&["crate", "list", "Other"]));
    t
}

#[test]
fn variants_recorded_twice_for_different_enums_lose_their_owner() {
    let mut t = VariantOwners::new();
    let id = path(&["crate", "A", "X"]);
    t.insert_variant_owner(id.clone(), &path(&["crate", "A"]));
    assert_eq!(t.owner_of(&id), Some(path(&["crate", "A"])));
    t.insert_variant_owner(id.clone(), &path(&["crate", "A"]));
    assert_eq!(t.owner_of(&id), Some(path(&["crate", "A"])));
    t.insert_variant_owner(id.clone(), &path(&["crate", "B"]));
    assert_eq!(t.owner_of(&id), None);
    t.insert_variant_owner(id.clone(), &path(&["crate", "A"]));
    assert_eq!(t.owner_of(&id), None);
    assert_eq!(t.entries.len(), 1);
}

#[test]
fn constructors_resolve_by_path_relative_path_or_name() {
    let t = table();
    let in_tree = scope(&["crate", "tree"], &[]);
    assert_eq!(
        t.owner_for_constructor("crate::tree::Tree::Node", &in_tree),
        Some(path(&["crate", "tree", "Tree"]))
    );
    // Relative to the current module.
    assert_eq!(t.owner_for_constructor(" Tree :: Leaf ", &in_tree), Some(path(&["crate", "tree", "Tree"])));
    // By name alone, where the variants below the module agree.
    assert_eq!(t.owner_for_constructor("Node", &in_tree), Some(path(&["crate", "tree", "Tree"])));
    // `Leaf` is declared by two enums below the crate root: no owner.
    let at_root = scope(&["crate"], &[]);
    assert_eq!(t.owner_for_variant_name(&"Leaf".to_string(), &at_root), None);
    assert_eq!(t.owner_for_variant_name(&"Nil".to_string(), &at_root), Some(path(&["crate", "list", "List"])));
    assert_eq!(t.owner_for_constructor("Missing", &in_tree), None);
    assert_eq!(t.owner_for_constructor("", &in_tree), None);
}

#[test]
fn imported_names_resolve_through_the_import() {
    let t = table();
    let s = scope(&["crate", "main"], &[("Nil", &["crate", "list", "List", "Nil"]), ("L", &["crate", "list", "List"])]);
    assert_eq!(t.owner_for_variant_name(&"Nil".to_string(), &s), Some(path(&["crate", "list", "List"])));
    assert_eq!(t.owner_for_constructor("L::Nil", &s), Some(path(&["crate", "list", "List"])));
}

use rustlight_opt::ast::{Kind, Node};
use rustlight_opt::model::node;
use rustlight_opt::type_shape::{join_path, nominal_type_id, unconditional_impl_target_id};

fn n(kind: Kind, text: &str, children: Vec<Node>) -> Node {
    node(kind, text.to_string(), children)
}

fn impl_block(generics: Vec<Node>, target: Node) -> Node {
    n(Kind::Impl, "", vec![n(Kind::Generics, "", generics), target, n(Kind::Absent, "", vec![])])
}

#[test]
fn variant_paths_are_joined_then_resolved() {
    let t = table();
    let in_tree = scope(&["crate", "tree"], &[]);
    assert_eq!(join_path(&path(&["Tree", "Leaf"])), "Tree::Leaf");
    assert_eq!(join_path(&vec![]), "");
    assert_eq!(t.owner_for_variant_path(&path(&["Tree", "Leaf"]), &in_tree), Some(path(&["crate", "tree", "Tree"])));
}

#[test]
fn nominal_types_resolve_in_scope() {
    let s = scope(&["crate", "m"], &[("Map", &["std", "collections", "HashMap"])]);
    assert_eq!(nominal_type_id(&n(Kind::TypeNamed, "Tree", vec![]), &s), Some(path(&["crate", "m", "Tree"])));
    assert_eq!(
        nominal_type_id(&n(Kind::TypeGeneric, "Map", vec![n(Kind::TypeNamed, "K", vec![])]), &s),
        Some(path(&["std", "collections", "HashMap"]))
    );
    assert_eq!(nominal_type_id(&n(Kind::TypeNamed, "crate::a::B", vec![]), &s), Some(path(&["crate", "a", "B"])));
    let type_path = n(Kind::TypePath, "", vec![n(Kind::Segment, "super", vec![]), n(Kind::Segment, "T", vec![])]);
    assert_eq!(nominal_type_id(&type_path, &s), Some(path(&["crate", "T"])));
    assert_eq!(nominal_type_id(&n(Kind::TypeUnit, "", vec![]), &s), None);
    assert_eq!(nominal_type_id(&n(Kind::TypeNamed, " :: ", vec![]), &s), None);
}

#[test]
fn unconditional_impls_cover_every_instantiation() {
    let s = scope(&["crate"], &[]);
    let plain = impl_block(vec![], n(Kind::TypeNamed, "Word", vec![]));
    assert_eq!(unconditional_impl_target_id(&plain, &s), Some(path(&["crate", "Word"])));
    let generic_target = n(Kind::TypeGeneric, "Wrap", vec![n(Kind::TypeNamed, "W", vec![])]);
    let free = impl_block(vec![n(Kind::Generic, "W", vec![])], n(Kind::TypeGeneric, "Wrap", vec![n(Kind::TypeNamed, "W", vec![])]));
    assert_eq!(unconditional_impl_target_id(&free, &s), Some(path(&["crate", "Wrap"])));
    let bounded = impl_block(vec![n(Kind::Generic, "W", vec![n(Kind::Bound, "Copy", vec![])])], generic_target);
    assert_eq!(unconditional_impl_target_id(&bounded, &s), None);
    let concrete = impl_block(vec![n(Kind::Generic, "W", vec![])], n(Kind::TypeGeneric, "Wrap", vec![n(Kind::TypeNamed, "u8", vec![])]));
    assert_eq!(unconditional_impl_target_id(&concrete, &s), None);
    let generic_for_plain = impl_block(vec![n(Kind::Generic, "W", vec![])], n(Kind::TypeNamed, "Word", vec![]));
    assert_eq!(unconditional_impl_target_id(&generic_for_plain, &s), None);
}
