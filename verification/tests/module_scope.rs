use rustlight_opt::module_scope::{strip_path_segment_generics, ModuleScope};

fn path(segments: &[&str]) -> Vec<String> {
    segments.iter().map(|s| s.to_string()).collect()
}

fn scope() -> ModuleScope {
    ModuleScope {
        module_segments: path(&["crate", "tree", "ops"]),
        imports: vec![
            ("Map".to_string(), path(&["std", "collections", "HashMap"])),
            ("list".to_string(), path(&["crate", "list"])),
        ],
        current_function: None,
    }
}

#[test]
fn generic_arguments_and_trailing_separators_are_dropped() {
    assert_eq!(strip_path_segment_generics("Vec<T>"), "Vec");
    assert_eq!(strip_path_segment_generics(" collect::<Vec<_>>"), "collect");
    assert_eq!(strip_path_segment_generics("  name  "), "name");
    assert_eq!(strip_path_segment_generics("<T>"), "");
    assert_eq!(strip_path_segment_generics("a::"), "a");
}

#[test]
fn plain_names_resolve_through_imports_or_the_module() {
    let s = scope();
    assert_eq!(s.resolve_name_path(&"Map".to_string()), path(&["std", "collections", "HashMap"]));
    assert_eq!(s.resolve_name_path(&"helper".to_string()), path(&["crate", "tree", "ops", "helper"]));
}

#[test]
fn paths_resolve_from_crate_self_super_and_imports() {
    let s = scope();
    assert_eq!(s.resolve_segments(&path(&["crate", "a", "f"])), path(&["crate", "a", "f"]));
    assert_eq!(s.resolve_segments(&path(&["self", "f"])), path(&["crate", "tree", "ops", "f"]));
    assert_eq!(s.resolve_segments(&path(&["super", "f"])), path(&["crate", "tree", "f"]));
    assert_eq!(s.resolve_segments(&path(&["super", "super", "g"])), path(&["crate", "g"]));
    assert_eq!(s.resolve_segments(&path(&["super", "super", "super", "super", "h"])), path(&["h"]));
    assert_eq!(s.resolve_segments(&path(&["list", "List<T>", "Nil"])), path(&["crate", "list", "List", "Nil"]));
    assert_eq!(s.resolve_segments(&path(&["Vec<T>"])), path(&["crate", "tree", "ops", "Vec"]));
    assert_eq!(s.resolve_segments(&path(&["other", "f"])), path(&["crate", "other", "f"]));
    assert!(s.resolve_segments(&vec![]).is_empty());
}
