use rustlight_opt::driver::{
    absolute_path_from, output_root_for, ensure_stable_source, file_stem, help_text, is_generated_rust_file,
    is_input_rust_file, module_name_from_path, module_path_from_components, parse_args,
    relative_from_stripped, relative_to, sanitize_module_name,
};
use rustlight_opt::pipeline::{FinishingPass, PipelineOptions, Stage2Pass};

#[test]
fn full_pipeline_enables_all_available_stage2_passes() {
    assert_eq!(
        PipelineOptions::default().enabled_stage2_passes(),
        vec![
            Stage2Pass::Copy,
            Stage2Pass::Borrow,
            Stage2Pass::Mut,
            Stage2Pass::LastUse,
            Stage2Pass::Closure,
        ]
    );
}

#[test]
fn pass_level_switches_are_independent() {
    let options = PipelineOptions {
        disable_copy: true,
        disable_borrow: true,
        disable_mut: true,
        disable_last_use: true,
        disable_closure: true,
        ..PipelineOptions::default()
    };
    assert!(options.enabled_stage2_passes().is_empty());
    assert!(!options.enables_copy());
    assert!(!options.enables_borrow());
    assert!(!options.enables_mut());
    assert!(!options.enables_last_use());
    assert!(!options.enables_closure());
}

#[test]
fn accepts_stable_source_without_feature_gates() {
    assert!(ensure_stable_source("src/lib.rs", "pub fn id(x: u64) -> u64 { x }").is_ok());
}

#[test]
fn rejects_unstable_feature_gates() {
    let error = ensure_stable_source(
        "src/lib.rs",
        "  #! [ feature(box_patterns) ]\npub fn id(x: u64) -> u64 { x }",
    )
    .unwrap_err();
    assert!(error.contains("src/lib.rs:1"));
    assert!(error.contains("stable Rust sources only"));
}

#[test]
fn reports_the_first_unstable_line() {
    let source = "//! crate\n\n#![feature(never_type)]\n#![feature(box_patterns)]\n";
    let error = ensure_stable_source("src/main.rs", source).unwrap_err();
    assert_eq!(
        error,
        "src/main.rs:3 enables an unstable Rust feature; Stage 2 accepts stable Rust sources only"
    );
    assert!(ensure_stable_source("a.rs", "#![allow(dead_code)]\n").is_ok());
    assert!(ensure_stable_source("a.rs", "x\n#![feature(a)]").unwrap_err().starts_with("a.rs:2 "));
}

#[test]
fn finishing_passes_follow_the_switches() {
    let all = PipelineOptions::default().finishing_passes();
    assert_eq!(
        all,
        vec![
            FinishingPass::Mut,
            FinishingPass::LastUse,
            FinishingPass::BindingCleanup,
            FinishingPass::Closure,
            FinishingPass::MatchCleanup,
            FinishingPass::BooleanCleanup,
            FinishingPass::BoundCleanup,
            FinishingPass::ComplexTypeCleanup,
        ]
    );
    let options = PipelineOptions { disable_binding_cleanup: true, disable_match_cleanup: true, ..PipelineOptions::default() };
    assert_eq!(options.finishing_passes().len(), 6);
    assert_eq!(options.enabled_stage2_passes().len(), 5);
}

fn args(list: &[&str]) -> Vec<String> {
    list.iter().map(|s| s.to_string()).collect()
}

#[test]
fn parses_switches_and_paths() {
    let config = parse_args(&args(&["opt", "pkg", "--out-dir", "out", "--disable-mut", "--disable-closure-cleanup"])).unwrap();
    assert_eq!(config.target, Some("pkg".to_string()));
    assert_eq!(config.output_root, Some("out".to_string()));
    assert!(!config.keep_unused_copy);
    assert!(config.pipeline.disable_mut && config.pipeline.disable_closure);
    assert!(!config.pipeline.disable_copy);

    let config = parse_args(&args(&["--out-dir=elsewhere", "--keep-unused-copy"])).unwrap();
    assert_eq!(config.target, None);
    assert_eq!(config.output_root, Some("elsewhere".to_string()));
    assert!(config.keep_unused_copy);

    let config = parse_args(&args(&["opt", "--out-dir", "opt"])).unwrap();
    assert_eq!(config.output_root, Some("opt".to_string()));
    assert_eq!(config.target, None);
    let config = parse_args(&args(&["opt", "opt"])).unwrap();
    assert_eq!(config.target, Some("opt".to_string()));
}

#[test]
fn reports_argument_errors() {
    assert_eq!(parse_args(&args(&["--out-dir"])).err(), Some("--out-dir requires a path".to_string()));
    assert_eq!(parse_args(&args(&["-h"])).err(), Some(help_text()));
    let error = parse_args(&args(&["a", "b"])).err().unwrap();
    assert!(error.starts_with("unexpected argument b; use: cargo opt [package-path]"));
    assert!(help_text().starts_with("usage: cargo opt"));
    assert!(help_text().ends_with("skips both match-cleanup phases (diagnostic option)"));
}

#[test]
fn names_modules_after_files() {
    assert_eq!(sanitize_module_name("my-mod"), "my_mod");
    assert_eq!(sanitize_module_name("2fast"), "_2fast");
    assert_eq!(sanitize_module_name(""), "module");
    assert_eq!(file_stem("a.b.rs"), "a.b");
    assert_eq!(file_stem(".rs"), ".rs");
    assert_eq!(
        module_path_from_components(&args(&["nested-dir", "mod.rs"])),
        vec!["crate".to_string(), "nested_dir".to_string()]
    );
    assert_eq!(
        module_path_from_components(&args(&["a", "b.rs"])),
        vec!["crate".to_string(), "a".to_string(), "b".to_string()]
    );
    assert_eq!(module_path_from_components(&args(&["lib.rs"])), vec!["crate".to_string()]);
    assert_eq!(module_name_from_path("3d-model.rs"), "_3d_model");
    assert_eq!(module_name_from_path("lib.rs"), "lib");
    assert_eq!(module_name_from_path(""), "module");
    assert_eq!(module_name_from_path(".."), "module");
}

#[test]
fn recognizes_generated_files() {
    assert!(is_generated_rust_file("lib-opt.rs"));
    assert!(!is_generated_rust_file("lib.rs"));
    assert!(is_input_rust_file("lib.rs"));
    assert!(!is_input_rust_file("lib-opt.rs"));
    assert!(!is_input_rust_file("notes.txt"));
}

#[test]
fn joins_relative_paths_to_the_working_directory() {
    assert_eq!(absolute_path_from("out", "/work"), "/work/out");
    assert_eq!(absolute_path_from("out", "/work/"), "/work/out");
    assert_eq!(absolute_path_from("/abs", "/work"), "/abs");
}

#[test]
fn relative_paths_keep_what_the_base_leaves() {
    assert_eq!(relative_from_stripped("/p/src/a/b.rs", Some("a/b.rs".to_string())), "a/b.rs");
    assert_eq!(relative_from_stripped("/q/x.rs", None), "/q/x.rs");
    assert_eq!(relative_to("/p/src/a/b.rs", "/p/src"), "a/b.rs");
    assert_eq!(relative_to("/p/srcx/b.rs", "/p/src"), "/p/srcx/b.rs");
}

#[test]
fn output_root_defaults_to_opt_under_the_package() {
    assert_eq!(output_root_for(None, "/work", "/work/pkg"), Ok("/work/pkg/opt".to_string()));
    assert_eq!(output_root_for(None, "/work", "/work/pkg/"), Ok("/work/pkg/opt".to_string()));
}

#[test]
fn output_root_follows_out_dir_against_the_working_directory() {
    assert_eq!(
        output_root_for(Some("out".to_string()), "/work", "/work/pkg"),
        Ok("/work/out".to_string())
    );
    assert_eq!(
        output_root_for(Some("/tmp/opt".to_string()), "/work", "/work/pkg"),
        Ok("/tmp/opt".to_string())
    );
}

#[test]
fn output_root_refuses_the_package_itself() {
    let refusal = Err("output directory must be different from the source package".to_string());
    assert_eq!(output_root_for(Some("/work/pkg".to_string()), "/work", "/work/pkg"), refusal);
    assert_eq!(output_root_for(Some("pkg".to_string()), "/work", "/work/pkg"), refusal);
    // Paths compare by component, so a trailing separator names the same directory.
    assert_eq!(output_root_for(Some("/work/pkg/".to_string()), "/work", "/work/pkg"), refusal);
}
