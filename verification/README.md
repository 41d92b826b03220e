# rustlight_opt

Verified cleanup passes over the RustLightAST syntax trees that an
Isabelle-to-Rust code generator emits, the decisions of the `cargo opt`
driver around them, and the checks of the SBPF and x86-64 benchmark
harnesses.

Every function in `src/` carries a `requires`/`ensures` contract that Verus
proves; the passes are specified by spec functions over a mathematical model
of the tree (`model.rs`), and their laws (for instance, that the
complex-type cleanup reaches a fixed point in one run) are proof functions.

Layout:

- `src/ast.rs`, `src/model.rs`: the syntax tree (a rose tree whose node kinds
  fix the layout of their children) and its model.
- `src/boolean_cleanup.rs`, `src/binding_cleanup.rs`, `src/bound_cleanup.rs`,
  `src/bigint_shift.rs`, `src/closure_cleanup.rs`, `src/closure_opt.rs`,
  `src/complex_type_cleanup.rs` (with `src/type_key.rs` and
  `src/complex_type_laws.rs`): the passes.
- `src/pipeline.rs`, `src/finish.rs`, `src/driver.rs`: which passes run, in
  which order, and the driver's argument, path and source checks.
- `src/sbpf.rs`, `src/observe.rs`, `src/observe_borrowed.rs`,
  `src/metrics.rs`, `src/list.rs`: the benchmark harness logic.
- `src/demand.rs`, `src/closure_binding.rs`, `src/binding_pattern.rs`,
  `src/capture_rename.rs`, `src/type_shape.rs`, `src/type_facts.rs`,
  `src/function_facts.rs`, `src/module_scope.rs`, `src/variant_owners.rs`:
  the parts of the borrow analysis that stand on their own: the ownership
  demands and the safety and preference conditions drawn from them, the
  origins of derived values, whether a local closure can be borrowed, the
  names a pattern binds, the renaming of captured copies, questions about a
  type's shape and family, whether a type is `Copy` or `Clone` given the
  facts collected about the crate, generic bounds and doc lines, name and
  path resolution in a module, and the owners of enum variants.
- `app/main.rs`: the `cargo opt` program: file-system work around the
  library. Without the RustLightAST parser and printer it reads no source
  into a tree, so it copies each source through unchanged and says so.
- `tests/`: tests on concrete trees and inputs.

Not included: the borrow analysis's driver (`optimize_borrow` and its module
variants), which collects the demands of every parameter over a function
body, infers types for them and rewrites signatures, bodies and calls. It
reads the derives of datatypes and parsed `use` items, which this syntax
tree does not keep, facts the RustLightAST parser records, and previews from
the last-use clone analysis; neither that analysis nor the parser is part of
this repository. The copy, mutability, last-use and match passes are missing
for the same reason. The pipeline still names these passes, and `finish.rs`
leaves a module as it is where one of them is due.
