use vstd::prelude::*;

pub mod ast;
pub mod bigint_shift;
pub mod binding_cleanup;
pub mod boolean_cleanup;
pub mod boolean_fixpoint;
pub mod binding_pattern;
pub mod boolean_laws;
pub mod bound_cleanup;
pub mod capture_rename;
pub mod closure_binding;
pub mod closure_cleanup;
pub mod closure_opt;
pub mod complex_type_cleanup;
pub mod complex_type_laws;
pub mod demand;
pub mod driver;
pub mod finish;
pub mod function_facts;
pub mod list;
pub mod metrics;
pub mod model;
pub mod module_scope;
pub mod observe;
pub mod observe_borrowed;
pub mod pipeline;
pub mod sbpf;
pub mod text;
pub mod type_facts;
pub mod type_key;
pub mod type_shape;
pub mod variant_owners;

verus! {

} // verus!
