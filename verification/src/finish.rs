//! The last step that each parsed module goes through: the finishing passes
//! of the pipeline, in order.
use vstd::prelude::*;

use crate::ast::Node;
use crate::binding_cleanup::{cleanup_bindings, cleanup_bindings_m};
use crate::boolean_cleanup::{cleanup_booleans, cleanup_booleans_m};
use crate::bound_cleanup::{cleanup_bounds, cleanup_bounds_m};
use crate::closure_cleanup::{optimize_closure, optimize_closure_m};
use crate::complex_type_cleanup::{cleanup_complex_types, cleanup_module_m, no_alias_counts};
use crate::model::NodeM;
use crate::pipeline::{finishing_passes_m, FinishingPass, PipelineOptions};

verus! {

/// Whether this library holds pass `p`. Mutability recovery, last-use
/// cleanup and match cleanup are passes of their own that it does not hold.
pub open spec fn held_pass_m(p: FinishingPass) -> bool {
    match p {
        FinishingPass::BindingCleanup | FinishingPass::Closure | FinishingPass::BooleanCleanup
        | FinishingPass::BoundCleanup | FinishingPass::ComplexTypeCleanup => true,
        _ => false,
    }
}

/// Module `m` after pass `p`, where this library holds `p`; as it is
/// otherwise.
pub open spec fn apply_pass_m(p: FinishingPass, m: NodeM) -> NodeM {
    match p {
        FinishingPass::BindingCleanup => cleanup_bindings_m(m),
        FinishingPass::Closure => optimize_closure_m(m).0,
        FinishingPass::BooleanCleanup => cleanup_booleans_m(m).0,
        FinishingPass::BoundCleanup => cleanup_bounds_m(m).0,
        FinishingPass::ComplexTypeCleanup => cleanup_module_m(m, no_alias_counts()).0,
        _ => m,
    }
}

/// Module `m` after the passes `ps`, the first first.
pub open spec fn apply_passes_m(ps: Seq<FinishingPass>, m: NodeM) -> NodeM
    decreases ps.len(),
{
    if ps.len() == 0 {
        m
    } else {
        apply_pass_m(ps.last(), apply_passes_m(ps.drop_last(), m))
    }
}

/// Runs pass `p` on `module` where this library holds it.
fn apply_pass(p: FinishingPass, module: &mut Node)
    ensures
        final(module)@ == apply_pass_m(p, old(module)@),
{
    match p {
        FinishingPass::BindingCleanup => cleanup_bindings(module),
        FinishingPass::Closure => {
            optimize_closure(module);
        },
        FinishingPass::BooleanCleanup => {
            cleanup_booleans(module);
        },
        FinishingPass::BoundCleanup => {
            cleanup_bounds(module);
        },
        FinishingPass::ComplexTypeCleanup => {
            cleanup_complex_types(module);
        },
        _ => {},
    }
}

/// Runs on `module` the finishing passes that `pipeline` enables and this
/// library holds, in the pipeline's order: binding cleanup, closure cleanup,
/// then the Boolean, bound and complex-type cleanups.
pub fn finish_module(module: &mut Node, pipeline: PipelineOptions)
    ensures
        final(module)@ == apply_passes_m(finishing_passes_m(pipeline), old(module)@),
{
    let passes = pipeline.finishing_passes();
    let ghost m0 = module@;
    let mut i: usize = 0;
    assert(passes@.take(0) =~= Seq::<FinishingPass>::empty());
    while i < passes.len()
        invariant
            i <= passes@.len(),
            passes@ == finishing_passes_m(pipeline),
            module@ == apply_passes_m(passes@.take(i as int), m0),
        decreases passes@.len() - i,
    {
        assert(passes@.take(i + 1).drop_last() =~= passes@.take(i as int));
        apply_pass(passes[i], module);
        i = i + 1;
    }
    assert(passes@.take(i as int) =~= passes@);
}

} // verus!
