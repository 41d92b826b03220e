//! The choice of optimization passes that the `cargo opt` driver runs.
use vstd::prelude::*;

verus! {

/// Which passes of the pipeline are switched off.
#[derive(Clone, Copy, Debug, PartialEq, Eq)]
pub struct PipelineOptions {
    pub disable_copy: bool,
    pub disable_borrow: bool,
    pub disable_mut: bool,
    pub disable_last_use: bool,
    pub disable_closure: bool,
    pub disable_binding_cleanup: bool,
    pub disable_match_cleanup: bool,
}

/// The full pipeline: nothing switched off.
pub open spec fn full_pipeline() -> PipelineOptions {
    PipelineOptions {
        disable_copy: false,
        disable_borrow: false,
        disable_mut: false,
        disable_last_use: false,
        disable_closure: false,
        disable_binding_cleanup: false,
        disable_match_cleanup: false,
    }
}

impl Default for PipelineOptions {
    fn default() -> (o: PipelineOptions)
        ensures
            o == full_pipeline(),
    {
        PipelineOptions {
            disable_copy: false,
            disable_borrow: false,
            disable_mut: false,
            disable_last_use: false,
            disable_closure: false,
            disable_binding_cleanup: false,
            disable_match_cleanup: false,
        }
    }
}

/// A pass of the second stage of the pipeline.
#[derive(Clone, Copy, Debug, PartialEq, Eq)]
pub enum Stage2Pass {
    Copy,
    Borrow,
    Mut,
    LastUse,
    Closure,
}

/// A pass run on each parsed module after the whole-package passes, in the
/// order the driver runs them.
#[derive(Clone, Copy, Debug, PartialEq, Eq)]
pub enum FinishingPass {
    Mut,
    LastUse,
    BindingCleanup,
    Closure,
    MatchCleanup,
    BooleanCleanup,
    BoundCleanup,
    ComplexTypeCleanup,
}

/// `s` followed by `x` when `b` holds.
pub open spec fn push_if<A>(s: Seq<A>, b: bool, x: A) -> Seq<A> {
    if b {
        s.push(x)
    } else {
        s
    }
}

/// The second-stage passes that `o` enables, in pipeline order.
pub open spec fn stage2_passes_m(o: PipelineOptions) -> Seq<Stage2Pass> {
    let s0 = push_if(Seq::empty(), !o.disable_copy, Stage2Pass::Copy);
    let s1 = push_if(s0, !o.disable_borrow, Stage2Pass::Borrow);
    let s2 = push_if(s1, !o.disable_mut, Stage2Pass::Mut);
    let s3 = push_if(s2, !o.disable_last_use, Stage2Pass::LastUse);
    push_if(s3, !o.disable_closure, Stage2Pass::Closure)
}

/// The passes run on each parsed module once the whole-package passes are
/// done: the enabled ones among mutability recovery, last-use cleanup,
/// binding cleanup, closure cleanup and match cleanup, then always the
/// Boolean, bound and complex-type cleanups.
pub open spec fn finishing_passes_m(o: PipelineOptions) -> Seq<FinishingPass> {
    let s0 = push_if(Seq::empty(), !o.disable_mut, FinishingPass::Mut);
    let s1 = push_if(s0, !o.disable_last_use, FinishingPass::LastUse);
    let s2 = push_if(s1, !o.disable_binding_cleanup, FinishingPass::BindingCleanup);
    let s3 = push_if(s2, !o.disable_closure, FinishingPass::Closure);
    let s4 = push_if(s3, !o.disable_match_cleanup, FinishingPass::MatchCleanup);
    s4.push(FinishingPass::BooleanCleanup).push(FinishingPass::BoundCleanup).push(
        FinishingPass::ComplexTypeCleanup,
    )
}

impl PipelineOptions {
    pub fn enables_copy(self) -> (b: bool)
        ensures
            b == !self.disable_copy,
    {
        !self.disable_copy
    }

    pub fn enables_borrow(self) -> (b: bool)
        ensures
            b == !self.disable_borrow,
    {
        !self.disable_borrow
    }

    pub fn enables_mut(self) -> (b: bool)
        ensures
            b == !self.disable_mut,
    {
        !self.disable_mut
    }

    pub fn enables_last_use(self) -> (b: bool)
        ensures
            b == !self.disable_last_use,
    {
        !self.disable_last_use
    }

    pub fn enables_binding_cleanup(self) -> (b: bool)
        ensures
            b == !self.disable_binding_cleanup,
    {
        !self.disable_binding_cleanup
    }

    pub fn enables_closure(self) -> (b: bool)
        ensures
            b == !self.disable_closure,
    {
        !self.disable_closure
    }

    pub fn enables_match_cleanup(self) -> (b: bool)
        ensures
            b == !self.disable_match_cleanup,
    {
        !self.disable_match_cleanup
    }

    /// The second-stage passes these options enable, in pipeline order.
    pub fn enabled_stage2_passes(self) -> (passes: Vec<Stage2Pass>)
        ensures
            passes@ == stage2_passes_m(self),
    {
        let mut passes: Vec<Stage2Pass> = Vec::new();
        if self.enables_copy() {
            passes.push(Stage2Pass::Copy);
        }
        if self.enables_borrow() {
            passes.push(Stage2Pass::Borrow);
        }
        if self.enables_mut() {
            passes.push(Stage2Pass::Mut);
        }
        if self.enables_last_use() {
            passes.push(Stage2Pass::LastUse);
        }
        if self.enables_closure() {
            passes.push(Stage2Pass::Closure);
        }
        passes
    }

    /// The passes run on each parsed module after the whole-package passes,
    /// in order.
    pub fn finishing_passes(self) -> (passes: Vec<FinishingPass>)
        ensures
            passes@ == finishing_passes_m(self),
    {
        let mut passes: Vec<FinishingPass> = Vec::new();
        if self.enables_mut() {
            passes.push(FinishingPass::Mut);
        }
        if self.enables_last_use() {
            passes.push(FinishingPass::LastUse);
        }
        if self.enables_binding_cleanup() {
            passes.push(FinishingPass::BindingCleanup);
        }
        if self.enables_closure() {
            passes.push(FinishingPass::Closure);
        }
        if self.enables_match_cleanup() {
            passes.push(FinishingPass::MatchCleanup);
        }
        passes.push(FinishingPass::BooleanCleanup);
        passes.push(FinishingPass::BoundCleanup);
        passes.push(FinishingPass::ComplexTypeCleanup);
        passes
    }
}

/// The full pipeline enables every second-stage pass, in the order copy,
/// borrow, mutability, last use, closure.
pub proof fn lemma_full_pipeline_enables_all()
    ensures
        stage2_passes_m(full_pipeline()) == seq![
            Stage2Pass::Copy,
            Stage2Pass::Borrow,
            Stage2Pass::Mut,
            Stage2Pass::LastUse,
            Stage2Pass::Closure,
        ],
{
    assert(stage2_passes_m(full_pipeline()) =~= seq![
        Stage2Pass::Copy,
        Stage2Pass::Borrow,
        Stage2Pass::Mut,
        Stage2Pass::LastUse,
        Stage2Pass::Closure,
    ]);
}

/// Each switch acts on its own pass only: a second-stage pass runs exactly
/// when its own switch is off, whatever the other switches say.
pub proof fn lemma_switches_independent(o: PipelineOptions)
    ensures
        stage2_passes_m(o).contains(Stage2Pass::Copy) <==> !o.disable_copy,
        stage2_passes_m(o).contains(Stage2Pass::Borrow) <==> !o.disable_borrow,
        stage2_passes_m(o).contains(Stage2Pass::Mut) <==> !o.disable_mut,
        stage2_passes_m(o).contains(Stage2Pass::LastUse) <==> !o.disable_last_use,
        stage2_passes_m(o).contains(Stage2Pass::Closure) <==> !o.disable_closure,
{
    let s0 = push_if(Seq::empty(), !o.disable_copy, Stage2Pass::Copy);
    let s1 = push_if(s0, !o.disable_borrow, Stage2Pass::Borrow);
    let s2 = push_if(s1, !o.disable_mut, Stage2Pass::Mut);
    let s3 = push_if(s2, !o.disable_last_use, Stage2Pass::LastUse);
    let s4 = push_if(s3, !o.disable_closure, Stage2Pass::Closure);
    assert forall|p: Stage2Pass| #[trigger] s4.contains(p) <==> (
        (p == Stage2Pass::Copy && !o.disable_copy)
        || (p == Stage2Pass::Borrow && !o.disable_borrow)
        || (p == Stage2Pass::Mut && !o.disable_mut)
        || (p == Stage2Pass::LastUse && !o.disable_last_use)
        || (p == Stage2Pass::Closure && !o.disable_closure)) by {
        assert(s0.contains(p) <==> (p == Stage2Pass::Copy && !o.disable_copy)) by {
            if !o.disable_copy {
                assert(s0 =~= seq![Stage2Pass::Copy]);
                if p == Stage2Pass::Copy {
                    assert(s0[0] == p);
                }
            }
        }
        assert(s1.contains(p) <==> (s0.contains(p) || (p == Stage2Pass::Borrow && !o.disable_borrow))) by {
            if !o.disable_borrow {
                if p == Stage2Pass::Borrow {
                    assert(s1[s1.len() - 1] == p);
                }
                if s0.contains(p) {
                    let i = choose|i: int| 0 <= i < s0.len() && s0[i] == p;
                    assert(s1[i] == p);
                }
            }
        }
        assert(s2.contains(p) <==> (s1.contains(p) || (p == Stage2Pass::Mut && !o.disable_mut))) by {
            if !o.disable_mut {
                if p == Stage2Pass::Mut {
                    assert(s2[s2.len() - 1] == p);
                }
                if s1.contains(p) {
                    let i = choose|i: int| 0 <= i < s1.len() && s1[i] == p;
                    assert(s2[i] == p);
                }
            }
        }
        assert(s3.contains(p) <==> (s2.contains(p) || (p == Stage2Pass::LastUse && !o.disable_last_use))) by {
            if !o.disable_last_use {
                if p == Stage2Pass::LastUse {
                    assert(s3[s3.len() - 1] == p);
                }
                if s2.contains(p) {
                    let i = choose|i: int| 0 <= i < s2.len() && s2[i] == p;
                    assert(s3[i] == p);
                }
            }
        }
        assert(s4.contains(p) <==> (s3.contains(p) || (p == Stage2Pass::Closure && !o.disable_closure))) by {
            if !o.disable_closure {
                if p == Stage2Pass::Closure {
                    assert(s4[s4.len() - 1] == p);
                }
                if s3.contains(p) {
                    let i = choose|i: int| 0 <= i < s3.len() && s3[i] == p;
                    assert(s4[i] == p);
                }
            }
        }
    }
    assert(s4.contains(Stage2Pass::Copy) <==> !o.disable_copy);
    assert(s4.contains(Stage2Pass::Borrow) <==> !o.disable_borrow);
    assert(s4.contains(Stage2Pass::Mut) <==> !o.disable_mut);
    assert(s4.contains(Stage2Pass::LastUse) <==> !o.disable_last_use);
    assert(s4.contains(Stage2Pass::Closure) <==> !o.disable_closure);
}

} // verus!
