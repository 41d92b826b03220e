//! The step observation of the builds whose generated step borrows its
//! operand lists instead of taking them.
use vstd::prelude::*;

use crate::list::List;
use crate::observe::{black_box, observes_outcome, readable, x64_observe_outcome, Outcome, Preg, Val};

verus! {

/// Runs one generated step on borrowed operands and observes its outcome.
pub fn x64_step_observe<R: Fn(Preg) -> Val, S: Fn(i128, &List<i128>, &List<i128>, &List<i128>, &List<i128>) -> Outcome<R>>(
    step: S,
    bits: i128,
    lbin: &List<i128>,
    lc: &List<i128>,
    lr: &List<i128>,
    lm: &List<i128>,
) -> (r: Vec<u64>)
    requires
        call_requires(step, (bits, lbin, lc, lr, lm)),
        forall|o: Outcome<R>| call_ensures(step, (bits, lbin, lc, lr, lm), o) ==> readable(o),
    ensures
        exists|o: Outcome<R>|
            call_ensures(step, (bits, lbin, lc, lr, lm), o) && observes_outcome(o, r@),
{
    let ghost args = (bits, lbin, lc, lr, lm);
    let outcome = step(bits, lbin, lc, lr, lm);
    let ghost o = outcome;
    let r = x64_observe_outcome(outcome);
    assert(call_ensures(step, args, o) && observes_outcome(o, r@));
    r
}

/// Runs one generated step on borrowed operands for timing, handing its
/// outcome to the optimizer as opaque without observing it.
pub fn x64_step_benchmark<R, S: Fn(i128, &List<i128>, &List<i128>, &List<i128>, &List<i128>) -> Outcome<R>>(
    step: S,
    bits: i128,
    lbin: &List<i128>,
    lc: &List<i128>,
    lr: &List<i128>,
    lm: &List<i128>,
)
    requires
        call_requires(step, (bits, lbin, lc, lr, lm)),
{
    let outcome = step(bits, lbin, lc, lr, lm);
    let _ = black_box(outcome);
}

} // verus!
