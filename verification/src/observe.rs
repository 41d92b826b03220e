//! Observation of the outcome of one generated x64 step: the values of the
//! program counter, the sixteen general registers but the last and the five
//! flags, each as a 64-bit word.
use vstd::prelude::*;

use crate::list::List;

verus! {

/// A general register.
#[derive(Clone, Copy, Debug, PartialEq, Eq)]
pub enum Ireg {
    RAX,
    RBX,
    RCX,
    RDX,
    RSI,
    RDI,
    RBP,
    RSP,
    R8,
    R9,
    R10,
    R11,
    R12,
    R13,
    R14,
    R15,
}

/// A condition flag.
#[derive(Clone, Copy, Debug, PartialEq, Eq)]
pub enum Crbit {
    ZF,
    CF,
    PF,
    SF,
    OF,
}

/// A processor register.
#[derive(Clone, Copy, Debug, PartialEq, Eq)]
pub enum Preg {
    PC,
    IR(Ireg),
    CR(Crbit),
}

/// A register value: undefined, or a machine word of one of four widths,
/// held as the integer the word stands for.
#[derive(Clone, Copy, Debug, PartialEq, Eq)]
pub enum Val {
    Vundef,
    Vbyte(i128),
    Vshort(i128),
    Vint(i128),
    Vlong(i128),
}

/// The outcome of a step: stuck, or the register file after it.
pub enum Outcome<R> {
    Stuck,
    Next(R),
}

/// The registers observed after a step, in the order they are reported.
pub open spec fn observable_m() -> Seq<Preg> {
    seq![
        Preg::PC,
        Preg::IR(Ireg::RAX),
        Preg::IR(Ireg::RBX),
        Preg::IR(Ireg::RCX),
        Preg::IR(Ireg::RDX),
        Preg::IR(Ireg::RSI),
        Preg::IR(Ireg::RDI),
        Preg::IR(Ireg::RBP),
        Preg::IR(Ireg::RSP),
        Preg::IR(Ireg::R8),
        Preg::IR(Ireg::R9),
        Preg::IR(Ireg::R10),
        Preg::IR(Ireg::R11),
        Preg::IR(Ireg::R12),
        Preg::IR(Ireg::R13),
        Preg::IR(Ireg::R14),
        Preg::CR(Crbit::ZF),
        Preg::CR(Crbit::CF),
        Preg::CR(Crbit::PF),
        Preg::CR(Crbit::SF),
        Preg::CR(Crbit::OF),
    ]
}

/// The 64-bit word observed for a value.
pub open spec fn observed_val_m(v: Val) -> u64 {
    match v {
        Val::Vundef => 0,
        Val::Vbyte(w) => w as u64,
        Val::Vshort(w) => w as u64,
        Val::Vint(w) => w as u64,
        Val::Vlong(w) => w as u64,
    }
}

/// The 64-bit word an integer is observed as: its low 64 bits.
pub fn x64_observed_int(value: i128) -> (r: u64)
    ensures
        r == value as u64,
{
    value as u64
}

/// The 64-bit word observed for a value: zero when undefined.
pub fn x64_observed_val(value: Val) -> (r: u64)
    ensures
        r == observed_val_m(value),
{
    match value {
        Val::Vundef => 0,
        Val::Vbyte(w) => x64_observed_int(w),
        Val::Vshort(w) => x64_observed_int(w),
        Val::Vint(w) => x64_observed_int(w),
        Val::Vlong(w) => x64_observed_int(w),
    }
}

/// The observable registers, in order.
fn observable() -> (r: Vec<Preg>)
    ensures
        r@ == observable_m(),
{
    let r = vec![
        Preg::PC,
        Preg::IR(Ireg::RAX),
        Preg::IR(Ireg::RBX),
        Preg::IR(Ireg::RCX),
        Preg::IR(Ireg::RDX),
        Preg::IR(Ireg::RSI),
        Preg::IR(Ireg::RDI),
        Preg::IR(Ireg::RBP),
        Preg::IR(Ireg::RSP),
        Preg::IR(Ireg::R8),
        Preg::IR(Ireg::R9),
        Preg::IR(Ireg::R10),
        Preg::IR(Ireg::R11),
        Preg::IR(Ireg::R12),
        Preg::IR(Ireg::R13),
        Preg::IR(Ireg::R14),
        Preg::CR(Crbit::ZF),
        Preg::CR(Crbit::CF),
        Preg::CR(Crbit::PF),
        Preg::CR(Crbit::SF),
        Preg::CR(Crbit::OF),
    ];
    assert(r@ =~= observable_m());
    r
}

/// Whether `w` is the word observed for a value that `registers` gives for
/// the `i`-th observable register.
pub open spec fn observed_at<R: Fn(Preg) -> Val>(registers: R, i: int, w: u64) -> bool {
    exists|v: Val| call_ensures(registers, (observable_m()[i],), v) && w == observed_val_m(v)
}

/// Whether `r` is what observing the register file `registers` reports:
/// for each observable register, in order, the word observed for a value
/// that `registers` gives for it.
pub open spec fn observes_registers<R: Fn(Preg) -> Val>(registers: R, r: Seq<u64>) -> bool {
    &&& r.len() == observable_m().len()
    &&& forall|i: int| 0 <= i < r.len() ==> #[trigger] observed_at(registers, i, r[i])
}

/// Whether `r` is what observing `outcome` reports: nothing when the step
/// is stuck, the observed registers otherwise.
pub open spec fn observes_outcome<R: Fn(Preg) -> Val>(outcome: Outcome<R>, r: Seq<u64>) -> bool {
    match outcome {
        Outcome::Stuck => r.len() == 0,
        Outcome::Next(registers) => observes_registers(registers, r),
    }
}

/// Whether every register can be read from the register file of `outcome`.
pub open spec fn readable<R: Fn(Preg) -> Val>(outcome: Outcome<R>) -> bool {
    match outcome {
        Outcome::Stuck => true,
        Outcome::Next(registers) => forall|p: Preg| call_requires(registers, (p,)),
    }
}

/// The observable registers after a step: empty when the step is stuck.
pub fn x64_observe_outcome<R: Fn(Preg) -> Val>(outcome: Outcome<R>) -> (r: Vec<u64>)
    requires
        readable(outcome),
    ensures
        observes_outcome(outcome, r@),
{
    let ghost whole = outcome;
    let registers = match outcome {
        Outcome::Stuck => {
            return Vec::new();
        },
        Outcome::Next(registers) => registers,
    };
    assert(whole == Outcome::Next(registers));
    let names = observable();
    let mut r: Vec<u64> = Vec::new();
    let ghost mut vals: Seq<Val> = Seq::empty();
    let mut i: usize = 0;
    while i < names.len()
        invariant
            names@ == observable_m(),
            i <= names@.len(),
            r@.len() == i,
            vals.len() == i,
            forall|p: Preg| call_requires(registers, (p,)),
            forall|j: int|
                0 <= j < i ==> call_ensures(registers, (observable_m()[j],), #[trigger] vals[j])
                    && r@[j] == observed_val_m(vals[j]),
        decreases names@.len() - i,
    {
        let v = registers(names[i]);
        r.push(x64_observed_val(v));
        proof {
            vals = vals.push(v);
        }
        i = i + 1;
    }
    assert forall|j: int| 0 <= j < r@.len() implies #[trigger] observed_at(registers, j, r@[j]) by {
        assert(call_ensures(registers, (observable_m()[j],), vals[j]));
    }
    assert(r@.len() == observable_m().len());
    assert(observes_registers(registers, r@));
    r
}

/// Hands a value to the optimizer as opaque with `std::hint::black_box`,
/// which its documentation describes as an identity function.
#[verifier::external_body]
pub(crate) fn black_box<T>(x: T) -> (r: T)
    ensures
        r == x,
{
    std::hint::black_box(x)
}

/// Runs one generated step on its operands and observes its outcome.
pub fn x64_step_observe<R: Fn(Preg) -> Val, S: Fn(i128, List<i128>, List<i128>, List<i128>, List<i128>) -> Outcome<R>>(
    step: S,
    bits: i128,
    lbin: List<i128>,
    lc: List<i128>,
    lr: List<i128>,
    lm: List<i128>,
) -> (r: Vec<u64>)
    requires
        call_requires(step, (bits, lbin, lc, lr, lm)),
        forall|o: Outcome<R>| call_ensures(step, (bits, lbin, lc, lr, lm), o) ==> readable(o),
    ensures
        exists|o: Outcome<R>|
            call_ensures(step, (bits, lbin, lc, lr, lm), o) && observes_outcome(o, r@),
{
    let ghost args = (bits, lbin, lc, lr, lm);
    let outcome = step(bits, lbin, lc, lr, lm);
    let ghost o = outcome;
    let r = x64_observe_outcome(outcome);
    assert(call_ensures(step, args, o) && observes_outcome(o, r@));
    r
}

/// Runs one generated step on its operands for timing, handing its outcome
/// to the optimizer as opaque without observing it.
pub fn x64_step_benchmark<R, S: Fn(i128, List<i128>, List<i128>, List<i128>, List<i128>) -> Outcome<R>>(
    step: S,
    bits: i128,
    lbin: List<i128>,
    lc: List<i128>,
    lr: List<i128>,
    lm: List<i128>,
)
    requires
        call_requires(step, (bits, lbin, lc, lr, lm)),
{
    let outcome = step(bits, lbin, lc, lr, lm);
    let _ = black_box(outcome);
}

} // verus!
