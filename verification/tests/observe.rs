use rustlight_opt::list::List;
use rustlight_opt::metrics::{read, reset};
use rustlight_opt::observe::{
    x64_observe_outcome, x64_observed_int, x64_observed_val, x64_step_benchmark, x64_step_observe,
    Crbit, Ireg, Outcome, Preg, Val,
};

fn register_file(p: Preg) -> Val {
    match p {
        Preg::PC => Val::Vlong(0x40),
        Preg::IR(Ireg::RAX) => Val::Vlong(-1),
        Preg::IR(_) => Val::Vint(7),
        Preg::CR(Crbit::ZF) => Val::Vbyte(1),
        Preg::CR(_) => Val::Vundef,
    }
}

#[test]
fn observes_words_as_their_low_bits() {
    assert_eq!(x64_observed_int(-1), u64::MAX);
    assert_eq!(x64_observed_int(1 << 64), 0);
    assert_eq!(x64_observed_val(Val::Vundef), 0);
    assert_eq!(x64_observed_val(Val::Vshort(300)), 300);
}

#[test]
fn observes_registers_in_order() {
    let observed = x64_observe_outcome(Outcome::Next(register_file));
    assert_eq!(observed.len(), 21);
    assert_eq!(observed[0], 0x40);
    assert_eq!(observed[1], u64::MAX);
    assert_eq!(observed[2], 7);
    assert_eq!(observed[16], 1);
    assert_eq!(observed[20], 0);
    let stuck: Outcome<fn(Preg) -> Val> = Outcome::Stuck;
    assert!(x64_observe_outcome(stuck).is_empty());
}

#[test]
fn steps_then_observes() {
    let step = |bits: i128, _: List<i128>, _: List<i128>, _: List<i128>, _: List<i128>| {
        if bits == 64 {
            Outcome::Next(register_file as fn(Preg) -> Val)
        } else {
            Outcome::Stuck
        }
    };
    let observed = x64_step_observe(step, 64, List::Nil, List::Nil, List::Nil, List::Nil);
    assert_eq!(observed.len(), 21);
    assert!(x64_step_observe(step, 32, List::Nil, List::Nil, List::Nil, List::Nil).is_empty());
    x64_step_benchmark(step, 64, List::Nil, List::Nil, List::Nil, List::Nil);
    reset();
    assert_eq!(read(), 0);
}
