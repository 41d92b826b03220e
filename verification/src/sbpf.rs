//! The case preparation of the SBPF benchmarks: reading hexadecimal case
//! fields, finding the direct-call targets of a program that must be
//! registered, and deciding how each case is run and judged.
use vstd::prelude::*;

use crate::list::{List, list_seq};
use crate::text::{
    decimal, decimal_string, drop_trailing_whitespace, is_text, skip_whitespace, string_of, trim_m,
};
use crate::bound_cleanup::segment_is;

verus! {

// ----- hexadecimal fields -----

/// `s` without all the copies of the prefix `p` it starts with.
pub open spec fn strip_prefixes_m(s: Seq<char>, p: Seq<char>) -> Seq<char>
    decreases s.len(),
{
    if p.len() > 0 && s.len() >= p.len() && s.subrange(0, p.len() as int) == p {
        strip_prefixes_m(s.subrange(p.len() as int, s.len() as int), p)
    } else {
        s
    }
}

/// The value of a hexadecimal digit.
pub open spec fn hex_digit_m(c: char) -> Option<nat> {
    if '0' <= c && c <= '9' {
        Some((c as nat - '0' as nat) as nat)
    } else if 'a' <= c && c <= 'f' {
        Some((c as nat - 'a' as nat + 10) as nat)
    } else if 'A' <= c && c <= 'F' {
        Some((c as nat - 'A' as nat + 10) as nat)
    } else {
        None
    }
}

/// The value of a sequence of hexadecimal digits, if they all are.
pub open spec fn hex_value_m(ds: Seq<char>) -> Option<nat>
    decreases ds.len(),
{
    if ds.len() == 0 {
        Some(0)
    } else {
        match (hex_value_m(ds.drop_last()), hex_digit_m(ds.last())) {
            (Some(v), Some(d)) => Some(v * 16 + d),
            _ => None,
        }
    }
}

/// The digits of a hexadecimal field: the field trimmed of white space,
/// then of its leading `0x` prefixes, then of its leading `0X` prefixes.
pub open spec fn hex_digits_m(s: Seq<char>) -> Seq<char> {
    strip_prefixes_m(strip_prefixes_m(trim_m(s), "0x"@), "0X"@)
}

/// The value of a hexadecimal field as base-16 parsing of a `u64` reads its
/// digits: an optional `+`, then at least one digit, and a value that fits.
pub open spec fn parse_hex_m(s: Seq<char>) -> Option<u64> {
    let t = hex_digits_m(s);
    let ds = if t.len() > 0 && t[0] == '+' {
        t.drop_first()
    } else {
        t
    };
    if ds.len() == 0 {
        None
    } else {
        read_digits_m(ds)
    }
}

/// The value of hexadecimal digits, where they all are digits and their
/// value fits a `u64`.
pub open spec fn read_digits_m(ds: Seq<char>) -> Option<u64> {
    match hex_value_m(ds) {
        Some(v) => if v <= u64::MAX {
            Some(v as u64)
        } else {
            None
        },
        None => None,
    }
}

/// The digits of a hexadecimal field without their sign.
pub open spec fn unsigned_digits_m(s: Seq<char>) -> Seq<char> {
    let t = hex_digits_m(s);
    if t.len() > 0 && t[0] == '+' {
        t.drop_first()
    } else {
        t
    }
}

/// A prefix of hexadecimal digits is read as no more than the whole, and
/// fails wherever the whole fails.
pub proof fn lemma_hex_value_prefix(ds: Seq<char>, k: int)
    requires
        0 <= k <= ds.len(),
    ensures
        hex_value_m(ds.subrange(0, k)) is None ==> hex_value_m(ds) is None,
        hex_value_m(ds) matches Some(v) ==> hex_value_m(ds.subrange(0, k)) matches Some(u) && u <= v,
    decreases ds.len(),
{
    if k < ds.len() {
        lemma_hex_value_prefix(ds.drop_last(), k);
        assert(ds.drop_last().subrange(0, k) =~= ds.subrange(0, k));
    } else {
        assert(ds.subrange(0, k) =~= ds);
    }
}

/// Where `s[from..]` starts once its leading copies of `p` are skipped.
fn skip_prefixes(s: &str, from: usize, to: usize, p: &str) -> (k: usize)
    requires
        from <= to <= s@.len(),
        p@.len() > 0,
    ensures
        from <= k <= to,
        strip_prefixes_m(s@.subrange(from as int, to as int), p@) == s@.subrange(k as int, to as int),
    decreases to - from,
{
    let pl = p.unicode_len();
    let ghost t = s@.subrange(from as int, to as int);
    if to - from >= pl && segment_is(s, from, from + pl, p) {
        assert(t.subrange(0, pl as int) =~= s@.subrange(from as int, from + pl));
        assert(t.subrange(pl as int, t.len() as int) =~= s@.subrange(from + pl, to as int));
        skip_prefixes(s, from + pl, to, p)
    } else {
        assert(!(t.len() >= pl && t.subrange(0, pl as int) == p@)) by {
            if t.len() >= pl {
                assert(t.subrange(0, pl as int) =~= s@.subrange(from as int, from + pl));
            }
        }
        from
    }
}

/// The value of a hexadecimal digit.
fn hex_digit(c: char) -> (r: Option<u64>)
    ensures
        match hex_digit_m(c) {
            Some(d) => r == Some(d as u64),
            None => r is None,
        },
{
    if '0' <= c && c <= '9' {
        Some((c as u32 - '0' as u32) as u64)
    } else if 'a' <= c && c <= 'f' {
        Some((c as u32 - 'a' as u32 + 10) as u64)
    } else if 'A' <= c && c <= 'F' {
        Some((c as u32 - 'A' as u32 + 10) as u64)
    } else {
        None
    }
}

/// Where the unsigned digits of a hexadecimal field stand in it.
fn digits_range(value: &str) -> (r: (usize, usize))
    ensures
        r.0 <= r.1 <= value@.len(),
        unsigned_digits_m(value@) == value@.subrange(r.0 as int, r.1 as int),
{
    let n = value.unicode_len();
    let k1 = skip_whitespace(value, 0, n);
    let k2 = drop_trailing_whitespace(value, k1, n);
    assert(value@.subrange(0, n as int) =~= value@);
    proof {
        reveal_strlit("0x");
        reveal_strlit("0X");
    }
    let k3 = skip_prefixes(value, k1, k2, "0x");
    let k4 = skip_prefixes(value, k3, k2, "0X");
    let ghost t = value@.subrange(k4 as int, k2 as int);
    assert(hex_digits_m(value@) == t);
    if k4 < k2 && value.get_char(k4) == '+' {
        assert(t.drop_first() =~= value@.subrange(k4 + 1, k2 as int));
        (k4 + 1, k2)
    } else {
        (k4, k2)
    }
}

/// Reads a hexadecimal field: the value of its digits once white space and
/// `0x`/`0X` prefixes are stripped, or `None` where the digits are missing,
/// malformed or too large for a `u64`.
pub fn parse_hex(value: &str) -> (r: Option<u64>)
    ensures
        r == parse_hex_m(value@),
{
    let (start, end) = digits_range(value);
    let ghost ds = value@.subrange(start as int, end as int);
    if start == end {
        return None;
    }
    let mut v: u64 = 0;
    let mut i: usize = start;
    assert(ds.subrange(0, 0) =~= Seq::<char>::empty());
    while i < end
        invariant
            start < end <= value@.len(),
            start <= i <= end,
            ds == value@.subrange(start as int, end as int),
            parse_hex_m(value@) == read_digits_m(ds),
            hex_value_m(ds.subrange(0, i - start)) == Some(v as nat),
        decreases end - i,
    {
        let c = value.get_char(i);
        let ghost pre = ds.subrange(0, i - start + 1);
        assert(pre.drop_last() =~= ds.subrange(0, i - start));
        assert(pre.last() == c);
        match hex_digit(c) {
            None => {
                proof {
                    lemma_hex_value_prefix(ds, i - start + 1);
                }
                return None;
            },
            Some(d) => {
                assert(hex_value_m(pre) == Some((v * 16 + d) as nat));
                if v > 0x0fff_ffff_ffff_ffff {
                    proof {
                        lemma_hex_value_prefix(ds, i - start + 1);
                    }
                    return None;
                }
                v = v * 16 + d;
            },
        }
        i = i + 1;
    }
    assert(ds.subrange(0, end - start) =~= ds);
    Some(v)
}

/// The value of a hexadecimal field that is known to be well formed.
pub fn hex(value: &str) -> (r: u64)
    requires
        parse_hex_m(value@) is Some,
    ensures
        Some(r) == parse_hex_m(value@),
{
    parse_hex(value).unwrap()
}

/// The value of a well-formed hexadecimal field, its 64 bits read as a
/// signed integer.
pub fn hex_i64(value: &str) -> (r: i64)
    requires
        parse_hex_m(value@) is Some,
    ensures
        r == parse_hex_m(value@).unwrap() as i64,
{
    hex(value) as i64
}

/// The value of a well-formed hexadecimal field read as a signed 64-bit
/// integer, widened.
pub open spec fn hex_item_m(s: Seq<char>) -> i128 {
    parse_hex_m(s).unwrap() as i64 as i128
}

/// The list of the values of well-formed hexadecimal fields, each read as
/// a signed 64-bit integer, in order.
pub fn list_of_hex(values: &Vec<String>) -> (r: List<i128>)
    requires
        forall|i: int| 0 <= i < values@.len() ==> parse_hex_m(#[trigger] values@[i]@) is Some,
    ensures
        list_seq(r) == values@.map_values(|v: String| hex_item_m(v@)),
{
    let ghost all = values@.map_values(|v: String| hex_item_m(v@));
    let mut r: List<i128> = List::Nil;
    let mut i: usize = values.len();
    assert(list_seq(r) =~= all.subrange(i as int, all.len() as int));
    while i > 0
        invariant
            i <= values@.len(),
            all == values@.map_values(|v: String| hex_item_m(v@)),
            forall|j: int| 0 <= j < values@.len() ==> parse_hex_m(#[trigger] values@[j]@) is Some,
            list_seq(r) == all.subrange(i as int, all.len() as int),
        decreases i,
    {
        i = i - 1;
        let x = hex_i64(values[i].as_str()) as i128;
        assert(x == all[i as int]);
        let ghost old_seq = list_seq(r);
        r = List::Cons(Box::new(x), Box::new(r));
        assert(list_seq(r) == seq![x] + old_seq);
        assert(list_seq(r) =~= all.subrange(i as int, all.len() as int));
    }
    r
}

// ----- instructions -----

/// The fields of an instruction that the case preparation reads.
pub struct Insn {
    /// Operation code.
    pub opc: u8,
    /// Source register operand.
    pub src: u8,
    /// Immediate value operand.
    pub imm: i64,
}

/// The little-endian signed 32-bit integer held in four bytes.
pub open spec fn le_i32_m(b0: u8, b1: u8, b2: u8, b3: u8) -> int {
    let u = b0 + 256 * b1 + 65536 * b2 + 16777216 * b3;
    if u < 0x8000_0000 {
        u
    } else {
        u - 0x1_0000_0000
    }
}

/// The opcode of the `pc`-th instruction of `prog`.
pub open spec fn opc_m(prog: Seq<u8>, pc: int) -> u8 {
    prog[8 * pc]
}

/// The source register of the `pc`-th instruction of `prog`.
pub open spec fn src_m(prog: Seq<u8>, pc: int) -> int {
    prog[8 * pc + 1] as int / 16
}

/// The immediate of the `pc`-th instruction of `prog`.
pub open spec fn imm_m(prog: Seq<u8>, pc: int) -> int {
    le_i32_m(prog[8 * pc + 4], prog[8 * pc + 5], prog[8 * pc + 6], prog[8 * pc + 7])
}

/// Decodes the `pc`-th instruction of `prog` with
/// `solana_rbpf::ebpf::get_insn`. Trusted to read, as the crate's source
/// does, the opcode from the instruction's first byte, the source register
/// from the high half of its second byte, and the immediate as the
/// little-endian signed 32-bit value of its last four bytes; the crate
/// asserts that the instruction lies within `prog`.
#[verifier::external_body]
fn get_insn(prog: &[u8], pc: usize) -> (r: Insn)
    requires
        (pc + 1) * 8 <= prog@.len(),
    ensures
        r.opc == opc_m(prog@, pc as int),
        r.src == src_m(prog@, pc as int),
        r.imm == imm_m(prog@, pc as int),
{
    let insn = solana_rbpf::ebpf::get_insn(prog, pc);
    Insn { opc: insn.opc, src: insn.src, imm: insn.imm }
}

/// The opcode of a call to an immediate target,
/// `solana_rbpf::ebpf::CALL_IMM`; its source defines it as `0x85`.
#[verifier::external_body]
fn call_imm_opcode() -> (r: u8)
    ensures
        r == 0x85,
{
    solana_rbpf::ebpf::CALL_IMM
}

/// The size of an instruction, `solana_rbpf::ebpf::INSN_SIZE`; its source
/// defines it as eight bytes.
#[verifier::external_body]
fn insn_size() -> (r: usize)
    ensures
        r == 8,
{
    solana_rbpf::ebpf::INSN_SIZE
}

/// Whether the `pc`-th instruction of `prog` calls a function registered
/// under a non-negative immediate.
pub open spec fn is_direct_call_m(prog: Seq<u8>, pc: int) -> bool {
    opc_m(prog, pc) == 0x85 && src_m(prog, pc) == 1 && imm_m(prog, pc) >= 0
}

/// The targets of the direct calls among the first `n` instructions of
/// `prog`, in program order.
pub open spec fn direct_call_targets_m(prog: Seq<u8>, n: nat) -> Seq<usize>
    decreases n,
{
    if n == 0 {
        Seq::empty()
    } else {
        let before = direct_call_targets_m(prog, (n - 1) as nat);
        if is_direct_call_m(prog, n - 1) {
            before.push(imm_m(prog, n - 1) as usize)
        } else {
            before
        }
    }
}

/// The targets of the direct calls of a program, in program order.
pub fn direct_call_targets(prog: &Vec<u8>) -> (r: Vec<usize>)
    ensures
        r@ == direct_call_targets_m(prog@, prog@.len() / 8),
{
    let mut r: Vec<usize> = Vec::new();
    let size = insn_size();
    let call_imm = call_imm_opcode();
    let count = prog.len() / size;
    let mut pc: usize = 0;
    while pc < count
        invariant
            size == 8,
            call_imm == 0x85,
            count == prog@.len() / 8,
            pc <= count,
            r@ == direct_call_targets_m(prog@, pc as nat),
        decreases count - pc,
    {
        let insn = get_insn(prog.as_slice(), pc);
        if insn.opc == call_imm && insn.src == 1 && insn.imm >= 0 {
            assert(insn.imm <= 0x7fff_ffff);
            r.push(insn.imm as usize);
        }
        pc = pc + 1;
    }
    r
}

/// A function to register before a program runs: its key, its name and its
/// target.
pub struct Registration {
    pub key: u32,
    pub name: String,
    pub target: usize,
}

/// The registration of the direct-call target `t`: keyed by `t`, named
/// `function_` and `t` in decimal.
pub open spec fn direct_registration_m(t: usize) -> (u32, Seq<char>, usize) {
    (t as u32, "function_"@ + decimal(t as nat), t)
}

/// The registrations that the named cases need besides their direct calls.
pub open spec fn extra_registrations_m(name: Seq<char>) -> Seq<(u32, Seq<char>, usize)> {
    if name == "test_callx"@ || name == "test_callx_imm"@ {
        seq![(6u32, "function_foo"@, 6usize)]
    } else if name == "test_far_jumps"@ {
        seq![(2u32, "function_a"@, 2usize)]
    } else {
        Seq::empty()
    }
}

/// The model of a registration.
pub open spec fn registration_view(r: Registration) -> (u32, Seq<char>, usize) {
    (r.key, r.name@, r.target)
}

/// The functions to register before the program `prog` of the case `name`
/// runs, in order: one per direct call, then those the case needs.
pub fn function_registrations(name: &str, prog: &Vec<u8>) -> (r: Vec<Registration>)
    ensures
        r@.map_values(|x: Registration| registration_view(x)) == direct_call_targets_m(
            prog@,
            prog@.len() / 8,
        ).map_values(|t: usize| direct_registration_m(t)) + extra_registrations_m(name@),
{
    let targets = direct_call_targets(prog);
    let ghost direct = targets@.map_values(|t: usize| direct_registration_m(t));
    let mut r: Vec<Registration> = Vec::new();
    let mut i: usize = 0;
    while i < targets.len()
        invariant
            i <= targets@.len(),
            direct == targets@.map_values(|t: usize| direct_registration_m(t)),
            r@.map_values(|x: Registration| registration_view(x)) == direct.subrange(0, i as int),
        decreases targets@.len() - i,
    {
        let t = targets[i];
        let mut label = string_of("function_");
        let digits = decimal_string(t as u128);
        label.append(digits.as_str());
        let item = Registration { key: t as u32, name: label, target: t };
        assert(registration_view(item) == direct[i as int]);
        let ghost before = r@;
        let ghost iv = registration_view(item);
        r.push(item);
        assert(r@.map_values(|x: Registration| registration_view(x)) =~= before.map_values(
            |x: Registration| registration_view(x),
        ).push(iv));
        assert(r@.map_values(|x: Registration| registration_view(x)) =~= direct.subrange(
            0,
            i + 1,
        ));
        i = i + 1;
    }
    assert(direct.subrange(0, direct.len() as int) =~= direct);
    let ghost before = r@;
    if is_text(&string_of(name), "test_callx") || is_text(&string_of(name), "test_callx_imm") {
        r.push(Registration { key: 6, name: string_of("function_foo"), target: 6 });
    } else if is_text(&string_of(name), "test_far_jumps") {
        r.push(Registration { key: 2, name: string_of("function_a"), target: 2 });
    }
    assert(r@.map_values(|x: Registration| registration_view(x)) =~= before.map_values(
        |x: Registration| registration_view(x),
    ) + extra_registrations_m(name@));
    r
}

// ----- cases -----

/// The length the input memory of the named case is given.
pub open spec fn memory_len_m(name: Seq<char>, len: nat) -> nat {
    if name == "test_lmul128"@ {
        16
    } else if name == "test_stxb_chain"@ {
        10
    } else {
        len
    }
}

/// The input memory of the named case: `memory` cut or filled with zeros to
/// the length the case needs.
pub fn sized_memory(name: &str, memory: Vec<u8>) -> (r: Vec<u8>)
    ensures
        r@.len() == memory_len_m(name@, memory@.len()),
        forall|i: int| 0 <= i < r@.len() ==> #[trigger] r@[i] == if i < memory@.len() {
            memory@[i]
        } else {
            0u8
        },
{
    let target: usize = if is_text(&string_of(name), "test_lmul128") {
        16
    } else if is_text(&string_of(name), "test_stxb_chain") {
        10
    } else {
        memory.len()
    };
    let mut r = memory;
    if r.len() > target {
        r.truncate(target);
    } else {
        let ghost initial = r@;
        while r.len() < target
            invariant
                initial.len() <= r@.len() <= target,
                forall|i: int| 0 <= i < r@.len() ==> #[trigger] r@[i] == if i < initial.len() {
                    initial[i]
                } else {
                    0u8
                },
            decreases target - r@.len(),
        {
            r.push(0);
        }
    }
    r
}

/// The low byte of each value.
pub fn low_bytes(values: &Vec<i64>) -> (r: Vec<u8>)
    ensures
        r@.len() == values@.len(),
        forall|i: int| 0 <= i < r@.len() ==> #[trigger] r@[i] == values@[i] as u8,
{
    let mut r: Vec<u8> = Vec::new();
    let mut i: usize = 0;
    while i < values.len()
        invariant
            i <= values@.len(),
            r@.len() == i,
            forall|j: int| 0 <= j < i ==> #[trigger] r@[j] == values@[j] as u8,
        decreases values@.len() - i,
    {
        r.push(values[i] as u8);
        i = i + 1;
    }
    r
}

/// How one instruction step is run: whether it stores, and whether it
/// loads.
pub struct StepKind {
    pub is_store: bool,
    pub is_load: bool,
}

/// A step stores when its fuel field is two; it loads when it does not
/// store and its case has input memory.
pub fn step_kind(fuel: u64, memory_is_empty: bool) -> (r: StepKind)
    ensures
        r.is_store == (fuel == 2),
        r.is_load == (fuel != 2 && !memory_is_empty),
{
    let is_store = fuel == 2;
    StepKind { is_store, is_load: !is_store && !memory_is_empty }
}

/// Whether an instruction step passed: it ran, and ended with the expected
/// result and program counter.
pub fn step_passed(ran: bool, result: u64, pc: u64, expected_result: u64, expected_pc: u64) -> (b: bool)
    ensures
        b == (ran && result == expected_result && pc == expected_pc),
{
    ran && result == expected_result && pc == expected_pc
}

/// Whether a program run passed: it returned the expected value where the
/// case expects success, and failed where the case expects failure.
pub fn program_passed(returned: Option<u64>, succeeds: bool, expected: u64) -> (b: bool)
    ensures
        b == match returned {
            Some(v) => succeeds && v == expected,
            None => !succeeds,
        },
{
    match returned {
        Some(v) => succeeds && v == expected,
        None => !succeeds,
    }
}

} // verus!
