use rustlight_opt::sbpf::{
    direct_call_targets, function_registrations, hex, hex_i64, list_of_hex, parse_hex,
    program_passed, sized_memory, step_kind, step_passed,
};

#[test]
fn reads_hexadecimal_fields() {
    assert_eq!(parse_hex(" 0x1f "), Some(31));
    assert_eq!(parse_hex("0x0X10"), Some(16));
    assert_eq!(parse_hex("+ff"), Some(255));
    assert_eq!(parse_hex("0X0x1"), None);
    assert_eq!(parse_hex(""), None);
    assert_eq!(parse_hex("0x"), None);
    assert_eq!(parse_hex("+"), None);
    assert_eq!(parse_hex("-1"), None);
    assert_eq!(parse_hex("ffffffffffffffff"), Some(u64::MAX));
    assert_eq!(parse_hex("10000000000000000"), None);
    assert_eq!(hex("0xA"), 10);
    assert_eq!(hex_i64("0xffffffffffffffff"), -1);
}

#[test]
fn lists_hexadecimal_fields_in_order() {
    let list = list_of_hex(&vec!["0x1".to_string(), "0xffffffffffffffff".to_string()]);
    let mut seen = Vec::new();
    let mut cursor = &list;
    while let rustlight_opt::list::List::Cons(head, rest) = cursor {
        seen.push(**head);
        cursor = &**rest;
    }
    assert_eq!(seen, vec![1i128, -1i128]);
}

fn insn(opc: u8, regs: u8, imm: i32) -> Vec<u8> {
    let mut bytes = vec![opc, regs, 0, 0];
    bytes.extend_from_slice(&imm.to_le_bytes());
    bytes
}

#[test]
fn registers_direct_call_targets() {
    let mut program = insn(0x85, 0x10, 3);
    program.extend(insn(0x85, 0x00, 5));
    program.extend(insn(0x85, 0x10, -1));
    program.extend(insn(0x95, 0x00, 0));
    program.extend(insn(0x85, 0x10, 7));
    program.push(0x85);
    assert_eq!(direct_call_targets(&program), vec![3, 7]);
    let registrations = function_registrations("test_callx", &program);
    let names: Vec<String> = registrations.iter().map(|r| r.name.clone()).collect();
    assert_eq!(names, vec!["function_3", "function_7", "function_foo"]);
    assert_eq!(registrations[2].key, 6);
    assert_eq!(registrations[2].target, 6);
    let far = function_registrations("test_far_jumps", &vec![]);
    assert_eq!(far.len(), 1);
    assert_eq!((far[0].key, far[0].target), (2, 2));
    assert_eq!(far[0].name, "function_a");
}

#[test]
fn sizes_case_memory() {
    assert_eq!(sized_memory("test_lmul128", vec![1, 2]), vec![1, 2, 0, 0, 0, 0, 0, 0, 0, 0, 0, 0, 0, 0, 0, 0]);
    assert_eq!(sized_memory("test_stxb_chain", vec![9; 12]).len(), 10);
    assert_eq!(sized_memory("other", vec![4, 5]), vec![4, 5]);
}

#[test]
fn judges_steps_and_programs() {
    let store = step_kind(2, false);
    assert!(store.is_store && !store.is_load);
    let load = step_kind(1, false);
    assert!(!load.is_store && load.is_load);
    assert!(!step_kind(1, true).is_load);
    assert!(step_passed(true, 5, 8, 5, 8));
    assert!(!step_passed(true, 5, 9, 5, 8));
    assert!(!step_passed(false, 5, 8, 5, 8));
    assert!(program_passed(Some(3), true, 3));
    assert!(!program_passed(Some(3), false, 3));
    assert!(program_passed(None, false, 0));
    assert!(!program_passed(None, true, 0));
}
