use pe_parser::disassember::{Disassemer, FlowKind, MyInst, RawInstruction};

fn decode(bytes: &[u8], ip: u64) -> MyInst {
    Disassemer::make(64).decode_one(bytes, ip).expect("an instruction")
}

#[test]
fn nothing_to_decode_in_empty_data() {
    assert!(Disassemer::make(64).decode_one(&[], 0x1000).is_none());
}

#[test]
fn ret_ends_a_block() {
    let inst = decode(&[0xC3], 0x1000);
    assert_eq!(inst.ip(), 0x1000);
    assert_eq!(inst.len(), 1);
    assert_eq!(inst.next_ip(), 0x1001);
    assert!(inst.is_ret());
    assert!(inst.is_bb_terminal());
    assert!(!inst.is_call());
    assert_eq!(inst.get_branch_target(), None);
    assert_eq!(inst.flow(), FlowKind::Return);
}

#[test]
fn nop_falls_through() {
    let inst = decode(&[0x90, 0xC3], 0x2000);
    assert_eq!(inst.len(), 1);
    assert_eq!(inst.flow(), FlowKind::Next);
    assert!(!inst.is_bb_terminal());
    assert_eq!(inst.get_branch_target(), None);
}

#[test]
fn direct_call_has_target() {
    // call rel32 +0x0B from 0x1010: target 0x1015 + 0x0B = 0x1020
    let inst = decode(&[0xE8, 0x0B, 0x00, 0x00, 0x00], 0x1010);
    assert_eq!(inst.len(), 5);
    assert_eq!(inst.next_ip(), 0x1015);
    assert!(inst.is_call());
    assert!(!inst.is_indirct_call());
    assert!(!inst.is_bb_terminal());
    assert_eq!(inst.get_branch_target(), Some(0x1020));
}

#[test]
fn indirect_call_has_no_target() {
    // call rax
    let inst = decode(&[0xFF, 0xD0], 0x1000);
    assert!(inst.is_indirct_call());
    assert!(!inst.is_call());
    assert_eq!(inst.get_branch_target(), None);
}

#[test]
fn short_jump_ends_a_block() {
    // jmp short +0x0E from 0x1000: target 0x1010
    let inst = decode(&[0xEB, 0x0E], 0x1000);
    assert!(inst.is_jmp());
    assert!(inst.is_bb_terminal());
    assert_eq!(inst.get_branch_target(), Some(0x1010));
}

#[test]
fn indirect_jump_ends_a_block_without_target() {
    // jmp rax
    let inst = decode(&[0xFF, 0xE0], 0x1000);
    assert!(inst.is_indirct_jmp());
    assert!(inst.is_bb_terminal());
    assert_eq!(inst.get_branch_target(), None);
}

#[test]
fn conditional_branch_has_target() {
    // je short +3 from 0x1000: target 0x1005
    let inst = decode(&[0x74, 0x03], 0x1000);
    assert!(inst.is_branch());
    assert!(inst.is_bb_terminal());
    assert_eq!(inst.next_ip(), 0x1002);
    assert_eq!(inst.get_branch_target(), Some(0x1005));
}

#[test]
fn int3_ends_a_block() {
    let inst = decode(&[0xCC], 0x1000);
    assert_eq!(inst.flow(), FlowKind::Interrupt);
    assert!(inst.is_bb_terminal());
}

#[test]
fn invalid_bytes_end_a_block() {
    // ud2
    let inst = decode(&[0x0F, 0x0B], 0x1000);
    assert_eq!(inst.flow(), FlowKind::Exception);
    assert!(inst.is_bb_terminal());
}

#[test]
fn cut_off_instruction_is_at_most_as_long_as_data() {
    // the first byte of a call rel32, and nothing after it
    let inst = decode(&[0xE8], 0x1000);
    assert_eq!(inst.len(), 1);
    assert_eq!(inst.flow(), FlowKind::Exception);
}

#[test]
fn next_ip_wraps_at_top_of_address_space() {
    let inst = decode(&[0x90], u64::MAX);
    assert_eq!(inst.next_ip(), 0);
}

#[test]
fn flow_kind_from_decoder_numbers() {
    assert_eq!(FlowKind::from_code(0), FlowKind::Next);
    assert_eq!(FlowKind::from_code(5), FlowKind::Call);
    assert_eq!(FlowKind::from_code(9), FlowKind::Exception);
}

#[test]
fn stringity_gives_intel_syntax() {
    assert_eq!(decode(&[0xC3], 0x1000).stringity(), "ret");
    assert_eq!(decode(&[0x90], 0x1000).stringity(), "nop");
}

#[test]
fn instruction_line() {
    assert_eq!(decode(&[0xC3], 0x1A00).to_string(), "1A00\t ret\n");
}

#[test]
fn make_keeps_what_it_is_given() {
    let inst = MyInst::make(
        32,
        &[0x90],
        0x10,
        RawInstruction { len: 1, next_ip: 0x11, flow_code: 3, near_branch_target: 0x40 },
    );
    assert_eq!(inst.ip(), 0x10);
    assert_eq!(inst.len(), 1);
    assert_eq!(inst.next_ip(), 0x11);
    assert!(inst.is_branch());
    assert_eq!(inst.get_branch_target(), Some(0x40));
}
