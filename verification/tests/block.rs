use pe_parser::base_block::BB;
use pe_parser::disassember::{Disassemer, MyInst};

fn decode(bytes: &[u8], ip: u64) -> MyInst {
    Disassemer::make(64).decode_one(bytes, ip).expect("an instruction")
}

/// nop at 1, 2, 3, 4, then a call at 5 (to 5), then ret at 0xA: a complete block at 1.
fn block_at_1() -> BB {
    let mut bb = BB::make(1);
    for ip in 1..5u64 {
        bb.add_inst(decode(&[0x90], ip));
    }
    bb.add_inst(decode(&[0xE8, 0xFB, 0xFF, 0xFF, 0xFF], 5));
    bb.add_inst(decode(&[0xC3], 0xA));
    bb.set_complete();
    bb
}

#[test]
fn new_block_is_empty_and_open() {
    let bb = BB::make(0x1000);
    assert_eq!(bb.rva(), 0x1000);
    assert!(bb.last().is_none());
    assert!(!bb.is_complete());
    assert_eq!(bb.iter().count(), 0);
    assert_eq!(bb.inst_count(), 0);
}

#[test]
fn add_inst_appends_and_hands_back() {
    let mut bb = BB::make(0x1000);
    let len = bb.add_inst(decode(&[0x90], 0x1000)).len();
    assert_eq!(len, 1);
    bb.add_inst(decode(&[0xC3], 0x1001));
    assert_eq!(bb.inst_count(), 2);
    assert!(bb.last().unwrap().is_ret());
    assert_eq!(bb.inst(0).ip(), 0x1000);
    let ips: Vec<u64> = bb.iter().map(|i| i.ip()).collect();
    assert_eq!(ips, vec![0x1000, 0x1001]);
}

#[test]
fn set_complete_closes_the_block() {
    let mut bb = BB::make(0x1000);
    bb.set_complete();
    assert!(bb.is_complete());
}

#[test]
fn size_spans_to_end_of_last_instruction() {
    let bb = block_at_1();
    assert_eq!(bb.size(), 0xA);
}

#[test]
fn contains_compares_with_the_size() {
    let bb = block_at_1();
    // at or after the start, and below the size (0xA)
    assert!(bb.contains(1));
    assert!(bb.contains(5));
    assert!(bb.contains(9));
    assert!(!bb.contains(0xA));
    assert!(!bb.contains(0));
}

#[test]
fn contains_of_a_high_block_is_false() {
    let mut bb = BB::make(0x1000);
    bb.add_inst(decode(&[0xC3], 0x1000));
    bb.set_complete();
    assert_eq!(bb.size(), 1);
    assert!(!bb.contains(0x1000));
}

#[test]
fn split_at_an_instruction_start() {
    let mut bb = block_at_1();
    let tail = bb.split_at(5).expect("a split");
    assert_eq!(bb.inst_count(), 4);
    assert_eq!(bb.rva(), 1);
    assert!(bb.is_complete());
    assert_eq!(bb.last().unwrap().ip(), 4);
    assert_eq!(tail.rva(), 5);
    assert!(tail.is_complete());
    assert_eq!(tail.inst_count(), 2);
    assert!(tail.inst(0).is_call());
    assert!(tail.last().unwrap().is_ret());
}

#[test]
fn split_in_the_middle_of_an_instruction_changes_nothing() {
    let mut bb = block_at_1();
    assert!(bb.split_at(6).is_none());
    assert_eq!(bb.inst_count(), 6);
}

#[test]
fn split_outside_the_block_changes_nothing() {
    let mut bb = block_at_1();
    assert!(bb.split_at(0).is_none());
    assert!(bb.split_at(0xB).is_none());
    assert_eq!(bb.inst_count(), 6);
}

#[test]
fn split_pieces_rejoin() {
    let whole: Vec<u64> = block_at_1().iter().map(|i| i.ip()).collect();
    let mut bb = block_at_1();
    let tail = bb.split_at(3).expect("a split");
    let mut rejoined: Vec<u64> = bb.iter().map(|i| i.ip()).collect();
    rejoined.extend(tail.iter().map(|i| i.ip()));
    assert_eq!(rejoined, whole);
}

#[test]
fn block_text() {
    let mut bb = BB::make(0x1000);
    bb.add_inst(decode(&[0x90], 0x1000));
    bb.add_inst(decode(&[0xC3], 0x1001));
    assert_eq!(
        bb.to_string(),
        "BB at RVA: 0x1000, 指令数: 2\n  1000\t nop\n  1001\t ret\n"
    );
}

#[test]
fn empty_block_text() {
    assert_eq!(BB::make(0xABC).to_string(), "BB at RVA: 0xABC, 指令数: 0\n");
}

#[test]
fn split_sizes_add_up() {
    let mut bb = block_at_1();
    let whole = bb.size();
    assert_eq!(whole, 10);
    let tail = bb.split_at(5).expect("a split");
    assert_eq!(bb.size(), 4);
    assert_eq!(tail.size(), 6);
    assert_eq!(bb.size() + tail.size(), whole);
}
