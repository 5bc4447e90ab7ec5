use pe_parser::segment::CodeSegment;

fn segment() -> CodeSegment {
    CodeSegment {
        name: ".text".to_string(),
        rva: 0x1000,
        mem_size: 0x10,
        offset: 0x400,
        size: 0x8,
        data: vec![1, 2, 3, 4, 5, 6],
    }
}

#[test]
fn contains_rva_within_raw_size() {
    let s = segment();
    assert!(s.contains_rva(0x1000));
    assert!(s.contains_rva(0x1007));
    assert!(!s.contains_rva(0x1008));
    assert!(!s.contains_rva(0xFFF));
}

#[test]
fn contains_rva_near_the_top_of_the_address_space() {
    let s = CodeSegment { rva: 0xFFFF_FFF0, size: 0x20, ..segment() };
    assert!(s.contains_rva(0xFFFF_FFFF));
    assert!(!s.contains_rva(0x10));
}

#[test]
fn read_gives_the_bytes_held() {
    let s = segment();
    assert_eq!(s.read(0x1001, 3), Some(&[2u8, 3, 4][..]));
    assert_eq!(s.read(0x1000, 6), Some(&[1u8, 2, 3, 4, 5, 6][..]));
    assert_eq!(s.read(0x1004, 0), Some(&[][..]));
}

#[test]
fn read_past_the_data_is_none() {
    let s = segment();
    assert_eq!(s.read(0x1004, 3), None);
    assert_eq!(s.read(0x1006, 1), None);
    assert_eq!(s.read(0x2000, 1), None);
}

#[test]
fn read_into_copies_what_fits() {
    let s = segment();
    let mut buffer = [9u8; 4];
    assert_eq!(s.read_into(0x1001, &mut buffer), 4);
    assert_eq!(buffer, [2, 3, 4, 5]);
}

#[test]
fn read_into_keeps_the_rest_of_the_buffer() {
    let s = segment();
    let mut buffer = [9u8; 4];
    assert_eq!(s.read_into(0x1004, &mut buffer), 2);
    assert_eq!(buffer, [5, 6, 9, 9]);
}

#[test]
fn read_into_past_the_data_copies_nothing() {
    let s = segment();
    let mut buffer = [9u8; 4];
    assert_eq!(s.read_into(0x1007, &mut buffer), 0);
    assert_eq!(buffer, [9, 9, 9, 9]);
}
