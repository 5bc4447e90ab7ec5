use pe_parser::object::{Bit, Model, Object};

#[test]
fn new_object_knows_nothing() {
    let o = Object::make();
    assert_eq!(o.model, Model::Unknown);
    assert_eq!(o.bit, Bit::Unknown);
    assert_eq!(o.entry_point, 0);
    assert_eq!(o.imagebase, 0);
}

#[test]
fn base_info_of_new_object() {
    let o = Object::make();
    assert_eq!(
        o.base_info(),
        "Model: None\nBit: None\nEntry Point: 0x0\nImage Base: 0x0\n"
    );
}

#[test]
fn base_info_shows_hex_addresses() {
    let o = Object {
        model: Model::Win64,
        bit: Bit::Bit64,
        entry_point: 0x1A2B,
        imagebase: 0x1_4000_0000,
    };
    assert_eq!(
        o.base_info(),
        "Model: Win64\nBit: Bit64\nEntry Point: 0x1A2B\nImage Base: 0x140000000\n"
    );
}

#[test]
fn base_info_of_32_bit_object() {
    let o = Object {
        model: Model::Win32,
        bit: Bit::Bit32,
        entry_point: 0xFFFF_FFFF,
        imagebase: 0x40_0000,
    };
    assert_eq!(
        o.base_info(),
        "Model: Win32\nBit: Bit32\nEntry Point: 0xFFFFFFFF\nImage Base: 0x400000\n"
    );
}
