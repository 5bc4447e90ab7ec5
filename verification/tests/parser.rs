use pe_parser::image::{PeHeaders, PeImage, PeSection, SectionInfo};
use pe_parser::object::{Bit, Model, Object};
use pe_parser::parser::{PEParser, ParseError};
use pe_parser::segment::CodeSegment;

const SECTION_TEXT_FLAGS: u32 = 0x6000_0020;

fn put16(img: &mut [u8], at: usize, v: u16) {
    img[at..at + 2].copy_from_slice(&v.to_le_bytes());
}

fn put32(img: &mut [u8], at: usize, v: u32) {
    img[at..at + 4].copy_from_slice(&v.to_le_bytes());
}

fn put64(img: &mut [u8], at: usize, v: u64) {
    img[at..at + 8].copy_from_slice(&v.to_le_bytes());
}

/// A PE64 image with one section at `va` whose raw bytes are `code`.
fn build_pe(va: u32, code: &[u8], entry: u32, flags: u32) -> Vec<u8> {
    let raw_at = 0x200usize;
    let mut img = vec![0u8; raw_at + code.len()];
    // DOS header
    put16(&mut img, 0, 0x5A4D);
    put32(&mut img, 0x3C, 0x40);
    // NT headers
    let nt = 0x40;
    put32(&mut img, nt, 0x0000_4550);
    put16(&mut img, nt + 4, 0x8664);
    put16(&mut img, nt + 6, 1);
    put16(&mut img, nt + 20, 0xF0);
    put16(&mut img, nt + 22, 0x22);
    let opt = nt + 24;
    put16(&mut img, opt, 0x20B);
    put32(&mut img, opt + 16, entry);
    put32(&mut img, opt + 20, va);
    put64(&mut img, opt + 24, 0x1_4000_0000);
    put32(&mut img, opt + 32, 0x1000);
    put32(&mut img, opt + 36, 0x200);
    put32(&mut img, opt + 56, 0x10000);
    put32(&mut img, opt + 60, 0x200);
    put32(&mut img, opt + 108, 16);
    // section header
    let sh = opt + 0xF0;
    img[sh..sh + 5].copy_from_slice(b".text");
    put32(&mut img, sh + 8, code.len() as u32);
    put32(&mut img, sh + 12, va);
    put32(&mut img, sh + 16, code.len() as u32);
    put32(&mut img, sh + 20, raw_at as u32);
    put32(&mut img, sh + 36, flags);
    img[raw_at..].copy_from_slice(code);
    img
}

/// Like `build_pe`, with an export directory at `dir_rva` listing `functions`
/// (its table right after it); both lie in the section.
fn build_pe_with_exports(va: u32, code: &[u8], entry: u32, dir_rva: u32, functions: &[u32]) -> Vec<u8> {
    let mut img = build_pe(va, code, entry, SECTION_TEXT_FLAGS);
    let opt = 0x40 + 24;
    put32(&mut img, opt + 112, dir_rva);
    put32(&mut img, opt + 116, 40 + 4 * functions.len() as u32);
    let dir = 0x200 + (dir_rva - va) as usize;
    put32(&mut img, dir + 16, 1);
    put32(&mut img, dir + 20, functions.len() as u32);
    put32(&mut img, dir + 28, dir_rva + 40);
    for (i, f) in functions.iter().enumerate() {
        put32(&mut img, dir + 40 + 4 * i, *f);
    }
    img
}

/// je +3; call 0x1010; ret; ...; ret at 0x1010
fn branchy_code() -> Vec<u8> {
    let mut code = vec![0u8; 0x11];
    code[0..2].copy_from_slice(&[0x74, 0x03]);
    code[2..7].copy_from_slice(&[0xE8, 0x09, 0x00, 0x00, 0x00]);
    code[7] = 0xC3;
    code[0x10] = 0xC3;
    code
}

#[test]
fn make_rejects_garbage() {
    assert!(matches!(PEParser::make(&vec![0u8; 16]), Err(ParseError::InvalidImage)));
    assert!(matches!(PEParser::make(&vec![0xFFu8; 0x400]), Err(ParseError::InvalidImage)));
}

#[test]
fn make_accepts_a_pe64_image() {
    assert!(PEParser::make(&build_pe(0x1000, &branchy_code(), 0x1000, SECTION_TEXT_FLAGS)).is_ok());
}

#[test]
fn parse_sets_the_base_information() {
    let parser = PEParser::make(&build_pe(0x1000, &branchy_code(), 0x1000, SECTION_TEXT_FLAGS)).unwrap();
    let mut object = Object::make();
    assert!(parser.parse(&mut object).is_ok());
    assert_eq!(object.model, Model::Win64);
    assert_eq!(object.bit, Bit::Bit64);
    assert_eq!(object.entry_point, 0x1000);
    assert_eq!(object.imagebase, 0x1_4000_0000);
}

#[test]
fn exploration_follows_branches_and_calls() {
    let parser = PEParser::make(&build_pe(0x1000, &branchy_code(), 0x1000, SECTION_TEXT_FLAGS)).unwrap();
    let ctx = parser.parse_functions().unwrap();
    assert_eq!(ctx.work_list().len(), 0);
    let mut seen: Vec<u32> = ctx.seen_rvas().iter().copied().collect();
    seen.sort();
    assert_eq!(seen, vec![0x1000, 0x1002, 0x1005, 0x1010]);
    let starts: Vec<u32> = ctx.bb_map().keys().copied().collect();
    assert_eq!(starts, vec![0x1000, 0x1002, 0x1005, 0x1010]);
    let first = &ctx.bb_map()[&0x1000];
    assert_eq!(first.inst_count(), 1);
    assert!(first.is_complete());
    assert!(first.last().unwrap().is_branch());
    let second = &ctx.bb_map()[&0x1002];
    assert_eq!(second.inst_count(), 2);
    assert!(second.inst(0).is_call());
    assert!(second.last().unwrap().is_ret());
    // 0x1005 is inside the call at 0x1002; the block there is decoded anew
    let third = &ctx.bb_map()[&0x1005];
    assert_eq!(third.inst(0).ip(), 0x1005);
    assert!(third.is_complete());
    assert!(ctx.bb_map()[&0x1010].last().unwrap().is_ret());
}

#[test]
fn every_block_starts_at_its_key_and_targets_are_explored() {
    let parser = PEParser::make(&build_pe(0x1000, &branchy_code(), 0x1000, SECTION_TEXT_FLAGS)).unwrap();
    let ctx = parser.parse_functions().unwrap();
    for (start, bb) in ctx.bb_map() {
        assert_eq!(bb.rva(), *start);
        assert_eq!(bb.inst(0).ip(), *start as u64);
        assert!(ctx.seen_rvas().contains(start));
        for inst in bb.iter() {
            if inst.is_call() {
                let target = inst.get_branch_target().unwrap() as u32;
                assert!(ctx.seen_rvas().contains(&target));
            }
        }
    }
}

#[test]
fn only_executable_sections_are_code() {
    let parser = PEParser::make(&build_pe(0x1000, &branchy_code(), 0x1000, 0x4000_0040)).unwrap();
    let ctx = parser.parse_functions().unwrap();
    assert_eq!(ctx.code_sections().len(), 0);
    assert_eq!(ctx.bb_map().len(), 0);
    let seen: Vec<u32> = ctx.seen_rvas().iter().copied().collect();
    assert_eq!(seen, vec![0x1000]);
}

#[test]
fn code_segment_holds_the_section_bytes() {
    let code = branchy_code();
    let parser = PEParser::make(&build_pe(0x1000, &code, 0x1000, SECTION_TEXT_FLAGS)).unwrap();
    let ctx = parser.parse_functions().unwrap();
    let segs = ctx.code_sections();
    assert_eq!(segs.len(), 1);
    assert_eq!(segs[0].name, ".text");
    assert_eq!(segs[0].rva, 0x1000);
    assert_eq!(segs[0].size, code.len() as u32);
    assert_eq!(segs[0].offset, 0x200);
    assert_eq!(segs[0].data, code);
}

#[test]
fn a_call_into_a_block_splits_it() {
    // section at rva 1: nop x4, call 5 (itself), ret
    let code = [0x90, 0x90, 0x90, 0x90, 0xE8, 0xFB, 0xFF, 0xFF, 0xFF, 0xC3];
    let parser = PEParser::make(&build_pe(1, &code, 1, SECTION_TEXT_FLAGS)).unwrap();
    let ctx = parser.parse_functions().unwrap();
    let starts: Vec<u32> = ctx.bb_map().keys().copied().collect();
    assert_eq!(starts, vec![1, 5]);
    let head = &ctx.bb_map()[&1];
    assert_eq!(head.inst_count(), 4);
    assert!(head.is_complete());
    let tail = &ctx.bb_map()[&5];
    assert_eq!(tail.inst_count(), 2);
    assert!(tail.inst(0).is_call());
    assert!(tail.is_complete());
}

#[test]
fn exploring_after_an_incomplete_block_fails() {
    // jmp 0x1010; ...; call 0x1020 at 0x1010, and the section's bytes end right after it
    let mut code = vec![0u8; 0x15];
    code[0..2].copy_from_slice(&[0xEB, 0x0E]);
    code[0x10..0x15].copy_from_slice(&[0xE8, 0x0B, 0x00, 0x00, 0x00]);
    let image = build_pe(0x1000, &code, 0x1000, SECTION_TEXT_FLAGS);
    let parser = PEParser::make(&image).unwrap();
    let r = parser.parse_functions();
    assert!(matches!(r, Err(ParseError::IncompleteBlock { start: 0x1010, rva: 0x1020 })));
    let mut object = Object::make();
    let r = PEParser::make(&image).unwrap().parse(&mut object);
    assert_eq!(r, Err(ParseError::IncompleteBlock { start: 0x1010, rva: 0x1020 }));
    assert_eq!(object.model, Model::Win64);
    assert_eq!(object.entry_point, 0x1000);
}

#[test]
fn entry_point_outside_code_makes_no_block() {
    let parser = PEParser::make(&build_pe(0x1000, &branchy_code(), 0x5000, SECTION_TEXT_FLAGS)).unwrap();
    let ctx = parser.parse_functions().unwrap();
    assert_eq!(ctx.bb_map().len(), 0);
    assert!(ctx.seen_rvas().contains(&0x5000));
}

#[test]
fn exported_functions_are_explored() {
    let mut code = vec![0u8; 0x80];
    code[0] = 0xC3;
    code[0x10] = 0xC3;
    code[0x20] = 0x90;
    code[0x21] = 0xC3;
    let image = build_pe_with_exports(0x1000, &code, 0x1000, 0x1040, &[0x1010, 0x1020]);
    let parser = PEParser::make(&image).unwrap();
    let ctx = parser.parse_functions().unwrap();
    let starts: Vec<u32> = ctx.bb_map().keys().copied().collect();
    assert_eq!(starts, vec![0x1000, 0x1010, 0x1020]);
    assert_eq!(ctx.bb_map()[&0x1020].inst_count(), 2);
}

fn headers(dos_magic: u16, nt_signature: u32, optional_magic: u16) -> PeHeaders {
    PeHeaders { dos_magic, nt_signature, optional_magic, entry_point: 0x2000, image_base: 0x40_0000 }
}

fn parser_with(h: PeHeaders) -> PEParser {
    PEParser { pe: PeImage { headers: h, sections: Vec::new(), exports: None } }
}

fn object_before() -> Object {
    let mut o = Object::make();
    o.entry_point = 7;
    o.imagebase = 9;
    o
}

#[test]
fn a_wrong_dos_signature_is_reported() {
    let mut object = object_before();
    let r = parser_with(headers(0x4D5A, 0x4550, 0x20B)).parse(&mut object);
    assert_eq!(r, Err(ParseError::InvalidDosSignature));
    assert_eq!(object.entry_point, 7);
    assert_eq!(object.imagebase, 9);
    assert_eq!(object.model, Model::Unknown);
}

#[test]
fn a_wrong_nt_signature_is_reported() {
    let mut object = object_before();
    let r = parser_with(headers(0x5A4D, 0x4551, 0x20B)).parse(&mut object);
    assert_eq!(r, Err(ParseError::InvalidNtSignature));
    assert_eq!(object.entry_point, 7);
}

#[test]
fn an_unknown_format_is_reported_and_changes_nothing() {
    let mut object = object_before();
    let r = parser_with(headers(0x5A4D, 0x4550, 0x107)).parse(&mut object);
    assert_eq!(r, Err(ParseError::UnknownPeFormat));
    assert_eq!(object.entry_point, 7);
    assert_eq!(object.imagebase, 9);
    assert_eq!(object.bit, Bit::Unknown);
}

#[test]
fn a_32_bit_header_sets_win32() {
    let mut object = Object::make();
    let r = parser_with(headers(0x5A4D, 0x4550, 0x10B)).parse(&mut object);
    assert_eq!(r, Ok(()));
    assert_eq!(object.model, Model::Win32);
    assert_eq!(object.bit, Bit::Bit32);
    assert_eq!(object.entry_point, 0x2000);
    assert_eq!(object.imagebase, 0x40_0000);
}

#[test]
fn error_messages() {
    assert_eq!(ParseError::InvalidImage.message(), "Failed to parse PE file");
    assert_eq!(ParseError::InvalidDosSignature.message(), "Invalid DOS signature");
    assert_eq!(ParseError::InvalidNtSignature.message(), "Invalid NT signature");
    assert_eq!(ParseError::UnknownPeFormat.message(), "Unknown PE format");
    assert_eq!(
        ParseError::IncompleteBlock { start: 1, rva: 2 }.message(),
        "you're operating a not compete base block"
    );
}

#[test]
fn load_reads_headers_sections_and_exports() {
    let mut code = vec![0u8; 0x80];
    code[0] = 0xC3;
    let image = build_pe_with_exports(0x1000, &code, 0x1000, 0x1040, &[0x1010, 0x1020]);
    let pe = PeImage::load(&image).expect("a PE64 image");
    assert_eq!(pe.headers.dos_magic, 0x5A4D);
    assert_eq!(pe.headers.nt_signature, 0x4550);
    assert_eq!(pe.headers.optional_magic, 0x20B);
    assert_eq!(pe.headers.entry_point, 0x1000);
    assert_eq!(pe.headers.image_base, 0x1_4000_0000);
    assert_eq!(pe.sections.len(), 1);
    assert_eq!(pe.sections[0].header.name, ".text");
    assert_eq!(pe.sections[0].header.virtual_address, 0x1000);
    assert_eq!(pe.sections[0].data.as_deref(), Some(&image[0x200..0x280]));
    assert_eq!(pe.exports, Some(vec![0x1010, 0x1020]));
}

#[test]
fn load_without_exports() {
    let image = build_pe(0x1000, &branchy_code(), 0x1000, SECTION_TEXT_FLAGS);
    let pe = PeImage::load(&image).expect("a PE64 image");
    assert_eq!(pe.exports, None);
}

fn section(data: Option<Vec<u8>>) -> PeSection {
    PeSection {
        header: SectionInfo {
            name: ".text".to_string(),
            virtual_address: 0x3000,
            virtual_size: 0x20,
            pointer_to_raw_data: 0x600,
            size_of_raw_data: 0x4,
            characteristics: SECTION_TEXT_FLAGS,
        },
        data,
    }
}

#[test]
fn code_segment_copies_the_section() {
    let s = CodeSegment::make(&section(Some(vec![0xC3, 0x90, 0x90, 0xC3])));
    assert_eq!(s.name, ".text");
    assert_eq!(s.rva, 0x3000);
    assert_eq!(s.mem_size, 0x20);
    assert_eq!(s.offset, 0x600);
    assert_eq!(s.size, 0x4);
    assert_eq!(s.data, vec![0xC3, 0x90, 0x90, 0xC3]);
}

#[test]
fn code_segment_without_data_is_empty() {
    let s = CodeSegment::make(&section(None));
    assert_eq!(s.rva, 0x3000);
    assert!(s.data.is_empty());
}

#[test]
fn an_entry_explored_twice_changes_nothing() {
    // the entry point is exported too: the second visit finds the same block
    let mut code = vec![0u8; 0x80];
    code[0] = 0x90;
    code[1] = 0xC3;
    let image = build_pe_with_exports(0x1000, &code, 0x1000, 0x1040, &[0x1000, 0x1000]);
    let parser = PEParser::make(&image).unwrap();
    let ctx = parser.parse_functions().unwrap();
    let starts: Vec<u32> = ctx.bb_map().keys().copied().collect();
    assert_eq!(starts, vec![0x1000]);
    assert_eq!(ctx.bb_map()[&0x1000].inst_count(), 2);
    assert_eq!(ctx.seen_rvas().len(), 1);
}

#[test]
fn parsing_twice_gives_the_same_outcome() {
    let parser = PEParser::make(&build_pe(0x1000, &branchy_code(), 0x1000, SECTION_TEXT_FLAGS)).unwrap();
    let a = parser.parse_functions().unwrap();
    let b = parser.parse_functions().unwrap();
    let ka: Vec<u32> = a.bb_map().keys().copied().collect();
    let kb: Vec<u32> = b.bb_map().keys().copied().collect();
    assert_eq!(ka, kb);
    let mut sa: Vec<u32> = a.seen_rvas().iter().copied().collect();
    let mut sb: Vec<u32> = b.seen_rvas().iter().copied().collect();
    sa.sort();
    sb.sort();
    assert_eq!(sa, sb);
}

#[test]
fn load_leaves_the_data_of_other_sections_unread() {
    let image = build_pe(0x1000, &branchy_code(), 0x1000, 0x4000_0040);
    let pe = PeImage::load(&image).expect("a PE64 image");
    assert_eq!(pe.sections.len(), 1);
    assert_eq!(pe.sections[0].header.characteristics, 0x4000_0040);
    assert_eq!(pe.sections[0].data, None);
}
