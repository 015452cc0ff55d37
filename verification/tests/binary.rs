//! A whole binary, from its file to its assembly.

use sha2::{Digest, Sha256};
use swsplrs::error::Error;
use swsplrs::file_list::{AddressLabel, Info, Object, Status};
use swsplrs::hacks::Hacks;
use swsplrs::nso::data::{find_referenced, Exporter};
use swsplrs::nso::disasm::{disassemble, Instruction};
use swsplrs::nso::export::Part;
use swsplrs::nso::floats::FloatTexts;
use swsplrs::nso::lookup::NsoLookupHelper;
use swsplrs::nso::nso::NSO;
use swsplrs::nso::nso_file::NsoFile;
use swsplrs::nso::nso_header::NsoSegment;
use swsplrs::nso::section_map::SectionType;
use swsplrs::reference_tracker::{
    DataRefType, ReferenceSource, ReferenceTracker, References,
};
use swsplrs::segmented;

/// The segments of a binary, and where they are in memory.
struct Image {
    text: Vec<u8>,
    rodata: Vec<u8>,
    data: Vec<u8>,
    flags: u32,
}

const RODATA: u32 = 0x1000;
const DATA: u32 = 0x2000;

fn word(out: &mut Vec<u8>, value: u32) {
    out.extend_from_slice(&value.to_le_bytes());
}

fn quad(out: &mut Vec<u8>, value: u64) {
    out.extend_from_slice(&value.to_le_bytes());
}

fn text_segment() -> Vec<u8> {
    let mut out = Vec::new();
    // module header: the module is at 8, all else is relative to it
    word(&mut out, 0);
    word(&mut out, 8);
    out.extend_from_slice(b"MOD0");
    word(&mut out, 0x2018 - 8);
    word(&mut out, 0x2110 - 8);
    word(&mut out, 0x2120 - 8);
    word(&mut out, 0x1144 - 8);
    word(&mut out, 0x1158 - 8);
    word(&mut out, 0x2110 - 8);
    for instruction in [
        0xB0000000u32, // 24: adrp x0, #0x1000
        0xB9413801,    // 28: ldr w1, [x0, #0x138]
        0x34000061,    // 2C: cbz w1, #0x38
        0x94000010,    // 30: bl #0x70
        0x320003E2,    // 34: orr w2, wzr, #1
        0xD0000003,    // 38: adrp x3, #0x2000
        0xF9400064,    // 3C: ldr x4, [x3]
        0xD65F03C0,    // 40: ret
        0xD0000003,    // 44: adrp x3, #0x2000
        0x9103E063,    // 48: add x3, x3, #0xF8
        0xD65F03C0,    // 4C: ret
        0xA9BF7BF0,    // 50: stp x16, x30, [sp, #-0x10]!
        0xD0000010,    // 54: adrp x16, #0x2000
        0xF9407211,    // 58: ldr x17, [x16, #0xE0]
        0x91038210,    // 5C: add x16, x16, #0xE0
        0xD61F0220,    // 60: br x17
        0xD503201F,    // 64: nop
        0xD503201F,    // 68: nop
        0xD503201F,    // 6C: nop
        0xD0000010,    // 70: adrp x16, #0x2000
        0xF9407611,    // 74: ldr x17, [x16, #0xE8]
        0x9103A210,    // 78: add x16, x16, #0xE8
        0xD61F0220,    // 7C: br x17
    ] {
        word(&mut out, instruction);
    }
    assert_eq!(out.len(), 0x80);
    out
}

fn symbol(out: &mut Vec<u8>, name: u32, info: u8, value: u64, size: u64) {
    word(out, name);
    out.push(info);
    out.push(0);
    out.extend_from_slice(&[0, 0]);
    quad(out, value);
    quad(out, size);
}

fn relocation(out: &mut Vec<u8>, offset: u64, kind: u32, index: u32, addend: i64) {
    quad(out, offset);
    word(out, kind);
    word(out, index);
    quad(out, addend as u64);
}

fn rodata_segment() -> Vec<u8> {
    let mut out = Vec::new();
    // 1000: build string
    word(&mut out, 0);
    word(&mut out, 4);
    out.extend_from_slice(b"swsp\0");
    out.extend_from_slice(&[0, 0, 0]);
    assert_eq!(out.len(), 0x10);
    // 1010: symbols
    symbol(&mut out, 0, 0, 0, 0);
    symbol(&mut out, 1, 0x12, 0x24, 0x20);
    symbol(&mut out, 3, 0x21, 0x2000, 8);
    symbol(&mut out, 7, 0x12, 0, 0);
    assert_eq!(out.len(), 0x70);
    // 1070: hash table
    for value in [1u32, 4, 1, 0, 2, 3, 0] {
        word(&mut out, value);
    }
    assert_eq!(out.len(), 0x8C);
    // 108C: GNU hash table
    for value in [1u32, 1, 1, 6] {
        word(&mut out, value);
    }
    quad(&mut out, 0x8000000000000001);
    word(&mut out, 9);
    word(&mut out, 5);
    word(&mut out, 0);
    assert_eq!(out.len(), 0xB0);
    // 10B0: relocations
    relocation(&mut out, 0x2008, 1027, 0, 0x1138);
    relocation(&mut out, 0x2010, 257, 2, 0);
    relocation(&mut out, 0x20F0, 1025, 1, 0);
    relocation(&mut out, 0x20F8, 1027, 0, 0x44);
    // 1110: relocations of calls
    relocation(&mut out, 0x20E8, 1026, 3, 0);
    // 1128: strings
    out.extend_from_slice(b"\0f\0obj\0imported\0");
    assert_eq!(out.len(), 0x138);
    // 1138: a number
    word(&mut out, 42);
    // 113C: a jump table
    word(&mut out, (0x44i32 - 0x113C) as u32);
    word(&mut out, (0x38i32 - 0x113C) as u32);
    // 1144: header of the exception frames
    out.extend_from_slice(&[1, 0x1B, 0x03, 0x3B]);
    word(&mut out, 0x1158 - 0x1148);
    word(&mut out, 1);
    word(&mut out, (0x24i32 - 0x1144) as u32);
    word(&mut out, 0x116C - 0x1144);
    assert_eq!(out.len(), 0x158);
    // 1158: exception frames
    word(&mut out, 16);
    word(&mut out, 0);
    out.extend_from_slice(&[1, b'z', b'R', 0, 1, 0x78, 30, 1, 0x1B, 0x0C, 0x1F, 0]);
    word(&mut out, 20);
    word(&mut out, 0x1170 - 0x1158);
    word(&mut out, (0x24i32 - 0x1174) as u32);
    word(&mut out, 0x20);
    out.extend_from_slice(&[0, 0x44, 0x0E, 0x10, 0x9E, 0x01, 0, 0]);
    word(&mut out, 0);
    assert_eq!(out.len(), 0x188);
    // 1188: embedded strings
    out.extend_from_slice(b"sdk\0");
    out
}

fn data_segment() -> Vec<u8> {
    let mut out = Vec::new();
    // 2000: data
    quad(&mut out, 0x1122334455667788);
    quad(&mut out, 0x1138);
    quad(&mut out, 0);
    // 2018: .dynamic
    for (tag, value) in [
        (23u64, 0x1110u64),
        (2, 24),
        (3, 0x20D0),
        (4, 0x1070),
        (0x6ffffef5, 0x108C),
        (7, 0x10B0),
        (8, 96),
        (9, 24),
        (25, 0x20F8),
        (27, 8),
        (0, 0),
    ] {
        quad(&mut out, tag);
        quad(&mut out, value);
    }
    assert_eq!(out.len(), 0xC8);
    // 20C8: a gap
    quad(&mut out, 0);
    // 20D0: .got.plt
    for _ in 0..4 {
        quad(&mut out, 0);
    }
    // 20F0: .got
    quad(&mut out, 0x24);
    // 20F8: .init_array
    quad(&mut out, 0x44);
    // 2100: something of eight bytes
    quad(&mut out, 0);
    assert_eq!(out.len(), 0x108);
    out
}

fn image() -> Image {
    Image { text: text_segment(), rodata: rodata_segment(), data: data_segment(), flags: 0 }
}

fn file_of(image: &Image) -> Vec<u8> {
    let pack = |segment: &Vec<u8>, bit: u32| {
        if image.flags & bit != 0 {
            lz4_flex::block::compress(segment)
        } else {
            segment.clone()
        }
    };
    let text = pack(&image.text, 1);
    let rodata = pack(&image.rodata, 2);
    let data = pack(&image.data, 4);
    let mut out = Vec::new();
    out.extend_from_slice(b"NSO0");
    word(&mut out, 0);
    word(&mut out, 0);
    word(&mut out, image.flags);
    let mut at = 0x100;
    for (segment, packed, offset) in [
        (&image.text, &text, 0),
        (&image.rodata, &rodata, RODATA),
        (&image.data, &data, DATA),
    ] {
        word(&mut out, at);
        word(&mut out, offset);
        word(&mut out, segment.len() as u32);
        word(&mut out, 0);
        at += packed.len() as u32;
    }
    out.extend_from_slice(&[0; 0x20]);
    word(&mut out, text.len() as u32);
    word(&mut out, rodata.len() as u32);
    word(&mut out, data.len() as u32);
    out.extend_from_slice(&[0; 0x1C]);
    word(&mut out, 0x188);
    word(&mut out, 4);
    word(&mut out, 0x128);
    word(&mut out, 16);
    word(&mut out, 0x10);
    word(&mut out, 96);
    for segment in [&image.text, &image.rodata, &image.data] {
        out.extend_from_slice(Sha256::digest(segment).as_slice());
    }
    assert_eq!(out.len(), 0x100);
    out.extend_from_slice(&text);
    out.extend_from_slice(&rodata);
    out.extend_from_slice(&data);
    out
}

fn load(image: &Image) -> Result<NSO, Error> {
    NSO::new(NsoFile::new(&file_of(image))?)
}

fn sample() -> NSO {
    load(&image()).unwrap()
}

const TABLES: [(u64, usize); 1] = [(0x113C, 2)];

fn references_of(nso: &NSO) -> References {
    nso.get_references_with(&TABLES.to_vec()).unwrap()
}

/// How all floating-point numbers of a binary are written.
fn floats_of(nso: &NSO, references: &References) -> FloatTexts {
    let (singles, doubles) = nso.get_floats(references);
    let mut floats = FloatTexts::new();
    for bits in singles {
        floats.add_single(bits, f32::from_bits(bits).to_string());
    }
    for bits in doubles {
        floats.add_double(bits, f64::from_bits(bits).to_string());
    }
    floats
}

fn export(part: Part) -> Result<String, Error> {
    let nso = sample();
    let helper = NsoLookupHelper::new(&nso)?;
    let references = references_of(&nso);
    nso.export_part(part, &references, &helper, &floats_of(&nso, &references))
}

struct Known;

impl Hacks for Known {
    fn get_jump_tables(&self) -> Vec<(u64, usize)> {
        TABLES.to_vec()
    }

    fn get_object_path(&self, object_name: &str) -> String {
        format!("game/{}", object_name)
    }

    fn get_rodata_subsections(&self) -> Vec<(u64, u64, String)> {
        vec![(0x1138, 0x113C, ".rodata.cst".to_string())]
    }
}

fn info(offset: u32, size: u32) -> Info {
    Info {
        offset,
        size,
        label: AddressLabel::Single(format!("fn_{:x}", offset)),
        status: Status::NotDecompiled,
        lazy: false,
        guess: false,
    }
}

#[test]
fn every_part_of_a_binary_is_known() {
    let nso = sample();
    let found: Vec<(u64, u64, SectionType)> = nso.sections.iter();
    let expected = [
        (0, 0x24, SectionType::Crt0),
        (0x24, 0x50, SectionType::Text),
        (0x50, 0x80, SectionType::Plt),
        (0x80, 0x1000, SectionType::Empty),
        (0x1000, 0x100D, SectionType::ModuleName),
        (0x100D, 0x1010, SectionType::Align),
        (0x1010, 0x1070, SectionType::Dynsym),
        (0x1070, 0x108C, SectionType::Hash),
        (0x108C, 0x10AC, SectionType::GnuHash),
        (0x10AC, 0x10B0, SectionType::Align),
        (0x10B0, 0x1110, SectionType::RelaDyn),
        (0x1110, 0x1128, SectionType::RelaPlt),
        (0x1128, 0x1138, SectionType::Dynstr),
        (0x1138, 0x1144, SectionType::Rodata),
        (0x1144, 0x1158, SectionType::EhFrameHdr),
        (0x1158, 0x1188, SectionType::EhFrame),
        (0x1188, 0x118C, SectionType::Embed),
        (0x118C, 0x2000, SectionType::Empty),
        (0x2000, 0x2018, SectionType::Data),
        (0x2018, 0x20C8, SectionType::Dynamic),
        (0x20C8, 0x20D0, SectionType::UnknownData),
        (0x20D0, 0x20F0, SectionType::GotPlt),
        (0x20F0, 0x20F8, SectionType::Got),
        (0x20F8, 0x2100, SectionType::InitArray),
        (0x2100, 0x2108, SectionType::Tbss),
        (0x2110, 0x2120, SectionType::Bss),
    ];
    assert_eq!(found.len(), expected.len());
    for (a, b) in found.iter().zip(expected.iter()) {
        assert_eq!((a.0, a.1), (b.0, b.1));
        assert!(a.2 == b.2);
    }
    assert_eq!(nso.build_str, "swsp");
    assert_eq!(nso.init_array, (0x20F8, vec![0x44]));
    assert_eq!(nso.embed, vec![(0x1188, "sdk".to_string())]);
    assert_eq!(nso.symbol_table.0, 0x1010);
    assert_eq!(nso.symbol_table.1.len(), 4);
    assert_eq!(nso.text.section_offset, 0x24);
    assert_eq!(nso.text.section.len(), 0x2C);
    assert_eq!(nso.text.plt_functions.get(&0x70), Some(&0x20E8));
    assert_eq!(nso.text.plt_functions.get(&0x50), Some(&0x20E0));
}

#[test]
fn compressed_segments_give_the_same_binary() {
    let mut packed = image();
    packed.flags = 7;
    let nso = load(&packed).unwrap();
    assert_eq!(nso.file.memory, sample().file.memory);
    let file = NsoFile::new(&file_of(&packed)).unwrap();
    assert!(file.header.is_segment_compressed(&NsoSegment::Rodata));
    assert_eq!(&file.memory[0x1138..0x113C], &[42, 0, 0, 0]);
    assert_eq!(&file.memory[0x80..0x84], &[0, 0, 0, 0]);
}

#[test]
fn a_changed_segment_is_refused() {
    let mut bytes = file_of(&image());
    let last = bytes.len() - 1;
    bytes[last] ^= 1;
    assert!(matches!(NsoFile::new(&bytes), Err(Error::HashMismatch)));
}

#[test]
fn a_broken_compressed_segment_is_refused() {
    let mut packed = image();
    packed.flags = 1;
    let mut bytes = file_of(&packed);
    bytes[0x18] = 0x7F;
    assert!(matches!(NsoFile::new(&bytes), Err(Error::BadCompression)));
    let mut bytes = file_of(&packed);
    bytes[0x18] = 0x81;
    assert!(matches!(NsoFile::new(&bytes), Err(Error::DecompressedSizeMismatch)));
}

#[test]
fn a_short_file_is_refused() {
    let bytes = file_of(&image());
    assert!(matches!(NsoFile::new(&bytes[..bytes.len() - 1]), Err(Error::UnexpectedEnd)));
}

#[test]
fn segments_must_follow_each_other() {
    let mut bytes = file_of(&image());
    bytes[0x24] = 0;
    bytes[0x25] = 0;
    assert!(matches!(NsoFile::new(&bytes), Err(Error::SegmentsOutOfOrder)));
}

#[test]
fn references_reach_what_they_should() {
    let nso = sample();
    let refs = references_of(&nso);
    // relocations
    assert_eq!(refs.get_target_address(0x2008), Some(0x1138));
    assert_eq!(refs.get_target_address(0x2010), Some(0x1040));
    assert_eq!(refs.get_target_address(0x20F0), Some(0x1028));
    assert_eq!(refs.get_target_address(0x20E8), Some(0x1058));
    // symbols
    assert_eq!(refs.get_target_address(0x1028), Some(0x24));
    assert_eq!(refs.get_target_address(0x1040), Some(0x2000));
    assert_eq!(refs.get_type_of(0x24), Some(DataRefType::Function(0x20)));
    assert_eq!(refs.get_type_of(0x2000), Some(DataRefType::Object(8)));
    // init array
    assert_eq!(refs.get_target_address(0x20F8), Some(0x44));
    assert_eq!(refs.get_type_of(0x44), Some(DataRefType::Code));
    // code
    assert_eq!(refs.get_target_address(0x24), Some(0x1138));
    assert_eq!(refs.get_target_address(0x28), Some(0x1138));
    assert_eq!(refs.get_type_of(0x1138), Some(DataRefType::Int32));
    assert_eq!(refs.get_target_address(0x2C), Some(0x38));
    assert_eq!(refs.get_target_address(0x30), Some(0x70));
    assert_eq!(refs.get_target_address(0x3C), Some(0x2000));
    assert_eq!(refs.get_target_address(0x48), Some(0x20F8));
    assert_eq!(refs.get_target_address(0x34), None);
    // jump table
    assert_eq!(refs.get_target_address(0x113C), Some(0x44));
    assert_eq!(refs.get_target_address(0x1140), Some(0x38));
    assert_eq!(refs.get_type_of(0x113C), Some(DataRefType::JumpTable(2)));
    assert!(!refs.has_references_to(0x1140));
}

#[test]
fn hacks_give_the_jump_tables() {
    let nso = sample();
    let refs = nso.get_references(&Known).unwrap();
    assert_eq!(refs.get_type_of(0x113C), Some(DataRefType::JumpTable(2)));
}

#[test]
fn two_jump_tables_may_be_known() {
    let nso = sample();
    let refs = nso.get_references_with(&vec![(0x113C, 1), (0x1140, 1)]).unwrap();
    assert_eq!(refs.get_type_of(0x113C), Some(DataRefType::JumpTable(1)));
    assert_eq!(refs.get_type_of(0x1140), Some(DataRefType::JumpTable(1)));
    // the distance is that from the table
    assert_eq!(refs.get_target_address(0x1140), Some(0x3C));
}

#[test]
fn jump_tables_outside_of_the_binary_are_refused() {
    let nso = sample();
    assert!(matches!(
        nso.get_references_with(&vec![(0x100000, 1)]),
        Err(Error::OutOfBounds)
    ));
    assert!(matches!(
        nso.get_references_with(&vec![(nso.file.memory.len() as u64 - 2, 1)]),
        Err(Error::UnexpectedEnd)
    ));
}

#[test]
fn symbols_are_found_by_address() {
    let nso = sample();
    let helper = NsoLookupHelper::new(&nso).unwrap();
    let zero = nso.get_symbols(0, &helper);
    assert_eq!(zero.len(), 2);
    assert_eq!(zero[0].str_table_offset, 0);
    assert_eq!(zero[1].str_table_offset, 7);
    assert_eq!(nso.get_symbols(0x44, &helper).len(), 0);
    assert_eq!(nso.get_any_symbol(0x24, &helper).unwrap(), "f");
    // the first name is empty
    assert_eq!(nso.get_any_symbol(0, &helper).unwrap(), "imported");
    assert_eq!(nso.get_all_symbols(0, &helper), vec!["".to_string(), "imported".to_string()]);
    assert_eq!(nso.get_all_symbols(0x44, &helper), vec!["loc_44".to_string()]);
    assert_eq!(nso.get_any_symbol(0x1138, &helper).unwrap(), "off_1138");
}

#[test]
fn ends_of_sections_have_names() {
    let nso = sample();
    assert_eq!(nso.get_fallback_symbol(0x50), "__plt_start__");
    assert_eq!(nso.get_fallback_symbol(0x20D0), "__got_start__");
    assert_eq!(nso.get_fallback_symbol(0x2018), "__dynamic_start__");
    assert_eq!(nso.get_fallback_symbol(0x1110), "__rela_plt_start");
    assert_eq!(nso.get_fallback_symbol(0x1128), "__rela_plt_end");
    assert_eq!(nso.get_fallback_symbol(0x10B0), "__rela_dyn_start");
    assert_eq!(nso.get_fallback_symbol(0x20F8), "__init_array_start__");
    assert_eq!(nso.get_fallback_symbol(0x2100), "__tdata_start__");
    assert_eq!(nso.get_fallback_symbol(0x7F), "loc_7F");
    assert_eq!(nso.get_fallback_symbol(0x80), "off_80");
}

#[test]
fn addresses_without_symbols_have_different_names() {
    let nso = sample();
    let mut names: Vec<String> = (0..0x2200).map(|a| nso.get_fallback_symbol(a)).collect();
    names.sort();
    names.dedup();
    assert_eq!(names.len(), 0x2200);
}

#[test]
fn the_end_of_a_table_may_be_the_start_of_another() {
    let mut other = sample();
    other.sections = {
        let mut map = swsplrs::nso::section_map::SectionMap::new(&other.file.header).unwrap();
        map.insert(0x1010, 0x1018, SectionType::RelaDyn).unwrap();
        map
    };
    assert_eq!(other.get_fallback_symbol(0x1010), "__rela_dyn_start");
    assert_eq!(other.get_fallback_symbol(0x1018), "__rela_dyn_end");
}

#[test]
fn entries_of_the_offset_table_have_targets() {
    let nso = sample();
    let helper = NsoLookupHelper::new(&nso).unwrap();
    let refs = references_of(&nso);
    assert_eq!(nso.get_got_target_symbol(0x20F0, &refs, &helper).unwrap(), "f");
    assert_eq!(nso.get_got_target_symbol(0x20E8, &refs, &helper).unwrap(), "imported");
    assert!(matches!(
        nso.get_got_target_symbol(0x2000, &refs, &helper),
        Err(Error::NotInGot)
    ));
    assert!(matches!(
        nso.get_got_target_symbol(0x5000, &refs, &helper),
        Err(Error::SectionMissing)
    ));
    assert!(matches!(
        nso.get_got_target_symbol(0x20D0, &refs, &helper),
        Err(Error::NoReference { address: 0x20D0 })
    ));
}

#[test]
fn an_offset_table_entry_with_an_addend_is_refused() {
    let mut changed = image();
    changed.rodata[0xB0 + 2 * 24 + 16] = 4;
    let nso = load(&changed).unwrap();
    let helper = NsoLookupHelper::new(&nso).unwrap();
    assert!(matches!(
        nso.get_got_target_symbol(0x20F0, &references_of(&nso), &helper),
        Err(Error::UnexpectedAddend)
    ));
}

#[test]
fn two_relocations_of_one_address_are_refused() {
    let mut changed = image();
    changed.rodata[0xB0 + 24] = 0x08;
    let nso = load(&changed).unwrap();
    assert!(matches!(NsoLookupHelper::new(&nso), Err(Error::DuplicateRelocation)));
}

#[test]
fn relocations_that_cannot_be_handled_are_refused() {
    // a negative addend
    let mut changed = image();
    changed.rodata[0xB0 + 16..0xB0 + 24].copy_from_slice(&(-8i64).to_le_bytes());
    assert!(matches!(
        load(&changed).unwrap().get_references_with(&vec![]),
        Err(Error::NegativeAddend)
    ));
    // a type of another table
    let mut changed = image();
    changed.rodata[0xB0 + 8..0xB0 + 12].copy_from_slice(&1026u32.to_le_bytes());
    assert!(matches!(
        load(&changed).unwrap().get_references_with(&vec![]),
        Err(Error::UnsupportedRelocation)
    ));
    // no such type
    let mut changed = image();
    changed.rodata[0xB0 + 8..0xB0 + 12].copy_from_slice(&7u32.to_le_bytes());
    assert!(matches!(load(&changed), Err(Error::BadRelocationType)));
}

#[test]
fn symbols_that_cannot_be_handled_are_refused() {
    // a section
    let mut changed = image();
    changed.rodata[0x10 + 24 + 4] = 0x13;
    assert!(matches!(
        load(&changed).unwrap().get_references_with(&vec![]),
        Err(Error::UnsupportedSymbol)
    ));
    // no type, and not named `end`
    let mut changed = image();
    changed.rodata[0x10 + 24 + 4] = 0x10;
    assert!(matches!(
        load(&changed).unwrap().get_references_with(&vec![]),
        Err(Error::UnsupportedSymbol)
    ));
    // no type, named `end`
    let mut changed = image();
    changed.rodata[0x10 + 2 * 24 + 4] = 0x10;
    changed.rodata[0x12B..0x12E].copy_from_slice(b"end");
    let refs = load(&changed).unwrap().get_references_with(&vec![]).unwrap();
    assert_eq!(refs.get_target_address(0x1040), None);
}

#[test]
fn code_is_written_with_names() {
    assert_eq!(
        export(Part::Text).unwrap(),
        concat_lines(&[
            "# 0x24:",
            ".global f",
            "f:",
            "\tadrp x0, off_1138",
            "\tldr w1, [x0, :lo12:off_1138]",
            "\tcbz w1, loc_38",
            "\tbl loc_70",
            "\torr w2, wzr, #0x1",
            "# 0x38:",
            ".global loc_38",
            "loc_38:",
            "\tadrp x3, obj",
            "\tldr x4, [x3, :lo12:obj]",
            "\tret ",
            "# 0x44:",
            ".global loc_44",
            "loc_44:",
            "\tadrp x3, __init_array_start__",
            "\tadd x3, x3, :lo12:__init_array_start__",
            "\tret ",
        ])
    );
}

fn concat_lines(lines: &[&str]) -> String {
    let mut out = String::new();
    for line in lines {
        out.push_str(line);
        out.push('\n');
    }
    out
}

#[test]
fn stubs_are_written_with_names() {
    assert_eq!(
        export(Part::Plt).unwrap(),
        concat_lines(&[
            ".section \".plt\"",
            ".global __plt_start__",
            "__plt_start__:",
            "\tstp x16, x30, [sp, #-0x10]!",
            "\tadrp x16, off_20E0",
            "\tldr x17, [x16, :lo12:off_20E0]",
            "\tadd x16, x16, :lo12:off_20E0",
            "\tbr x17",
            "\tnop",
            "\tnop",
            "\tnop",
            "",
            ".global loc_70",
            "loc_70:",
            "\tadrp x16, off_20E8",
            "\tldr x17, [x16, :lo12:off_20E8]",
            "\tadd x16, x16, :lo12:off_20E8",
            "\tbr x17",
        ])
    );
}

#[test]
fn data_is_written_with_names() {
    assert_eq!(
        export(Part::Data).unwrap(),
        concat_lines(&[
            ".section \".data\",\"aw\"",
            "",
            ".align 4",
            ".global obj",
            "obj:",
            "\t.byte 0x88",
            "\t.byte 0x77",
            "\t.byte 0x66",
            "\t.byte 0x55",
            "\t.byte 0x44",
            "\t.byte 0x33",
            "\t.byte 0x22",
            "\t.byte 0x11",
            "\t.quad off_1138",
            "\t.quad obj+0",
        ])
    );
}

#[test]
fn jump_tables_are_written_as_distances() {
    assert_eq!(
        export(Part::Rodata).unwrap(),
        concat_lines(&[
            ".section \".rodata\",\"a\"",
            "",
            ".align 3",
            ".global off_1138",
            "off_1138:",
            "\t.word 0x0000002A",
            ".align 2",
            ".global off_113C",
            "off_113C:",
            "\t.word loc_44 - off_113C",
            "\t.word loc_38 - off_113C",
        ])
    );
}

#[test]
fn uninitialized_data_is_written_as_space() {
    assert_eq!(
        export(Part::Bss).unwrap(),
        concat_lines(&[".section \".bssdisas\",\"aw\",@nobits", "", "\t.skip 16"])
    );
    let mut changed = image();
    // the data points into it
    changed.rodata[0xB0 + 16..0xB0 + 24].copy_from_slice(&0x2114i64.to_le_bytes());
    changed.data[8..16].copy_from_slice(&0x2114u64.to_le_bytes());
    let nso = load(&changed).unwrap();
    let helper = NsoLookupHelper::new(&nso).unwrap();
    assert_eq!(
        nso.export_bss(&references_of(&nso), &helper).unwrap(),
        concat_lines(&[
            ".section \".bssdisas\",\"aw\",@nobits",
            "",
            "\t.skip 4",
            ".global off_2114",
            "off_2114:",
            "\t.skip 12",
        ])
    );
}

#[test]
fn offset_tables_are_written() {
    assert_eq!(
        export(Part::Got).unwrap(),
        concat_lines(&[
            ".section \".got\"",
            "",
            ".global off_20F0",
            "off_20F0:",
            "\t.quad 36",
            "",
        ])
    );
    assert_eq!(
        export(Part::GotPlt).unwrap(),
        concat_lines(&[
            ".section \".got.plt\"",
            "",
            ".global off_20D0",
            "off_20D0:",
            "\t.quad 0",
            "",
            ".global off_20D8",
            "off_20D8:",
            "\t.quad 0",
            "",
            ".global off_20E0",
            "off_20E0:",
            "\t.quad 0",
            "",
            ".global off_20E8",
            "off_20E8:",
            "\t.quad 12513320",
            "",
        ])
    );
}

#[test]
fn the_init_array_is_written() {
    assert_eq!(
        export(Part::InitArray).unwrap(),
        concat_lines(&[
            ".section \".init_array\",\"aw\"",
            "",
            ".global off_20F8",
            "off_20F8:",
            "\t.quad loc_44",
        ])
    );
}

#[test]
fn an_init_array_that_nothing_uses_is_refused() {
    let mut changed = image();
    // add x3, x3, #0xF0
    changed.text[0x48..0x4C].copy_from_slice(&0x9103C063u32.to_le_bytes());
    let nso = load(&changed).unwrap();
    let helper = NsoLookupHelper::new(&nso).unwrap();
    assert!(matches!(
        nso.export_init_array(&references_of(&nso), &helper),
        Err(Error::Unreferenced { address: 0x20F8 })
    ));
}

#[test]
fn an_init_function_with_a_symbol_is_refused() {
    let mut changed = image();
    changed.rodata[0xB0 + 3 * 24 + 16] = 0x24;
    changed.data[0xF8] = 0x24;
    let nso = load(&changed).unwrap();
    let helper = NsoLookupHelper::new(&nso).unwrap();
    assert!(matches!(
        nso.export_init_array(&references_of(&nso), &helper),
        Err(Error::UnexpectedSymbol { address: 0x24 })
    ));
}

#[test]
fn tables_are_written() {
    assert_eq!(export(Part::SymbolList).unwrap(), "{\nf;\nobj;\nimported;\n};\n");
    assert_eq!(
        export(Part::ModuleName).unwrap(),
        concat_lines(&[
            ".section \".rodata.module_name\",\"a\"",
            ".word 0",
            ".word 4",
            ".string \"swsp\"",
        ])
    );
    assert_eq!(
        export(Part::UnknownDataGap).unwrap(),
        ".section \".unknown.data.gap\",\"aw\"\n\n\t.skip 80\n"
    );
    assert_eq!(
        export(Part::RelaPlt).unwrap(),
        concat_lines(&[
            ".section \".rela.plt\", \"a\"",
            "",
            ".quad 8424",
            ".word 1026",
            ".word 3",
            ".quad 0",
        ])
    );
    assert!(export(Part::RelaDyn).unwrap().starts_with(
        ".section \".rela.dyn\", \"a\"\n\n.quad 8200\n.word 1027\n.word 0\n.quad 4408\n"
    ));
    let dynamic = export(Part::Dynamic).unwrap();
    assert!(dynamic.starts_with(".section \".dynamic\"\n\n.quad 23\n.quad 4368\n"));
    assert!(dynamic.ends_with(".quad 27\n.quad 8\n.quad DT_NULL\n.quad 0\n"));
    assert!(export(Part::Dynsym).unwrap().ends_with(
        ".word 7\n.byte 18\n.byte 0\n.short 0\n.quad 0\n.quad 0\n"
    ));
    assert_eq!(
        export(Part::Dynstr).unwrap(),
        ".section \".dynstr\"\n.string \"\"\n.string \"f\"\n.string \"obj\"\n.string \"imported\"\n"
    );
    assert_eq!(
        export(Part::Hash).unwrap(),
        ".section \".hash\"\n\n.word 1\n.word 4\n.word 1\n.word 0\n.word 2\n.word 3\n.word 0\n"
    );
    assert_eq!(
        export(Part::GnuHash).unwrap(),
        concat_lines(&[
            ".section \".gnu.hash\"",
            "",
            ".word 1",
            ".word 1",
            ".word 1",
            ".word 6",
            ".quad 9223372036854775809",
            ".word 9",
            ".word 5",
            ".word 0",
        ])
    );
    assert_eq!(
        export(Part::Embed).unwrap(),
        ".section \".embed\", \"a\"\n.global off_1188\noff_1188:\n\t.string \"sdk\"\n"
    );
    let hdr = export(Part::EhFrameHdr).unwrap();
    assert!(hdr.starts_with(
        ".section \".eh_frame_hdr\", \"a\"\n.byte 0x1\n.byte 0x1B\n.byte 0x3\n.byte 0x3B\n"
    ));
    assert_eq!(hdr.lines().count(), 21);
    assert_eq!(export(Part::EhFrame).unwrap().lines().count(), 0x31);
    assert!(export(Part::Crt0).unwrap().contains("    .ascii \"MOD0\"\n"));
}

#[test]
fn all_parts_are_written_to_files() {
    let nso = sample();
    let files = nso.export_all(&references_of(&nso), &FloatTexts::new()).unwrap();
    assert_eq!(files.len(), 22);
    assert_eq!(files[0].0, "exported_symbols.sym");
    assert_eq!(files[18].0, "text.s");
    assert_eq!(files[21].0, "rodata.s");
    assert_eq!(files[21].1, export(Part::Rodata).unwrap());
    let files = nso.export_relinkable(&references_of(&nso), &FloatTexts::new()).unwrap();
    let names: Vec<&str> = files.iter().map(|f| f.0.as_str()).collect();
    assert_eq!(
        names,
        vec![
            "exported_symbols.sym",
            "init_array.s",
            "crt0.s",
            "unknown_data_gap.s",
            "module_name.s",
            "embed.s",
            "text.s",
            "bss.s",
            "data.s",
            "rodata.s",
        ]
    );
}

#[test]
fn frames_become_directives() {
    let lines = sample().eh_frame.get_cfi_instructions().unwrap();
    let at = |address: u64| -> Vec<String> {
        lines.get(&address).map(|l| l.iter().cloned().collect()).unwrap_or_default()
    };
    assert_eq!(at(0x24), vec![".cfi_startproc"]);
    assert_eq!(
        at(0x28),
        vec![
            ".cfi_def_cfa_offset 16",
            ".cfi_offset w30, -8",
            ".cfi_escape 0x00",
            ".cfi_escape 0x00",
        ]
    );
    assert_eq!(at(0x44), vec![".cfi_endproc"]);
}

#[test]
fn objects_are_split_off_with_their_data() {
    let nso = sample();
    let refs = references_of(&nso);
    let list = vec![
        ("a.o".to_string(), Object { text_section: vec![info(0x24, 0x20)] }),
        ("UNKNOWN".to_string(), Object { text_section: vec![] }),
    ];
    let files = nso.split(&Known, &list, &refs, &floats_of(&nso, &refs)).unwrap();
    assert_eq!(files.len(), 1);
    assert_eq!(files[0].name, "a.o");
    assert_eq!(files[0].assembly_path, "game/a.s");
    assert_eq!(files[0].object_path, "game/a.o");
    assert_eq!(
        files[0].text,
        concat_lines(&[
            "# 0x24:",
            ".global f",
            "f:",
            "\tadrp x0, off_1138",
            "\tldr w1, [x0, :lo12:off_1138]",
            "\tcbz w1, loc_38",
            "\tbl loc_70",
            "\torr w2, wzr, #0x1",
            "loc_38:",
            "\tadrp x3, obj",
            "\tldr x4, [x3, :lo12:obj]",
            "\tret ",
            "",
            "",
            ".section .rodata.cst, \"a\"",
            "",
            ".global off_1138",
            "off_1138:",
            "\t.word 0x0000002A",
            "",
            "",
            "",
            ".section .data, \"aw\"",
            "",
            ".global obj",
            "obj:",
            "\t.byte 0x88",
            "\t.byte 0x77",
            "\t.byte 0x66",
            "\t.byte 0x55",
            "\t.byte 0x44",
            "\t.byte 0x33",
            "\t.byte 0x22",
            "\t.byte 0x11",
            "\t.quad off_1138",
            "\t.quad obj+0",
            "",
        ])
    );
    let helper = NsoLookupHelper::new(&nso).unwrap();
    let data = nso.export_referenced_data(
        &list[0].1,
        &refs,
        &helper,
        &Known,
        &floats_of(&nso, &refs),
    );
    let data = data.unwrap();
    assert!(files[0].text.ends_with(&data));
    let plain = nso.split_with(&list, &vec![], &refs, &FloatTexts::new()).unwrap();
    assert!(plain[0].1.contains(".section .rodata, \"a\""));
}

#[test]
fn objects_that_cannot_be_split_off() {
    let nso = sample();
    let refs = references_of(&nso);
    let split = |infos: Vec<Info>| {
        nso.split_with(
            &vec![("x".to_string(), Object { text_section: infos })],
            &vec![],
            &refs,
            &FloatTexts::new(),
        )
    };
    assert!(matches!(split(vec![]), Err(Error::NoText)));
    assert!(matches!(split(vec![info(0x20, 8)]), Err(Error::OutOfBounds)));
    assert!(matches!(split(vec![info(0x24, 0x40)]), Err(Error::OutOfBounds)));
    assert!(matches!(split(vec![info(0x24, 0xFFFFFFFF)]), Err(Error::Overflow)));
    // the init array belongs to no object
    assert!(matches!(split(vec![info(0x44, 12)]), Err(Error::UnhandledSection)));
}

#[test]
fn labels_can_be_forced() {
    let nso = sample();
    let helper = NsoLookupHelper::new(&nso).unwrap();
    assert_eq!(nso.export_symbols_force(0x44, &helper).unwrap(), ".Lloc_44:\n");
    assert_eq!(
        nso.export_symbols_force_nonlocal(0x44, true, &helper).unwrap(),
        ".global loc_44\nloc_44:\n"
    );
    assert_eq!(
        nso.export_symbols_force(0x24, &helper).unwrap(),
        "# 0x24:\n.global f\nf:\n"
    );
    assert_eq!(
        nso.export_symbols_force(0x2000, &helper).unwrap(),
        "# 0x2000:\n.weak obj\nobj:\n"
    );
    assert!(matches!(
        nso.export_symbols_force(0, &helper),
        Err(Error::UnsupportedSymbol)
    ));
}

#[test]
fn a_symbol_without_a_name_is_refused() {
    let mut changed = image();
    changed.rodata[0x10 + 24] = 2;
    let nso = load(&changed).unwrap();
    let helper = NsoLookupHelper::new(&nso).unwrap();
    assert!(matches!(nso.get_any_symbol(0x24, &helper), Err(Error::SymbolWithoutName)));
    assert!(matches!(nso.export_symbol_list(), Err(Error::SymbolWithoutName)));
    assert_eq!(nso.get_all_symbols(0x24, &helper).len(), 0);
}

#[test]
fn data_that_contradicts_its_references_is_refused() {
    let mut changed = image();
    changed.data[8] = 0x39;
    let nso = load(&changed).unwrap();
    let helper = NsoLookupHelper::new(&nso).unwrap();
    assert!(matches!(
        nso.export_data(&references_of(&nso), &helper, &FloatTexts::new()),
        Err(Error::DataMismatch { address: 0x2008 })
    ));
    let mut changed = image();
    changed.data[0x10] = 1;
    let nso = load(&changed).unwrap();
    let helper = NsoLookupHelper::new(&nso).unwrap();
    assert!(matches!(
        nso.export_data(&references_of(&nso), &helper, &FloatTexts::new()),
        Err(Error::DataMismatch { address: 0x2010 })
    ));
}

fn settled(list: &[(u64, ReferenceSource, u64, DataRefType)]) -> References {
    let mut tracker = ReferenceTracker::new();
    for (target, source_type, source, target_type) in list {
        tracker.add_reference(*target, *source_type, *source, *target_type);
    }
    tracker.finalize().unwrap()
}

/// The data of a binary as it is written where only these references are known.
fn data_with(list: &[(u64, ReferenceSource, u64, DataRefType)]) -> Result<String, Error> {
    let nso = sample();
    let helper = NsoLookupHelper::new(&nso)?;
    let references = settled(list);
    nso.export_data(&references, &helper, &floats_of(&nso, &references))
}

#[test]
fn data_is_written_by_its_type() {
    let typed = |target_type| {
        let text = data_with(&[(0x2000, ReferenceSource::LDR_STR(false), 0, target_type)])?;
        Ok(text.lines().skip(5).take(2).map(str::to_string).collect::<Vec<String>>())
    };
    let pair = |a: &str, b: &str| Ok(vec![a.to_string(), b.to_string()]);
    assert_eq!(typed(DataRefType::Int8), pair("\t.byte 0x88", "\t.byte 0x77"));
    assert_eq!(typed(DataRefType::Int16), pair("\t.short 0x7788", "\t.byte 0x66"));
    assert_eq!(typed(DataRefType::Int32), pair("\t.word 0x55667788", "\t.byte 0x44"));
    assert_eq!(typed(DataRefType::Int64), pair("\t.quad 0x1122334455667788", "\t.byte 0x38"));
    assert_eq!(
        typed(DataRefType::Float32),
        pair("\t.word 1432778632  // float: 15837566000000", "\t.byte 0x44")
    );
    assert_eq!(
        typed(DataRefType::Float64),
        pair(
            &format!(
                "\t.quad 1234605616436508552  // double: {}",
                f64::from_bits(0x1122334455667788)
            ),
            "\t.byte 0x38"
        )
    );
    assert_eq!(typed(DataRefType::Float128), pair("\t.byte 0x88", "\t.byte 0x77"));
    assert_eq!(typed(DataRefType::Object(8)), pair("\t.byte 0x88", "\t.byte 0x77"));
    assert_eq!(typed(DataRefType::Code), Err(Error::UnsupportedDataType));
    assert_eq!(typed(DataRefType::Float8), Err(Error::UnsupportedDataType));
}

#[test]
fn floats_are_written_with_their_values() {
    let nso = sample();
    let helper = NsoLookupHelper::new(&nso).unwrap();
    let load = ReferenceSource::LDR_STR(false);
    let references = settled(&[
        (0x2000, load, 0, DataRefType::Float64),
        (0x2008, load, 4, DataRefType::Float32),
        (0x200C, load, 8, DataRefType::Float32),
        // not all of it is there
        (0x2106, load, 12, DataRefType::Float32),
    ]);
    assert_eq!(nso.get_floats(&references), (vec![0x1138, 0], vec![0x1122334455667788]));
    let exporter = Exporter { nso: &nso, helper: &helper, references: &references };
    let mut floats = FloatTexts::new();
    let mut data = Vec::new();
    quad(&mut data, 0x4045000000000000);
    word(&mut data, 0x3FC00000);
    word(&mut data, 0x7F800000);
    floats.add_double(0x4045000000000000, "forty-two".to_string());
    floats.add_double(0x4045000000000000, "42".to_string());
    floats.add_single(0x3FC00000, "1.5".to_string());
    assert_eq!(floats.get_double(0x4045000000000000), Some(&"42".to_string()));
    assert_eq!(floats.get_single(0x7F800000), None);
    let mut out = String::new();
    assert_eq!(exporter.export_data_entry(&mut out, &data, 0, 0x2000, &floats), Ok(8));
    assert_eq!(exporter.export_data_entry(&mut out, &data, 8, 0x2000, &floats), Ok(12));
    // nothing is written of what has no text
    assert_eq!(
        exporter.export_data_entry(&mut out, &data, 12, 0x2000, &floats),
        Err(Error::FloatWithoutText { address: 0x200C })
    );
    floats.add_single(0x7F800000, "inf".to_string());
    assert_eq!(exporter.export_data_entry(&mut out, &data, 12, 0x2000, &floats), Ok(16));
    assert_eq!(
        out,
        concat_lines(&[
            "\t.quad 4631107791820423168  // double: 42",
            "\t.word 1069547520  // float: 1.5",
            "\t.word 2139095040  // float: inf",
        ])
    );
    // the numbers of the binary itself
    assert!(matches!(
        nso.export_data(&references, &helper, &floats),
        Err(Error::FloatWithoutText { address: 0x2000 })
    ));
    let all = floats_of(&nso, &references);
    assert!(nso.export_data(&references, &helper, &all).is_ok());
}

#[test]
fn an_empty_jump_table_is_an_entry_without_bytes() {
    let nso = sample();
    let helper = NsoLookupHelper::new(&nso).unwrap();
    let references = settled(&[
        (0x44, ReferenceSource::JumpTable, 0x2000, DataRefType::Code),
        (0x2000, ReferenceSource::Hack, 0, DataRefType::JumpTable(0)),
    ]);
    let exporter = Exporter { nso: &nso, helper: &helper, references: &references };
    let none = FloatTexts::new();
    let mut out = String::from("before");
    assert_eq!(exporter.export_data_entry(&mut out, &[1, 2, 3, 4], 0, 0x2000, &none), Ok(0));
    assert_eq!(out, "before");
    // nor does it need any
    assert_eq!(exporter.export_data_entry(&mut out, &[], 0, 0x2000, &none), Ok(0));
    assert_eq!(out, "before");
    // but what is to be filled with such entries never is
    assert_eq!(
        exporter.export_data_chunk(&mut out, &[1, 2, 3, 4], 0, 4, 0x2000, false, &none),
        Err(Error::EmptyJumpTable { address: 0x2000 })
    );
}

#[test]
fn data_that_is_refused_is_not_written() {
    let nso = sample();
    let helper = NsoLookupHelper::new(&nso).unwrap();
    let load = ReferenceSource::LDR_STR(false);
    let references = settled(&[
        (0x2000, load, 0, DataRefType::Code),
        (0x2004, load, 4, DataRefType::Int32),
        (0x2008, load, 8, DataRefType::Float128),
    ]);
    let exporter = Exporter { nso: &nso, helper: &helper, references: &references };
    let none = FloatTexts::new();
    let mut out = String::from("before\n");
    assert_eq!(
        exporter.export_data_entry(&mut out, &[0; 8], 0, 0x2000, &none),
        Err(Error::UnsupportedDataType)
    );
    assert_eq!(
        exporter.export_data_entry(&mut out, &[0; 6], 4, 0x2000, &none),
        Err(Error::UnexpectedEnd)
    );
    assert_eq!(
        exporter.export_data_chunk(&mut out, &[0; 8], 0, 8, 0x2000, true, &none),
        Err(Error::MissedReference { address: 0x2004 })
    );
    assert_eq!(
        exporter.export_data_chunk(&mut out, &[0; 8], 0, 8, u64::MAX - 4, true, &none),
        Err(Error::Overflow)
    );
    assert_eq!(out, "before\n");
    // an entry of more than one line is written as far as there are bytes
    assert_eq!(
        exporter.export_data_entry(&mut out, &[0; 10], 8, 0x2000, &none),
        Err(Error::UnexpectedEnd)
    );
    assert_eq!(out, "before\n\t.byte 0x00\n\t.byte 0x00\n");
}

#[test]
fn data_that_does_not_fit_together_is_refused() {
    let load = ReferenceSource::LDR_STR(false);
    assert_eq!(
        data_with(&[
            (0x2008, load, 0, DataRefType::Int32),
            (0x1138, ReferenceSource::Relocation, 0x2008, DataRefType::Unknown),
        ]),
        Err(Error::NotAPointer { address: 0x2008 })
    );
    // a number reaches into the next one
    assert_eq!(
        data_with(&[(0x2000, load, 0, DataRefType::Int32), (0x2002, load, 4, DataRefType::Int32)]),
        Err(Error::ChunkOverrun { address: 0x2000 })
    );
    assert_eq!(
        data_with(&[
            (0x44, ReferenceSource::JumpTable, 0x2000, DataRefType::Code),
            (0x2000, ReferenceSource::Hack, 0, DataRefType::JumpTable(0)),
        ]),
        Err(Error::EmptyJumpTable { address: 0x2000 })
    );
    // a table of symbols ends before that entry
    assert_eq!(
        data_with(&[(
            0x1070,
            ReferenceSource::Relocation,
            0x2010,
            DataRefType::SymbolAbsolute(0),
        )]),
        Err(Error::SymbolMissing)
    );
}

#[test]
fn nothing_may_point_into_a_piece_of_data() {
    let nso = sample();
    let helper = NsoLookupHelper::new(&nso).unwrap();
    let references = settled(&[(0x2004, ReferenceSource::ADRP, 0, DataRefType::Unknown)]);
    let exporter = Exporter { nso: &nso, helper: &helper, references: &references };
    let none = FloatTexts::new();
    let data = &nso.file.memory[0x2000..0x2018];
    let mut out = String::new();
    assert_eq!(
        exporter.export_data_chunk(&mut out, data, 0, 8, 0x2000, false, &none),
        Err(Error::MissedReference { address: 0x2004 })
    );
    assert_eq!(exporter.export_data_chunk(&mut out, data, 0, 4, 0x2000, false, &none), Ok(4));
    assert!(out.starts_with(".global obj\nobj:\n\t.byte 0x88\n"));
    let mut out = String::new();
    assert_eq!(exporter.export_data_entry(&mut out, data, 16, 0x2000, &none), Ok(17));
    assert_eq!(out, "\t.byte 0x00\n");
    assert_eq!(
        exporter.export_data_entry(&mut out, data, 24, 0x2000, &none),
        Err(Error::UnexpectedEnd)
    );
    assert_eq!(find_referenced(&references, 0x2000, 0x2018), 0x2004);
    assert_eq!(find_referenced(&references, 0x2004, 0x2018), 0x2018);
}

#[test]
fn only_the_start_of_the_init_array_is_used() {
    let mut nso = sample();
    nso.init_array.1.push(0x48);
    let helper = NsoLookupHelper::new(&nso).unwrap();
    let references = settled(&[
        (0x20F8, ReferenceSource::ADRP, 0, DataRefType::Unknown),
        (0x2100, ReferenceSource::ADRP, 4, DataRefType::Unknown),
    ]);
    assert_eq!(
        nso.export_init_array(&references, &helper),
        Err(Error::UnexpectedReference { address: 0x2100 })
    );
}

#[test]
fn instructions_are_written_with_what_they_refer_to() {
    let nso = sample();
    let helper = NsoLookupHelper::new(&nso).unwrap();
    let references = settled(&[
        (0x24, ReferenceSource::BL, 0x1000, DataRefType::Code),
        (0x38, ReferenceSource::B_conditional, 0x1004, DataRefType::Code),
    ]);
    let exporter = Exporter { nso: &nso, helper: &helper, references: &references };
    let write = |i: &Instruction| {
        let mut out = String::new();
        exporter.disassemble_instruction(&mut out, i).map(|()| out)
    };
    let mut list = Vec::new();
    for instruction in [
        0x94000000u32, // bl #0x1000
        0x36180000,    // tbz w0, #3, #0x1004
        0x910043FF,    // add sp, sp, #0x10
        0xF90007FE,    // str x30, [sp, #8]
        0xB24003E1,    // orr x1, xzr, #1
        0x52800022,    // mov w2, #1
        0xE7FFDEFE,    // no instruction
        0x14000000,    // b #0x101c
        0x10000000,    // adr x0, #0x1020
    ] {
        word(&mut list, instruction);
    }
    let insns = disassemble(&list, 0x1000).unwrap();
    let texts: Vec<Result<String, Error>> = insns.iter().map(write).collect();
    assert_eq!(texts[0], Ok("\tbl f\n".to_string()));
    assert_eq!(texts[1], Ok("\ttbz w0, #3, loc_38\n".to_string()));
    assert_eq!(texts[2], Ok("\tadd sp, sp, #0x10\n".to_string()));
    assert_eq!(texts[3], Ok("\tstr x30, [sp, #8]\n".to_string()));
    assert_eq!(texts[4], Ok("\torr x1, xzr, #0x1\n".to_string()));
    assert_eq!(texts[5], Ok("\tmov w2, #1\n".to_string()));
    assert_eq!(
        texts[6],
        Ok(concat_lines(&[
            "\t// TRAP instruction",
            "\t.byte 0xFE",
            "\t.byte 0xDE",
            "\t.byte 0xFF",
            "\t.byte 0xE7",
        ]))
    );
    assert_eq!(texts[7], Err(Error::NoReference { address: 0x101C }));
    assert_eq!(texts[8], Err(Error::UnhandledAdr { address: 0x1020 }));
    // nothing is written where it cannot be written in full
    let mut out = String::from("before");
    assert!(exporter.disassemble_instruction(&mut out, &insns[7]).is_err());
    assert!(exporter.disassemble_instruction(&mut out, &insns[8]).is_err());
    assert_eq!(out, "before");
    let mut plain = disassemble(&list[8..12], 0x1008).unwrap().remove(0);
    plain.op_str = None;
    assert_eq!(write(&plain), Err(Error::NoOperands { address: 0x1008 }));
    plain.detail = None;
    assert_eq!(write(&plain), Err(Error::NoDetail { address: 0x1008 }));
    plain.mnemonic = None;
    assert_eq!(write(&plain), Err(Error::NoMnemonic { address: 0x1008 }));
    assert_eq!(
        exporter.export_instructions(&insns[..1].iter().map(|_| plain_nop()).collect()),
        Ok("\tnop \n".to_string())
    );
}

fn plain_nop() -> Instruction {
    disassemble(&0xD503201Fu32.to_le_bytes(), 0x1000).unwrap().remove(0)
}

#[test]
fn binaries_with_wrong_tables_are_refused() {
    // the stub jumps elsewhere
    let mut changed = image();
    changed.text[0x74..0x7C].copy_from_slice(&[0x11, 0x7A, 0x40, 0xF9, 0x10, 0xC2, 0x03, 0x91]);
    assert!(matches!(load(&changed), Err(Error::PltTargetMismatch)));
    // no `nop` behind the first entry
    let mut changed = image();
    changed.text[0x6C..0x70].copy_from_slice(&0xD65F03C0u32.to_le_bytes());
    assert!(matches!(load(&changed), Err(Error::BadPltHeader)));
    // no module
    let mut changed = image();
    changed.text[8] = b'N';
    assert!(matches!(load(&changed), Err(Error::BadMagic)));
    // a module object that is not at the start of the uninitialized data
    let mut changed = image();
    changed.text[0x20] += 8;
    assert!(matches!(load(&changed), Err(Error::BadModule)));
    // an unknown tag
    let mut changed = image();
    changed.data[0x18] = 31;
    assert!(matches!(load(&changed), Err(Error::BadDynamicTag)));
    // a missing tag
    let mut changed = image();
    changed.data[0x18] = 1;
    assert!(matches!(load(&changed), Err(Error::DynamicTagMissing)));
    // a repeated tag
    let mut changed = image();
    changed.data[0x28] = 23;
    assert!(matches!(load(&changed), Err(Error::DynamicTagRepeated)));
    // relocations of another size
    let mut changed = image();
    changed.data[0x18 + 7 * 16 + 8] = 16;
    assert!(matches!(load(&changed), Err(Error::BadRelocationSize)));
    // the build string does not start with zeros
    let mut changed = image();
    changed.rodata[0] = 1;
    assert!(matches!(load(&changed), Err(Error::BadBuildString)));
    // the frames have a header of an unknown version
    let mut changed = image();
    changed.rodata[0x144] = 2;
    assert!(matches!(load(&changed), Err(Error::UnsupportedVersion)));
    // the count of frames is relative to something
    let mut changed = image();
    changed.rodata[0x146] = 0x3B;
    changed.rodata[0x14C..0x150].copy_from_slice(&(1 - 0x1144i32).to_le_bytes());
    assert!(matches!(load(&changed), Err(Error::BadEhFrameHdr)));
    // a frame that is longer than the section
    let mut changed = image();
    changed.rodata[0x16C + 3] = 1;
    assert!(matches!(load(&changed), Err(Error::BadEhFrame)));
    // an init array without entries
    let mut changed = image();
    changed.data[0x18 + 9 * 16 + 8] = 0;
    assert!(matches!(load(&changed), Err(Error::EmptySection)));
    // the header of the frames is shorter than it should be
    let mut changed = image();
    changed.text[0x1C] += 4;
    assert!(matches!(load(&changed), Err(Error::BadEhFrameHdrSize)));
    // two sections at one place
    let mut changed = image();
    changed.data[0x18 + 3 * 16 + 8] = 0x10;
    assert!(load(&changed).is_err());
}

#[test]
fn a_binary_with_something_unknown_in_it_is_refused() {
    let mut changed = image();
    changed.data.extend_from_slice(&[0; 8]);
    assert!(matches!(load(&changed), Err(Error::SectionUnknown)));
}

#[test]
fn an_unused_page_address_is_refused() {
    let mut changed = image();
    // nop
    changed.text[0x48..0x4C].copy_from_slice(&0xD503201Fu32.to_le_bytes());
    assert!(matches!(
        load(&changed).unwrap().get_references_with(&vec![]),
        Err(Error::UnusedAdrp { address: 0x44 })
    ));
}

#[test]
fn what_is_kept_by_segments_is_looked_at_less() {
    let mut longer = image();
    longer.data.extend_from_slice(&[0; 0x40]);
    // neither the version nor what is reserved matters
    let mut file = file_of(&longer);
    file[4] = 7;
    file[8] = 1;
    file[0x6C] = 1;
    assert!(matches!(NsoFile::new(&file), Err(Error::UnsupportedVersion)));
    let nso = segmented::NSO::new(&file).unwrap();
    assert_eq!(nso.got_metadata.start_offset, 0x20E8);
    // but the mark and the size do
    assert!(matches!(segmented::NSO::new(&file[..0xFF]), Err(Error::UnexpectedEnd)));
    assert!(matches!(segmented::NSO::new(&file[..3]), Err(Error::UnexpectedEnd)));
    file[0] = b'n';
    assert!(matches!(segmented::NSO::new(&file), Err(Error::BadMagic)));
    // a relocation of no type
    let mut changed = image();
    changed.data.extend_from_slice(&[0; 0x40]);
    changed.rodata[0xB8..0xBC].copy_from_slice(&[0; 4]);
    assert!(matches!(
        segmented::NSO::new(&file_of(&changed)),
        Err(Error::BadRelocationType)
    ));
    // flags of the second kind
    let mut changed = image();
    changed.data.extend_from_slice(&[0; 0x40]);
    let at = 0x18 + 4 * 16;
    changed.data[at..at + 8].copy_from_slice(&0x6FFFFFFBu64.to_le_bytes());
    assert!(matches!(segmented::NSO::new(&file_of(&changed)), Err(Error::BadDynamicTag)));
}

#[test]
fn a_binary_by_its_segments() {
    let mut longer = image();
    longer.data.extend_from_slice(&[0; 0x40]);
    let nso = segmented::NSO::new(&file_of(&longer)).unwrap();
    assert_eq!(nso.build_str.build_str, "swsp");
    assert_eq!(nso.symbol_table.len(), 4);
    assert_eq!(nso.global_plt, vec![0]);
    // behind .dynamic, three entries for the loader, and the slots
    assert_eq!(nso.got_metadata.start_offset, 0x20E8);
    assert_eq!(nso.got_metadata.count, 2);
    assert_eq!(
        nso.export_got_plt().unwrap(),
        concat_lines(&[
            ".section \".got.plt\"",
            "",
            ".global off_20D0",
            "off_20D0:",
            "\t.quad 0",
            "",
            ".global off_20D8",
            "off_20D8:",
            "\t.quad 0",
            "",
            ".global off_20E0",
            "off_20E0:",
            "\t.quad 0",
            "",
            ".global off_20E8",
            "off_20E8:",
            "\t.quad imported",
            "",
        ])
    );
    let files = nso.export_all().unwrap();
    assert_eq!(files[0].0, "got.plt.s");
    assert_eq!(files[1].0, "got.s");
    assert_eq!(
        files[1].1,
        concat_lines(&[
            ".section \".got\"",
            "",
            ".global off_20E8",
            "off_20E8:",
            "",
            ".global off_20F0",
            "off_20F0:",
            "\t.quad f",
            "",
        ])
    );
}
