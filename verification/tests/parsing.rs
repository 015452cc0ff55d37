//! Reading of headers, tables, strings and frames.

use std::collections::{BTreeMap, HashMap, VecDeque};

use swsplrs::bytes::{
    offset_address, read_u16, read_u32, read_u64, read_u8, to_i32, to_i64, to_u64, wrapping_sum,
};
use swsplrs::error::Error;
use swsplrs::nso::eh_frame::{
    CfiInstruction, EhFrame, ExceptionHeaderApplication, ExceptionHeaderEncoding,
    ExceptionHeaderValueFormat, FrameEntry,
};
use swsplrs::nso::nso_file::NsoFile;
use swsplrs::nso::nso_header::{NsoHeader, NsoSegment};
use swsplrs::nso::references::{add_jump_table, read_dyn_relocation, read_plt_relocation};
use swsplrs::nso::section_map::{SectionMap, SectionType};
use swsplrs::nso::string_tables::{
    parse_buildstr, parse_dynamic_string_table, parse_embed, parse_gnu_hash_table,
    parse_hash_table, parse_init_array, read_string,
};
use swsplrs::nso::tables::{
    get_dynamic_tag_value, parse_dynamic_section, parse_dynamic_symbols, DynamicSymbol,
    DynamicSymbolBind, DynamicSymbolType, DynamicSymbolVisibility, DynamicTagType, Module,
    Relocation, RelocationType,
};
use swsplrs::reference_tracker::{DataRefType, ReferenceSource, ReferenceTracker};
use swsplrs::segmented;

fn header_bytes() -> Vec<u8> {
    let mut data: Vec<u8> = (0..0x100u32).map(|i| i as u8).collect();
    data[..12].copy_from_slice(b"NSO0\0\0\0\0\0\0\0\0");
    for byte in &mut data[0x6C..0x88] {
        *byte = 0;
    }
    for (pos, value) in [
        (0x0Cusize, 5u32),
        (0x14, 0),
        (0x18, 0x800),
        (0x24, 0x1000),
        (0x28, 0x10),
        (0x34, 0x2000),
        (0x38, 0x20),
    ] {
        data[pos..pos + 4].copy_from_slice(&value.to_le_bytes());
    }
    data
}

fn header() -> NsoHeader {
    NsoHeader::read(&header_bytes()).unwrap()
}

#[test]
fn numbers_are_little_endian() {
    let data = [1u8, 2, 3, 4, 5, 6, 7, 0x88];
    assert_eq!(read_u8(&data, 7), Ok(0x88));
    assert_eq!(read_u16(&data, 1), Ok(0x0302));
    assert_eq!(read_u32(&data, 4), Ok(0x88070605));
    assert_eq!(read_u64(&data, 0), Ok(0x8807060504030201));
    assert_eq!(read_u32(&data, 5), Err(Error::UnexpectedEnd));
    assert_eq!(to_i32(0xFFFFFFFE), -2);
    assert_eq!(to_i64(u64::MAX), -1);
    assert_eq!(to_u64(-1), u64::MAX);
    assert_eq!(offset_address(4, -8), u64::MAX - 3);
    assert_eq!(wrapping_sum(u64::MAX, 3), 2);
}

#[test]
fn a_header_is_read() {
    let header = header();
    assert_eq!(header.flags, 5);
    assert!(header.is_segment_compressed(&NsoSegment::Text));
    assert!(!header.is_segment_compressed(&NsoSegment::Rodata));
    assert!(header.is_segment_compressed(&NsoSegment::Data));
    assert_eq!(header.get_segment_file_offset(&NsoSegment::Rodata), 0x23222120);
    assert_eq!(header.get_segment_file_size(&NsoSegment::Data), 0x6B6A6968);
    assert_eq!(header.get_segment_mem_offset(&NsoSegment::Data), 0x2000);
    assert_eq!(header.get_segment_mem_size(&NsoSegment::Text), 0x800);
    assert_eq!(header.get_segment_hash(&NsoSegment::Rodata)[0], 0xC0);
    assert_eq!(header.module_id[0x1F], 0x5F);
    assert_eq!(header.dynsym_size, 0x9F9E9D9C);
}

#[test]
fn a_wrong_header_is_refused() {
    let read = |change: &dyn Fn(&mut Vec<u8>)| {
        let mut data = header_bytes();
        change(&mut data);
        NsoHeader::read(&data).err()
    };
    assert_eq!(read(&|_| ()), None);
    assert_eq!(read(&|d| d[3] = b'1'), Some(Error::BadMagic));
    assert_eq!(read(&|d| d[4] = 1), Some(Error::UnsupportedVersion));
    assert_eq!(read(&|d| d[8] = 1), Some(Error::ReservedNotZero));
    assert_eq!(read(&|d| d[0x87] = 1), Some(Error::ReservedNotZero));
    assert_eq!(read(&|d| d.truncate(0xFF)), Some(Error::UnexpectedEnd));
    assert_eq!(read(&|d| d.truncate(3)), Some(Error::UnexpectedEnd));
}

#[test]
fn segments_are_put_in_their_places() {
    let file =
        NsoFile::from_segments(header(), vec![1; 0x800], vec![2; 0x10], vec![3; 0x20]).unwrap();
    assert_eq!(file.memory.len(), 0x2020);
    assert_eq!((file.memory[0x7FF], file.memory[0x800]), (1, 0));
    assert_eq!((file.memory[0xFFF], file.memory[0x1000], file.memory[0x1010]), (0, 2, 0));
    assert_eq!(file.memory[0x2000], 3);
    assert!(file.is_address_in_segment(0x100F, &NsoSegment::Rodata));
    assert!(!file.is_address_in_segment(0x1010, &NsoSegment::Rodata));
    assert!(matches!(
        NsoFile::from_segments(header(), vec![1; 0x7FF], vec![2; 0x10], vec![3; 0x20]),
        Err(Error::OutOfBounds)
    ));
}

#[test]
fn sections_are_found_one_by_one() {
    let mut map = SectionMap::new(&header()).unwrap();
    assert!(map.get(0) == Some(SectionType::Unknown));
    assert!(map.get(0x800) == Some(SectionType::Empty));
    assert!(map.get(0x2020) == None);
    assert_eq!(map.insert(0, 0x100, SectionType::Text), Ok(()));
    assert_eq!(map.insert_size(0x1000, 6, SectionType::Dynsym), Ok(()));
    assert_eq!(map.insert_align(0x1006, 8), Ok(()));
    assert!(map.get(0x1007) == Some(SectionType::Align));
    assert!(map.get(0x1008) == Some(SectionType::Unknown));
    assert_eq!(map.insert_align(0x1008, 8), Ok(()));
    assert!(map.get(0x1008) == Some(SectionType::Unknown));
    assert!(map.get_range(&SectionType::Text) == Some(0..0x100));
    assert!(map.get_range(&SectionType::Got) == None);
    assert_eq!(map.final_check(), Err(Error::SectionUnknown));
}

#[test]
fn known_sections_stay_as_they_are() {
    let mut map = SectionMap::new(&header()).unwrap();
    assert_eq!(map.insert(0, 0x100, SectionType::Text), Ok(()));
    assert_eq!(map.insert(0xFF, 0x110, SectionType::Plt), Err(Error::SectionOccupied));
    assert_eq!(map.insert(0x7F0, 0x810, SectionType::Plt), Err(Error::SectionOccupied));
    assert_eq!(map.insert(0x200, 0x300, SectionType::Text), Err(Error::SectionRepeated));
    assert!(map.get(0xFF) == Some(SectionType::Text));
    assert!(map.get(0x100) == Some(SectionType::Unknown));
}

#[test]
fn a_module_is_read() {
    let mut data = vec![0; 8];
    data.extend_from_slice(b"MOD0");
    for value in [1u32, 2, 3, 4, 5, 2] {
        data.extend_from_slice(&value.to_le_bytes());
    }
    data[4] = 8;
    let module = Module::read(&data).unwrap();
    assert_eq!(module.header_offset, 8);
    assert_eq!(module.dyn_offset, 1);
    assert_eq!((module.bss_start, module.bss_end), (2, 3));
    assert_eq!((module.ex_info_start_offset, module.ex_info_end_offset), (4, 5));
    assert_eq!(Module::read(&data[..35]), Err(Error::UnexpectedEnd));
}

#[test]
fn symbols_say_what_they_are() {
    let symbol = DynamicSymbol {
        str_table_offset: 1,
        info: 0x21,
        other: 0xFE,
        section_idx: 0,
        value: 0,
        size: 0,
    };
    assert_eq!(symbol.get_bind(), Ok(DynamicSymbolBind::STB_WEAK));
    assert_eq!(symbol.get_type(), Ok(DynamicSymbolType::STT_OBJECT));
    assert_eq!(symbol.get_visibility(), Ok(DynamicSymbolVisibility::STV_HIDDEN));
    let mut names = BTreeMap::new();
    assert_eq!(symbol.get_name(&names), Err(Error::SymbolWithoutName));
    names.insert(1, "obj".to_string());
    assert_eq!(symbol.get_name(&names), Ok(&"obj".to_string()));
    assert_eq!(DynamicSymbolBind::decode(3), Err(Error::BadSymbolBind));
    assert_eq!(DynamicSymbolType::decode(7), Err(Error::BadSymbolType));
    assert_eq!(DynamicSymbolVisibility::decode(4), Err(Error::BadSymbolVisibility));
}

#[test]
fn symbols_are_read_from_their_table() {
    let mut data = vec![0; 3];
    data.extend_from_slice(&[9, 0, 0, 0, 0x12, 0, 7, 0]);
    data.extend_from_slice(&0x1234u64.to_le_bytes());
    data.extend_from_slice(&0x20u64.to_le_bytes());
    let (offset, symbols) = parse_dynamic_symbols(&data, 3, 24).unwrap();
    assert_eq!(offset, 3);
    assert_eq!(symbols.len(), 1);
    assert_eq!((symbols[0].str_table_offset, symbols[0].section_idx), (9, 7));
    assert_eq!((symbols[0].value, symbols[0].size), (0x1234, 0x20));
    assert!(parse_dynamic_symbols(&data, 4, 24).is_err());
}

#[test]
fn every_number_of_a_table_stands_for_itself() {
    for number in [0u64, 1, 5, 12, 30, 0x6ffffef5, 0x6ffffff9] {
        let tag = DynamicTagType::decode(number).unwrap();
        assert_eq!(tag.to_value(), number);
    }
    assert_eq!(DynamicTagType::decode(0x1234), Err(Error::BadDynamicTag));
    for number in [0u32, 257, 1024, 1025, 1026, 1027, 1030, 1031, 1032] {
        let kind = RelocationType::decode(number).unwrap();
        assert_eq!(kind.to_value(), number);
    }
    assert_eq!(RelocationType::decode(258), Err(Error::BadRelocationType));
}

#[test]
fn tags_are_found_if_there_is_one() {
    let mut data = Vec::new();
    for value in [7u64, 0x100, 8, 0x200, 7, 0x300, 0, 0] {
        data.extend_from_slice(&value.to_le_bytes());
    }
    let tags = parse_dynamic_section(&data).unwrap();
    assert_eq!(tags.len(), 3);
    assert_eq!(get_dynamic_tag_value(&tags, DynamicTagType::DT_RELASZ), Ok(0x200));
    assert_eq!(
        get_dynamic_tag_value(&tags, DynamicTagType::DT_RELA),
        Err(Error::DynamicTagRepeated)
    );
    assert_eq!(
        get_dynamic_tag_value(&tags, DynamicTagType::DT_HASH),
        Err(Error::DynamicTagMissing)
    );
    assert_eq!(parse_dynamic_section(&data[..48]), Err(Error::UnexpectedEnd));
}

#[test]
fn strings_end_at_zero() {
    assert_eq!(read_string(b"ab\0cd\0", 3), Ok(("cd".to_string(), 2, 6)));
    assert_eq!(read_string(b"ab", 0), Err(Error::UnexpectedEnd));
    // what is not UTF-8 is replaced
    assert_eq!(read_string(b"a\xFFb\0", 0), Ok(("a\u{FFFD}b".to_string(), 3, 4)));
}

#[test]
fn tables_of_strings() {
    let table = parse_dynamic_string_table(b"xx\0f\0obj\0", 2, 7).unwrap();
    let found: Vec<(u64, &str)> = table.iter().map(|(k, v)| (*k, v.as_str())).collect();
    assert_eq!(found, vec![(0, ""), (1, "f"), (3, "obj")]);
    assert_eq!(parse_dynamic_string_table(b"x\0", 1, 2), Err(Error::OutOfBounds));
    assert_eq!(
        parse_embed(b"--a\0bc\0", 2, 5),
        Ok(vec![(2, "a".to_string()), (4, "bc".to_string())])
    );
    assert_eq!(parse_embed(b"abc", 1, 2), Err(Error::UnexpectedEnd));
    assert_eq!(parse_embed(b"abc", 1, 3), Err(Error::OutOfBounds));
}

#[test]
fn the_build_string_has_a_length() {
    assert_eq!(parse_buildstr(b"\0\0\0\0\x02\0\0\0hi\0"), Ok(("hi".to_string(), 11)));
    assert_eq!(parse_buildstr(b"\0\0\0\x01\x02\0\0\0hi\0"), Err(Error::BadBuildString));
    assert_eq!(parse_buildstr(b"\0\0\0\0\x03\0\0\0hi\0"), Err(Error::BadBuildString));
    assert_eq!(parse_buildstr(b"\0\0\0\0\x02\0\0\0hi"), Err(Error::UnexpectedEnd));
    // by its segment, the text is as long as it says
    let built = segmented::BuildStr::new(b"----\x02\0\0\0hi!").unwrap();
    assert_eq!(built.build_str, "hi");
    assert_eq!(
        segmented::BuildStr::new(b"----\x02\0\0\0h\xFF").err(),
        Some(Error::BadBuildString)
    );
    assert_eq!(
        segmented::BuildStr::new(b"----\x03\0\0\0hi").err(),
        Some(Error::UnexpectedEnd)
    );
}

#[test]
fn arrays_and_hash_tables() {
    let mut data = vec![0u8; 8];
    data.extend_from_slice(&5u64.to_le_bytes());
    data.extend_from_slice(&6u64.to_le_bytes());
    assert_eq!(parse_init_array(&data, 8, 2), Ok(vec![5, 6]));
    assert_eq!(parse_init_array(&data, 8, 3), Err(Error::OutOfBounds));

    let words = |list: &[u32]| -> Vec<u8> { list.iter().flat_map(|w| w.to_le_bytes()).collect() };
    let table = parse_hash_table(&words(&[9, 1, 2, 7, 8, 6]), 4).unwrap();
    assert_eq!((table.buckets, table.chains), (vec![7], vec![8, 6]));
    assert!(matches!(parse_hash_table(&words(&[1, 2, 7]), 0), Err(Error::UnexpectedEnd)));
    assert!(matches!(parse_hash_table(&words(&[1]), 5), Err(Error::OutOfBounds)));

    let table = parse_gnu_hash_table(&words(&[1, 2, 1, 4, 0x10, 0x20, 3, 11, 12, 0]), 0).unwrap();
    assert_eq!((table.sym_idx, table.shift), (2, 4));
    assert_eq!(table.bloom_filter, vec![0x2000000010]);
    assert_eq!((table.buckets, table.chains), (vec![3], vec![11, 12]));
    assert!(matches!(
        parse_gnu_hash_table(&words(&[1, 2, 1, 4, 0x10, 0x20, 3, 11]), 0),
        Err(Error::UnexpectedEnd)
    ));
}

#[test]
fn slots_behind_those_of_the_loader() {
    let data: Vec<u8> = (1u64..=6).flat_map(|n| n.to_le_bytes()).collect();
    assert_eq!(segmented::parse_global_plt(&data, 8, 2), Ok(vec![5, 6]));
    assert_eq!(segmented::parse_global_plt(&data, 8, 3), Err(Error::UnexpectedEnd));
    assert_eq!(segmented::parse_global_plt(&data, 32, 0), Err(Error::OutOfBounds));
}

#[test]
fn what_relocations_stand_for() {
    let relocation = |reloc_type, addend| Relocation { offset: 0x2000, reloc_type, sym_idx: 2, addend };
    let relative = read_dyn_relocation(0x1000, &relocation(RelocationType::R_AARCH64_RELATIVE, 0x44));
    let relative = relative.unwrap();
    assert_eq!((relative.source, relative.target), (0x2000, 0x44));
    assert_eq!(relative.target_type, DataRefType::Unknown);
    let symbol = read_dyn_relocation(0x1000, &relocation(RelocationType::R_AARCH64_ABS64, -4)).unwrap();
    assert_eq!(symbol.target, 0x1030);
    assert_eq!(symbol.target_type, DataRefType::SymbolAbsolute(-4));
    assert_eq!(symbol.source_type, ReferenceSource::Relocation);
    let slot = read_plt_relocation(0x1000, &relocation(RelocationType::R_AARCH64_JUMP_SLOT, 0)).unwrap();
    assert_eq!(slot.target, 0x1030);
    assert_eq!(
        read_dyn_relocation(0, &relocation(RelocationType::R_AARCH64_RELATIVE, -1)),
        Err(Error::NegativeAddend)
    );
    assert_eq!(
        read_dyn_relocation(0, &relocation(RelocationType::R_AARCH64_JUMP_SLOT, 0)),
        Err(Error::UnsupportedRelocation)
    );
    assert_eq!(
        read_plt_relocation(0, &relocation(RelocationType::R_AARCH64_ABS64, 0)),
        Err(Error::UnsupportedRelocation)
    );
}

#[test]
fn jump_tables_hold_distances() {
    let mut memory = vec![0u8; 0x20];
    memory[0x10..0x14].copy_from_slice(&(-0x10i32).to_le_bytes());
    memory[0x14..0x18].copy_from_slice(&8i32.to_le_bytes());
    let mut tracker = ReferenceTracker::new();
    assert_eq!(add_jump_table(&memory, 0x10, 2, &mut tracker), Ok(()));
    let refs = tracker.finalize().unwrap();
    assert_eq!(refs.get_target_address(0x10), Some(0));
    assert_eq!(refs.get_target_address(0x14), Some(0x18));
    assert_eq!(refs.get_type_of(0x18), Some(DataRefType::Code));
    let mut tracker = ReferenceTracker::new();
    assert_eq!(add_jump_table(&memory, 0x1C, 2, &mut tracker), Err(Error::UnexpectedEnd));
    assert_eq!(add_jump_table(&memory, 0x21, 1, &mut tracker), Err(Error::OutOfBounds));
}

#[test]
fn numbers_in_the_header_of_frames() {
    let data = [0xFE, 0xFF, 0xFF, 0xFF, 1, 0, 0, 0];
    let encoding = |value: u8| ExceptionHeaderEncoding { value };
    assert_eq!(
        encoding(0x1B).get_value_format(),
        Ok(ExceptionHeaderValueFormat::DW_EH_PE_sdata4)
    );
    assert_eq!(
        encoding(0x1B).get_application(),
        Ok(ExceptionHeaderApplication::DW_EH_PE_pcrel)
    );
    assert_eq!(encoding(0x03).read(&data, 0, 0x1000), Ok((0xFFFFFFFE, 4)));
    assert_eq!(encoding(0x0B).read(&data, 0, 0x1000), Ok((u64::MAX - 1, 4)));
    assert_eq!(encoding(0x1B).read(&data, 0, 0x1000), Ok((0x1002, 4)));
    assert_eq!(encoding(0x3B).read(&data, 0, 0x1000), Ok((0xFFE, 4)));
    assert_eq!(encoding(0x0A).read(&data, 0, 0), Ok((u64::MAX - 1, 2)));
    assert_eq!(encoding(0x02).read(&data, 0, 0), Ok((0xFFFE, 2)));
    assert_eq!(encoding(0x0C).read(&data, 0, 0), Ok((0x1FFFFFFFE, 8)));
    assert_eq!(encoding(0x04).read(&data, 0, 0), Ok((0x1FFFFFFFE, 8)));
    assert_eq!(encoding(0x01).read(&data, 0, 0), Err(Error::UnsupportedEncoding));
    assert_eq!(encoding(0x05).read(&data, 0, 0), Err(Error::UnsupportedEncoding));
    assert_eq!(encoding(0x2B).read(&data, 0, 0), Err(Error::UnsupportedEncoding));
    assert_eq!(encoding(0x03).read(&data, 5, 0), Err(Error::UnexpectedEnd));
}

fn directives(list: Vec<Option<CfiInstruction>>) -> Result<HashMap<u64, VecDeque<String>>, Error> {
    let entries = vec![Some(FrameEntry::Cie), Some(FrameEntry::Fde(0x100, 0x20, -8))];
    EhFrame::from_entries(&entries, &vec![vec![], list])?.get_cfi_instructions()
}

#[test]
fn frames_are_bracketed() {
    let lines = directives(vec![
        Some(CfiInstruction::Advance(8)),
        Some(CfiInstruction::Cfa(29, 16)),
        Some(CfiInstruction::Saved(30, 1)),
        Some(CfiInstruction::Advance(4)),
        Some(CfiInstruction::Saved(72, 3)),
        Some(CfiInstruction::CfaOffset(32)),
        Some(CfiInstruction::Nothing),
    ])
    .unwrap();
    assert_eq!(lines[&0x100], vec![".cfi_startproc"]);
    assert_eq!(lines[&0x108], vec![".cfi_def_cfa w29, 16", ".cfi_offset w30, -8"]);
    assert_eq!(
        lines[&0x10C],
        vec![".cfi_offset d8, -24", ".cfi_def_cfa_offset 32", ".cfi_escape 0x00"]
    );
    assert_eq!(lines[&0x120], vec![".cfi_endproc"]);
    assert_eq!(lines.len(), 4);
}

#[test]
fn a_frame_ends_before_the_next_one_starts() {
    let entries = vec![
        Some(FrameEntry::Cie),
        Some(FrameEntry::Fde(0x120, 8, -8)),
        Some(FrameEntry::Cie),
        Some(FrameEntry::Fde(0x100, 0x20, -8)),
    ];
    let frames = EhFrame::from_entries(&entries, &vec![vec![], vec![], vec![], vec![]]).unwrap();
    let lines = frames.get_cfi_instructions().unwrap();
    assert_eq!(lines[&0x120], vec![".cfi_endproc", ".cfi_startproc"]);
}

#[test]
fn frames_that_cannot_be_used() {
    assert_eq!(directives(vec![None]).err(), Some(Error::BadCfiInstruction));
    assert_eq!(
        directives(vec![Some(CfiInstruction::Other)]).err(),
        Some(Error::UnsupportedCfiInstruction)
    );
    assert_eq!(
        directives(vec![Some(CfiInstruction::Saved(31, 1))]).err(),
        Some(Error::UnsupportedFrameRegister { register: 31 })
    );
    assert_eq!(
        directives(vec![Some(CfiInstruction::Saved(30, 1 << 62))]).err(),
        Some(Error::Overflow)
    );
    let entries = |list: Vec<Option<FrameEntry>>| {
        let lists = list.iter().map(|_| vec![]).collect();
        EhFrame::from_entries(&list, &lists).err()
    };
    assert_eq!(entries(vec![]), Some(Error::FirstEntryNotCommon));
    assert_eq!(entries(vec![Some(FrameEntry::BadFde)]), Some(Error::FirstEntryNotCommon));
    assert_eq!(entries(vec![None]), Some(Error::BadEhFrame));
    assert_eq!(entries(vec![Some(FrameEntry::Cie), None]), Some(Error::BadEhFrame));
    assert_eq!(
        entries(vec![Some(FrameEntry::Cie), Some(FrameEntry::BadFde)]),
        Some(Error::BadFrame)
    );
}
