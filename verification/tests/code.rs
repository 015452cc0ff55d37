//! Disassembly, basic blocks and page addresses.

use std::collections::{HashMap, HashSet};

use swsplrs::error::Error;
use swsplrs::nso::adrp::find_references;
use swsplrs::nso::blocks::{check_layout, check_plain, decode, find_blocks};
use swsplrs::nso::disasm::{disassemble, Detail, Instruction, Operand};
use swsplrs::nso::opcode::{
    get_operand_base_name, get_operand_imm, get_operand_mem, get_operand_reg,
    get_operand_reg_name, get_reg_type, opcode_of, widen, Opcode, REG_W0, REG_W29, REG_X0, REG_X29,
};
use swsplrs::nso::text::{find_plt_header, find_plt_stub, text_from_plt, TextSection};
use swsplrs::reference_tracker::{DataRefType, ReferenceTracker, References};

const NOP: u32 = 0xD503201F;
const RET: u32 = 0xD65F03C0;

fn code(words: &[u32]) -> Vec<u8> {
    words.iter().flat_map(|w| w.to_le_bytes()).collect()
}

fn assembled(words: &[u32], base: u64) -> Vec<Instruction> {
    disassemble(&code(words), base).unwrap()
}

/// The references of code at 0x1000.
fn references_in(words: &[u32], function_starts: &[u64]) -> Result<References, Error> {
    references_of(assembled(words, 0x1000), function_starts)
}

fn references_of(insns: Vec<Instruction>, function_starts: &[u64]) -> Result<References, Error> {
    let mut tracker = ReferenceTracker::new();
    let starts: HashSet<u64> = function_starts.iter().copied().collect();
    let end = 0x1000 + 4 * insns.len() as u64;
    find_references(&insns, 0x1000, end, &starts, &HashMap::new(), &mut tracker)?;
    tracker.finalize()
}

fn detail(operands: Vec<Operand>) -> Detail {
    Detail { regs_write: vec![], groups: vec![], operands }
}

fn instruction(mnemonic: Option<&str>, detail: Option<Detail>) -> Instruction {
    Instruction {
        address: 0x1000,
        bytes: vec![0; 4],
        mnemonic: mnemonic.map(str::to_string),
        op_str: None,
        detail,
    }
}

fn followed_by_ret(first: Instruction) -> Vec<Instruction> {
    let mut list = vec![first];
    list.extend(assembled(&[RET], 0x1004));
    list
}

#[test]
fn code_is_disassembled() {
    let insns = assembled(&[0xB9413801, 0xFFFFFFFF, NOP], 0x1000);
    assert_eq!(insns[0].address, 0x1000);
    assert_eq!(insns[0].mnemonic.as_deref(), Some("ldr"));
    assert_eq!(insns[0].op_str.as_deref(), Some("w1, [x0, #0x138]"));
    assert_eq!(insns[0].bytes, vec![0x01, 0x38, 0x41, 0xB9]);
    let found = insns[0].detail.as_ref().unwrap();
    assert_eq!(get_operand_reg(found, 0), Ok(REG_W0 + 1));
    assert_eq!(get_operand_reg_name(found, 0), Ok("w1".to_string()));
    assert_eq!(get_operand_mem(found, 1), Ok((REG_X0, 0x138)));
    assert_eq!(get_operand_base_name(found, 1), Ok("x0".to_string()));
    assert_eq!(get_reg_type(found, 0), Ok(DataRefType::Int32));
    // data is skipped over
    assert_eq!(insns[1].mnemonic.as_deref(), Some(".byte"));
    assert!(insns[1].detail.is_none());
    assert_eq!(insns[2].address, 0x1008);
    assert!(decode(&insns[1]).unwrap().is_none());
}

#[test]
fn registers_by_their_names() {
    let typed = |name: &str| get_reg_type(&detail(vec![Operand::Reg(0, Some(name.to_string()))]), 0);
    assert_eq!(typed("x19"), Ok(DataRefType::Int64));
    assert_eq!(typed("fp"), Ok(DataRefType::Int64));
    assert_eq!(typed("lr"), Ok(DataRefType::Int64));
    assert_eq!(typed("b0"), Ok(DataRefType::Float8));
    assert_eq!(typed("h0"), Ok(DataRefType::Float16));
    assert_eq!(typed("s0"), Ok(DataRefType::Float32));
    assert_eq!(typed("d0"), Ok(DataRefType::Float64));
    assert_eq!(typed("q0"), Ok(DataRefType::Float128));
    assert_eq!(typed("z0"), Err(Error::UnsupportedRegister));
    let nameless = detail(vec![Operand::Reg(1, None), Operand::Imm(-1), Operand::Mem(1, None, 0)]);
    assert_eq!(get_reg_type(&nameless, 0), Err(Error::UnnamedRegister));
    assert_eq!(get_operand_reg_name(&nameless, 0), Err(Error::UnnamedRegister));
    assert_eq!(get_operand_base_name(&nameless, 2), Err(Error::UnnamedRegister));
    assert_eq!(get_operand_imm(&nameless, 1), Ok(u64::MAX));
    assert_eq!(get_operand_imm(&nameless, 0), Err(Error::UnexpectedOperand));
    assert_eq!(get_operand_reg(&nameless, 3), Err(Error::UnexpectedOperand));
    assert_eq!(widen(REG_W0), Some(REG_X0));
    assert_eq!(widen(REG_W29), Some(REG_X29));
    assert_eq!(widen(1), None);
}

#[test]
fn mnemonics_are_told_apart() {
    assert_eq!(opcode_of("b.ne"), Opcode::ConditionalBranch);
    assert_eq!(opcode_of("b"), Opcode::B);
    assert_eq!(opcode_of("bl"), Opcode::Bl);
    assert_eq!(opcode_of("tbnz"), Opcode::TestBranch);
    assert_eq!(opcode_of("ldrsh"), Opcode::HalfAccess);
    assert_eq!(opcode_of("ldrsw"), Opcode::Other);
}

#[test]
fn blocks_are_cut_at_branches_and_their_targets() {
    // 1000: cbz w0, #0x100c; 1004: nop; 1008: nop; 100c: nop; 1010: ret
    let insns = assembled(&[0x34000060, NOP, NOP, NOP, RET], 0x1000);
    let mut tracker = ReferenceTracker::new();
    let blocks = find_blocks(&insns, 0x1000, 0x1014, &mut tracker).unwrap();
    let found: Vec<(u64, u64, Vec<u64>)> =
        blocks.iter().map(|b| (b.start, b.end, b.next_blocks.clone())).collect();
    assert_eq!(
        found,
        vec![
            (0x1000, 0x1004, vec![0x100C, 0x1004]),
            (0x1004, 0x100C, vec![0x100C]),
            (0x100C, 0x1014, vec![]),
        ]
    );
    let refs = tracker.finalize().unwrap();
    assert_eq!(refs.get_target_address(0x1000), Some(0x100C));
}

#[test]
fn code_that_does_not_end_is_refused() {
    let insns = assembled(&[RET, NOP], 0x1000);
    let mut tracker = ReferenceTracker::new();
    assert!(matches!(
        find_blocks(&insns, 0x1000, 0x1008, &mut tracker),
        Err(Error::GapsBetweenBlocks)
    ));
    assert_eq!(check_layout(&insns, 0x1000), Ok(()));
    assert_eq!(check_layout(&insns, 0x1004), Err(Error::MisplacedInstruction));
    let mut tracker = ReferenceTracker::new();
    assert_eq!(
        find_references(&insns, 0x1000, 0x1004, &HashSet::new(), &HashMap::new(), &mut tracker),
        Err(Error::NoBlock { address: 0x1004 })
    );
}

#[test]
fn unknown_ways_out_are_refused() {
    let grouped = |group: u8| Detail { regs_write: vec![], groups: vec![7, group], operands: vec![] };
    assert_eq!(check_plain(0x10, &grouped(1)), Err(Error::UnhandledJump { address: 0x10 }));
    assert_eq!(check_plain(0x10, &grouped(2)), Err(Error::UnhandledCall { address: 0x10 }));
    assert_eq!(check_plain(0x10, &grouped(3)), Ok(()));
    assert_eq!(decode(&instruction(None, None)).err(), Some(Error::NoMnemonic { address: 0x1000 }));
    assert_eq!(
        decode(&instruction(Some("nop"), None)).err(),
        Some(Error::NoDetail { address: 0x1000 })
    );
}

#[test]
fn a_page_address_is_followed_into_later_blocks() {
    // 1000: adrp x0, #0x3000; 1004: cbz w1, #0x100c; 1008: nop; 100c: ldr s2, [x0, #0x10]; 1010: ret
    let refs = references_in(&[0xD0000000, 0x34000041, NOP, 0xBD401002, RET], &[]).unwrap();
    assert_eq!(refs.get_target_address(0x100C), Some(0x3010));
    assert_eq!(refs.get_target_address(0x1000), Some(0x3010));
    assert_eq!(refs.get_type_of(0x3010), Some(DataRefType::Float32));
}

#[test]
fn a_page_address_may_be_used_twice() {
    // 1000: adrp x0, #0x3000; 1004: ldrb w1, [x0, #1]; 1008: ldrh w2, [x0, #2]; 100c: ret
    let refs = references_in(&[0xD0000000, 0x39400401, 0x79400402, RET], &[]).unwrap();
    assert_eq!(refs.get_target_address(0x1000), Some(0x3001));
    assert_eq!(refs.get_target_address(0x1004), Some(0x3001));
    assert_eq!(refs.get_type_of(0x3001), Some(DataRefType::Int8));
    assert_eq!(refs.get_target_address(0x1008), Some(0x3002));
    assert_eq!(refs.get_type_of(0x3002), Some(DataRefType::Int16));
}

#[test]
fn an_overwritten_page_address_is_not_followed() {
    // 1000: adrp x0, #0x3000; 1004: mov x0, x1; 1008: ldr x2, [x0]; 100c: ret
    let refs = references_in(&[0xD0000000, 0xAA0103E0, 0xF9400002, RET], &[]).unwrap();
    assert_eq!(refs.get_target_address(0x1000), None);
    assert_eq!(refs.get_target_address(0x1008), None);
    // 1000: adrp x0, #0x3000; 1004: bl #0x2000; 1008: ldr x2, [x0]; 100c: ret
    let refs = references_in(&[0xD0000000, 0x940003FF, 0xF9400002, RET], &[]).unwrap();
    assert_eq!(refs.get_target_address(0x1000), None);
    assert_eq!(refs.get_target_address(0x1008), None);
    // 1000: adrp x19, #0x3000; 1004: bl #0x2000; 1008: ldr x2, [x19]; 100c: ret
    let refs = references_in(&[0xD0000013, 0x940003FF, 0xF9400262, RET], &[]).unwrap();
    assert_eq!(refs.get_target_address(0x1008), Some(0x3000));
    // one that is left at the end of the code
    assert!(matches!(
        references_in(&[0xD0000000, RET], &[]),
        Err(Error::UnusedAdrp { address: 0x1000 })
    ));
}

#[test]
fn page_addresses_are_not_followed_into_functions() {
    // 1000: adrp x0, #0x3000; 1004: ldr x1, [x0]; 1008: b #0x2000
    let words = [0xD0000000, 0xF9400001, 0x140003FE];
    let refs = references_in(&words, &[0x2000]).unwrap();
    assert_eq!(refs.get_target_address(0x1004), Some(0x3000));
    assert_eq!(refs.get_target_address(0x1008), Some(0x2000));
    assert!(matches!(
        references_in(&words, &[]),
        Err(Error::BlockNotFound { address: 0x2000 })
    ));
}

#[test]
fn instructions_that_cannot_be_analyzed() {
    // adr x0, #0x1000
    assert!(matches!(
        references_in(&[0x10000000, RET], &[]),
        Err(Error::UnhandledAdr { address: 0x1000 })
    ));
    let memory = || Operand::Mem(REG_X0, Some("x0".to_string()), 0);
    let register = |name: &str| Operand::Reg(REG_X0, Some(name.to_string()));
    let half = instruction(Some("ldrh"), Some(detail(vec![register("s0"), memory()])));
    assert!(matches!(
        references_of(followed_by_ret(half), &[]),
        Err(Error::UnexpectedRegisterType { address: 0x1000 })
    ));
    let page = instruction(Some("adrp"), Some(detail(vec![])));
    assert!(matches!(
        references_of(followed_by_ret(page), &[]),
        Err(Error::UnexpectedOperand)
    ));
}

#[test]
fn stubs_are_found_at_the_end_of_the_code() {
    let header = [0xA9BF7BF0, 0xD0000010, 0xF9407211, 0x91038210, 0xD61F0220, NOP, NOP, NOP];
    let stub = [0xD0000010, 0xF9407611, 0x9103A210, 0xD61F0220];
    assert_eq!(find_plt_stub(&assembled(&stub, 0)), Some(0x20E8));
    assert_eq!(find_plt_header(&assembled(&header, 0)), Some(0x20E0));
    assert_eq!(find_plt_stub(&assembled(&header, 0)), None);
    assert_eq!(find_plt_stub(&assembled(&stub[..3], 0)), None);
    let mut words = vec![NOP, RET];
    words.extend_from_slice(&header);
    words.extend_from_slice(&stub);
    let text = TextSection::from_data(&code(&words), 0, 0x20D0..0x20F0).unwrap();
    assert_eq!(text.section, code(&[NOP, RET]));
    assert_eq!(text.plt_functions.len(), 2);
    assert_eq!(text.plt_functions.get(&40), Some(&0x20E8));
    let mut tracker = ReferenceTracker::new();
    assert_eq!(text.collect_references(&HashSet::new(), &mut tracker), Ok(()));
    assert!(matches!(
        TextSection::from_data(&code(&words), 0, 0x20D0..0x20F8),
        Err(Error::PltTargetMismatch)
    ));
    assert!(matches!(
        TextSection::from_data(&code(&stub[..3]), 0, 0x20D0..0x20F0),
        Err(Error::OutOfBounds)
    ));
}

#[test]
fn text_is_cut_off_where_the_plt_begins() {
    let data: Vec<u8> = (0..0x60u32).map(|i| i as u8).collect();
    let got_plt = 0x20D0..0x20F8;
    // two stubs at the end, last one first, behind an entry of two stubs' length
    let stubs = vec![0x20F0, 0x20E8];
    let text = text_from_plt(&data, 8, got_plt.clone(), &stubs, Some(0x20E0)).unwrap();
    assert_eq!(text.section, data[8..0x20]);
    assert_eq!(text.section_offset, 8);
    let mut functions: Vec<(u64, u64)> = text.plt_functions.into_iter().collect();
    functions.sort();
    assert_eq!(functions, vec![(0x20, 0x20E0), (0x40, 0x20E8), (0x50, 0x20F0)]);
    let error = |data: &[u8], offset, stubs: &[u64], header| {
        text_from_plt(data, offset, got_plt.clone(), &stubs.to_vec(), header).err()
    };
    // stubs in the wrong order, or too few
    assert_eq!(
        error(&data, 8, &[0x20E8, 0x20F0], Some(0x20E0)),
        Some(Error::PltTargetMismatch)
    );
    assert_eq!(error(&data, 8, &[0x20E8], Some(0x20E0)), Some(Error::PltTargetMismatch));
    // more stubs than entries
    assert!(text_from_plt(&data, 8, 0x20D0..0x20F8, &vec![1, 0x20F0, 0x20E8], Some(0x20E0)).is_ok());
    assert_eq!(error(&data, 8, &stubs, None), Some(Error::BadPltHeader));
    assert_eq!(error(&data, 8, &stubs, Some(0x20D8)), Some(Error::BadPltHeader));
    // the text would end before it begins
    assert_eq!(error(&data, 0x21, &stubs, Some(0x20E0)), Some(Error::OutOfBounds));
    assert!(text_from_plt(&data, 0x20, got_plt.clone(), &stubs, Some(0x20E0))
        .unwrap()
        .section
        .is_empty());
    // no place for the first entry, or not even for the stubs
    assert_eq!(error(&data[..0x3F], 0, &stubs, Some(0x20E0)), Some(Error::OutOfBounds));
    assert_eq!(error(&data[..0x2F], 0, &stubs, Some(0x20E0)), Some(Error::OutOfBounds));
    assert_eq!(error(&[], 0, &[], None), Some(Error::OutOfBounds));
}
