//! The `.text` section and the stubs of the `.plt` section behind it.

use std::collections::{HashMap, HashSet};
use std::ops::Range;
use vstd::prelude::*;
use vstd::slice::*;

use crate::bytes;
use crate::error::Error;
use crate::nso::adrp::{self, find_references};
use crate::nso::disasm::{
    self, disassemble, Detail, DetailView, Instruction, InstructionView, OperandView,
};
use crate::nso::opcode::{
    self, get_operand_imm, get_operand_mem, get_operand_reg, opcode_of, Opcode, REG_SP, REG_X16,
    REG_X17, REG_X30,
};
use crate::reference_tracker::{self, Reference, ReferenceTracker};

verus! {

/// The code of a binary.
pub struct TextSection {
    pub section: Vec<u8>,
    /// Offset of the section within the text segment.
    pub section_offset: usize,
    /// Addresses of the functions in the `.plt` section, each with the `.got.plt` entry that it
    /// jumps through.
    pub plt_functions: HashMap<u64, u64>,
}

/// What a [`TextSection`] says.
#[verifier::ext_equal]
pub struct TextView {
    pub section: Seq<u8>,
    pub section_offset: usize,
    pub plt_functions: Map<u64, u64>,
}

impl View for TextSection {
    type V = TextView;

    open spec fn view(&self) -> TextView {
        TextView {
            section: self.section@,
            section_offset: self.section_offset,
            plt_functions: self.plt_functions@,
        }
    }
}

/// The details of an instruction, if it is of this opcode.
pub open spec fn detail_of(i: InstructionView, op: Opcode) -> Option<DetailView> {
    match i.mnemonic {
        Some(mnemonic) => if opcode::opcode(mnemonic) == op {
            i.detail
        } else {
            None
        },
        None => None,
    }
}

/// The operand at `idx` is the register `reg`.
pub open spec fn is_reg(detail: DetailView, idx: int, reg: u16) -> bool {
    match opcode::operand_reg(detail, idx) {
        Ok((found, _)) => found == reg,
        Err(_) => false,
    }
}

/// The address that the four instructions at `from` load and jump through:
/// `adrp x16, page`, `ldr x17, [x16, offset]`, `add x16, x16, offset`, `br x17`.
pub open spec fn plt_jump(insns: Seq<InstructionView>, from: int) -> Option<u64> {
    if insns.len() < from + 4 {
        None
    } else {
        match (
            detail_of(insns[from], Opcode::Adrp),
            detail_of(insns[from + 1], Opcode::Ldr),
            detail_of(insns[from + 2], Opcode::Add),
            detail_of(insns[from + 3], Opcode::Br),
        ) {
            (Some(adrp), Some(ldr), Some(add), Some(br)) => match (
                opcode::operand_imm(adrp, 1),
                opcode::operand_mem(ldr, 1),
                opcode::operand_imm(add, 2),
            ) {
                (Ok(page), Ok((base, _, offset)), Ok(added)) => if is_reg(adrp, 0, REG_X16)
                    && is_reg(ldr, 0, REG_X17) && base == REG_X16 && is_reg(add, 0, REG_X16)
                    && is_reg(add, 1, REG_X16) && added == bytes::wrap64(offset as int) && is_reg(
                    br,
                    0,
                    REG_X17,
                ) {
                    Some(bytes::wrap64(page + offset))
                } else {
                    None
                },
                _ => None,
            },
            _ => None,
        }
    }
}

/// The address that a `.plt` stub jumps through, if the instructions begin with one.
pub open spec fn plt_stub(insns: Seq<InstructionView>) -> Option<u64> {
    plt_jump(insns, 0)
}

/// The address that the first entry of the `.plt` section jumps through, if the instructions begin
/// with it: `stp x16, x30, [sp, #-0x10]!`, a jump as in a stub, and three `nop`.
pub open spec fn plt_header(insns: Seq<InstructionView>) -> Option<u64> {
    if insns.len() < 8 {
        None
    } else {
        match detail_of(insns[0], Opcode::Stp) {
            Some(stp) => match opcode::operand_mem(stp, 2) {
                Ok((base, _, disp)) => if is_reg(stp, 0, REG_X16) && is_reg(stp, 1, REG_X30)
                    && base == REG_SP && disp == -0x10 && is_nop(insns[5]) && is_nop(insns[6])
                    && is_nop(insns[7]) {
                    plt_jump(insns, 1)
                } else {
                    None
                },
                Err(_) => None,
            },
            None => None,
        }
    }
}

pub open spec fn is_nop(i: InstructionView) -> bool {
    match i.mnemonic {
        Some(mnemonic) => opcode::opcode(mnemonic) == Opcode::Nop,
        None => false,
    }
}

fn find_detail(i: &Instruction, op: Opcode) -> (r: Option<&Detail>)
    ensures
        match r {
            Some(detail) => detail_of(i@, op) == Some(detail@),
            None => detail_of(i@, op) is None,
        },
{
    match &i.mnemonic {
        Some(mnemonic) => {
            if opcode_of(mnemonic.as_str()) == op {
                match &i.detail {
                    Some(detail) => Some(detail),
                    None => None,
                }
            } else {
                None
            }
        },
        None => None,
    }
}

fn check_reg(detail: &Detail, idx: usize, reg: u16) -> (r: bool)
    ensures
        r == is_reg(detail@, idx as int, reg),
{
    match get_operand_reg(detail, idx) {
        Ok(found) => found == reg,
        Err(_) => false,
    }
}

fn check_nop(i: &Instruction) -> (r: bool)
    ensures
        r == is_nop(i@),
{
    match &i.mnemonic {
        Some(mnemonic) => opcode_of(mnemonic.as_str()) == Opcode::Nop,
        None => false,
    }
}

fn find_plt_jump(insns: &Vec<Instruction>, from: usize) -> (r: Option<u64>)
    requires
        from <= 1,
    ensures
        r == plt_jump(disasm::instruction_views(insns@), from as int),
{
    let ghost views = disasm::instruction_views(insns@);
    assert(views.len() == insns@.len());
    if insns.len() < from + 4 {
        return None;
    }
    assert(views[from as int] == insns@[from as int]@);
    assert(views[from + 1] == insns@[from + 1]@);
    assert(views[from + 2] == insns@[from + 2]@);
    assert(views[from + 3] == insns@[from + 3]@);
    let adrp = find_detail(&insns[from], Opcode::Adrp)?;
    let ldr = find_detail(&insns[from + 1], Opcode::Ldr)?;
    let add = find_detail(&insns[from + 2], Opcode::Add)?;
    let br = find_detail(&insns[from + 3], Opcode::Br)?;
    let page: u64 = match get_operand_imm(adrp, 1) {
        Ok(page) => page,
        Err(_) => {
            return None;
        },
    };
    let (base, offset): (u16, i32) = match get_operand_mem(ldr, 1) {
        Ok(mem) => mem,
        Err(_) => {
            return None;
        },
    };
    let added: u64 = match get_operand_imm(add, 2) {
        Ok(added) => added,
        Err(_) => {
            return None;
        },
    };
    if check_reg(adrp, 0, REG_X16) && check_reg(ldr, 0, REG_X17) && base == REG_X16 && check_reg(
        add,
        0,
        REG_X16,
    ) && check_reg(add, 1, REG_X16) && added == bytes::to_u64(offset as i64) && check_reg(
        br,
        0,
        REG_X17,
    ) {
        Some(bytes::offset_address(page, offset as i64))
    } else {
        None
    }
}

/// The address that a `.plt` stub jumps through, if the instructions begin with one.
pub fn find_plt_stub(insns: &Vec<Instruction>) -> (r: Option<u64>)
    ensures
        r == plt_stub(disasm::instruction_views(insns@)),
{
    find_plt_jump(insns, 0)
}

/// The address that the first entry of the `.plt` section jumps through, if the instructions begin
/// with it.
pub fn find_plt_header(insns: &Vec<Instruction>) -> (r: Option<u64>)
    ensures
        r == plt_header(disasm::instruction_views(insns@)),
{
    let ghost views = disasm::instruction_views(insns@);
    assert(views.len() == insns@.len());
    if insns.len() < 8 {
        return None;
    }
    assert(views[0] == insns@[0]@);
    assert(views[5] == insns@[5]@);
    assert(views[6] == insns@[6]@);
    assert(views[7] == insns@[7]@);
    let stp = find_detail(&insns[0], Opcode::Stp)?;
    let (base, disp): (u16, i32) = match get_operand_mem(stp, 2) {
        Ok(mem) => mem,
        Err(_) => {
            return None;
        },
    };
    if check_reg(stp, 0, REG_X16) && check_reg(stp, 1, REG_X30) && base == REG_SP && disp == -0x10
        && check_nop(&insns[5]) && check_nop(&insns[6]) && check_nop(&insns[7]) {
        find_plt_jump(insns, 1)
    } else {
        None
    }
}

/// The instructions of the `size` bytes at `offset` within the text segment.
pub open spec fn code_at(data: Seq<u8>, offset: int, size: int) -> Seq<InstructionView> {
    disasm::disassembly(data.subrange(offset, offset + size), offset as u64)
}

/// `stubs` and what the `.plt` stubs from `offset` downwards jump through, last stub first.
pub open spec fn plt_scan(data: Seq<u8>, offset: int, stubs: Seq<u64>) -> Seq<u64>
    decreases offset + 16,
{
    if offset < 0 {
        stubs
    } else {
        match plt_stub(code_at(data, offset, 16)) {
            None => stubs,
            Some(target) => plt_scan(data, offset - 16, stubs.push(target)),
        }
    }
}

/// The stubs, first one first, jump through the entries of the `.got.plt` section behind its first
/// three.
pub open spec fn targets_match(targets: Seq<u64>, got_plt_start: u64, got_plt_end: u64) -> bool {
    let first_to_last = targets.reverse();
    &&& (got_plt_end - got_plt_start) / 8 <= 3 + targets.len()
    &&& forall|i: int|
        0 <= i < (got_plt_end - got_plt_start) / 8 - 3 ==> #[trigger] first_to_last[i]
            == got_plt_start + (i + 3) * 8
}

/// Where the stub number `k` is in a segment of `length` bytes, counted from the end. Where there are
/// only `k` stubs, the second half of the first entry of the `.plt` section is there.
pub open spec fn stub_offset(length: int, k: int) -> int {
    length - 16 - 16 * k
}

/// The addresses of the last `count` stubs of a segment of `length` bytes, each with what it jumps
/// through. `stubs` has the last stub first.
pub open spec fn stub_functions(length: int, stubs: Seq<u64>, count: int) -> Map<u64, u64>
    decreases count,
{
    if count <= 0 {
        Map::empty()
    } else {
        stub_functions(length, stubs, count - 1).insert(
            stub_offset(length, count - 1) as u64,
            stubs[count - 1],
        )
    }
}

/// The text section in `data`, which goes from `offset` to the `.plt` section at the end. What that
/// section jumps through is given by `stubs`, last stub first, and by `header`.
pub open spec fn text_before_plt(
    data: Seq<u8>,
    offset: usize,
    got_plt_start: u64,
    got_plt_end: u64,
    stubs: Seq<u64>,
    header: Option<u64>,
) -> Result<TextView, Error> {
    let end = stub_offset(data.len() as int, stubs.len() as int);
    if end < 0 {
        Err(Error::OutOfBounds)
    } else if !targets_match(stubs, got_plt_start, got_plt_end) {
        Err(Error::PltTargetMismatch)
    } else if end < 16 {
        Err(Error::OutOfBounds)
    } else if header is None || header->0 != got_plt_start + 16 {
        Err(Error::BadPltHeader)
    } else if end - 16 < offset {
        Err(Error::OutOfBounds)
    } else {
        Ok(
            TextView {
                section: data.subrange(offset as int, end - 16),
                section_offset: offset,
                plt_functions: stub_functions(
                    data.len() as int,
                    stubs,
                    stubs.len() as int,
                ).insert((end - 16) as u64, header->0),
            },
        )
    }
}

/// What the first entry of the `.plt` section jumps through, where `count` stubs follow it.
pub open spec fn header_before(data: Seq<u8>, count: int) -> Option<u64> {
    let end = stub_offset(data.len() as int, count);
    if end < 16 {
        None
    } else {
        plt_header(code_at(data, end - 16, 32))
    }
}

/// The text section in `data`, which goes from `offset` to the `.plt` section at the end.
pub open spec fn text_section(
    data: Seq<u8>,
    offset: usize,
    got_plt_start: u64,
    got_plt_end: u64,
) -> Result<TextView, Error> {
    let stubs = plt_scan(data, data.len() - 16, Seq::empty());
    text_before_plt(
        data,
        offset,
        got_plt_start,
        got_plt_end,
        stubs,
        header_before(data, stubs.len() as int),
    )
}

/// Cuts the text section out of the text segment `data`. It goes from `offset` to the `.plt` section,
/// which is at the end and consists of an entry of two stubs' length and of the stubs. What these jump
/// through has to agree with the `.got.plt` section: `stubs` says it of each stub, last stub first,
/// and `header` of the first entry, if there is one.
pub fn text_from_plt(
    data: &[u8],
    offset: usize,
    got_plt: Range<u64>,
    stubs: &Vec<u64>,
    header: Option<u64>,
) -> (r: Result<TextSection, Error>)
    requires
        got_plt.start <= got_plt.end,
    ensures
        ({
            let wanted = text_before_plt(
                data@,
                offset,
                got_plt.start,
                got_plt.end,
                stubs@,
                header,
            );
            match r {
                Ok(text) => wanted == Ok::<TextView, Error>(text@),
                Err(e) => wanted == Err::<TextView, Error>(e),
            }
        }),
{
    let length: usize = data.len();
    if length < 16 || stubs.len() > (length - 16) / 16 {
        return Err(Error::OutOfBounds);
    }
    let end: usize = length - 16 - 16 * stubs.len();
    let ghost first_to_last = stubs@.reverse();
    let entries: u64 = (got_plt.end - got_plt.start) / 8;
    let mut i: u64 = 3;
    while i < entries
        invariant
            3 <= i,
            i <= entries || i == 3,
            entries == (got_plt.end - got_plt.start) / 8,
            got_plt.start <= got_plt.end,
            first_to_last == stubs@.reverse(),
            i - 3 <= first_to_last.len(),
            forall|k: int|
                0 <= k < i - 3 ==> #[trigger] first_to_last[k] == got_plt.start + (k + 3) * 8,
            stub_offset(data@.len() as int, stubs@.len() as int) >= 0,
        decreases entries - i,
    {
        let matches: bool = i - 3 < stubs.len() as u64 && stubs[stubs.len() - 1 - (i - 3) as usize]
            == got_plt.start + i * 8;
        assert(i - 3 < stubs@.len() ==> first_to_last[i - 3] == stubs@[stubs@.len() - 1 - (i - 3)]);
        if !matches {
            return Err(Error::PltTargetMismatch);
        }
        i = i + 1;
    }
    if end < 16 {
        return Err(Error::OutOfBounds);
    }
    let target: u64 = match header {
        Some(target) => target,
        None => {
            return Err(Error::BadPltHeader);
        },
    };
    if target < 16 || target - 16 != got_plt.start {
        return Err(Error::BadPltHeader);
    }
    if end - 16 < offset {
        return Err(Error::OutOfBounds);
    }
    let mut plt_functions: HashMap<u64, u64> = HashMap::new();
    let mut k: usize = 0;
    while k < stubs.len()
        invariant
            k <= stubs@.len(),
            length == data@.len(),
            stub_offset(length as int, stubs@.len() as int) >= 0,
            plt_functions@ == stub_functions(length as int, stubs@, k as int),
        decreases stubs@.len() - k,
    {
        plt_functions.insert((length - 16 - 16 * k) as u64, stubs[k]);
        k = k + 1;
    }
    plt_functions.insert((end - 16) as u64, target);
    let section: Vec<u8> = slice_to_vec(slice_subrange(data, offset, end - 16));
    Ok(TextSection { section, section_offset: offset, plt_functions })
}

impl TextSection {
    /// Finds the text section in the text segment `data`. The section begins at `offset` and ends
    /// where the `.plt` section begins, whose stubs have to agree with the `.got.plt` section.
    pub fn from_data(data: &[u8], offset: usize, got_plt: Range<u64>) -> (r: Result<Self, Error>)
        requires
            got_plt.start <= got_plt.end,
        ensures
            match r {
                Ok(text) => text_section(data@, offset, got_plt.start, got_plt.end) == Ok::<
                    TextView,
                    Error,
                >(text@),
                Err(e) => (e == Error::Disassembler && data@.len() >= 16) || text_section(
                    data@,
                    offset,
                    got_plt.start,
                    got_plt.end,
                ) == Err::<TextView, Error>(e),
            },
    {
        let length: usize = data.len();
        if length < 16 {
            return Err(Error::OutOfBounds);
        }
        let mut stubs: Vec<u64> = Vec::new();
        let mut end: usize = length - 16;
        assert(stubs@ =~= Seq::empty());
        loop
            invariant
                length == data@.len(),
                length >= 16,
                end == stub_offset(length as int, stubs@.len() as int),
                plt_scan(data@, length - 16, Seq::empty()) == plt_scan(data@, end as int, stubs@),
            ensures
                end == stub_offset(length as int, stubs@.len() as int),
                plt_scan(data@, length - 16, Seq::empty()) == stubs@,
            decreases end,
        {
            let insns = disassemble(slice_subrange(data, end, end + 16), end as u64)?;
            match find_plt_stub(&insns) {
                None => {
                    break;
                },
                Some(target) => {
                    if end < 16 {
                        assert(plt_scan(data@, end - 16, stubs@.push(target)) == stubs@.push(target));
                        return Err(Error::OutOfBounds);
                    }
                    stubs.push(target);
                    end = end - 16;
                },
            }
        }
        let header: Option<u64> = if end < 16 {
            None
        } else {
            // the first entry is twice as long as a stub
            let insns = disassemble(slice_subrange(data, end - 16, end + 16), (end - 16) as u64)?;
            find_plt_header(&insns)
        };
        text_from_plt(data, offset, got_plt, &stubs, header)
    }

    /// Finds the references of the code. Page addresses are not followed into the functions that
    /// start at one of `function_starts`, nor into the `.plt` section.
    pub fn collect_references(
        &self,
        function_starts: &HashSet<u64>,
        reference_tracker: &mut ReferenceTracker,
    ) -> (r: Result<(), Error>)
        ensures
            (r == Err::<(), Error>(Error::Disassembler) && fits(self@)
                && final(reference_tracker)@ == old(reference_tracker)@) || code_references(self@, function_starts@, old(reference_tracker)@) == (
                final(reference_tracker)@,
                r,
            ),
    {
        if self.section.len() as u64 > u64::MAX - self.section_offset as u64 {
            return Err(Error::Overflow);
        }
        let start: u64 = self.section_offset as u64;
        let end: u64 = start + self.section.len() as u64;
        let insns = disassemble(self.section.as_slice(), start)?;
        find_references(
            &insns,
            start,
            end,
            function_starts,
            &self.plt_functions,
            reference_tracker,
        )
    }
}

/// All of the code has addresses.
pub open spec fn fits(text: TextView) -> bool {
    text.section_offset + text.section.len() <= u64::MAX
}

/// The references of the code of `text`: all that are known afterwards.
pub open spec fn code_references(
    text: TextView,
    function_starts: Set<u64>,
    refs: Seq<Reference>,
) -> (Seq<Reference>, Result<(), Error>) {
    if !fits(text) {
        (refs, Err(Error::Overflow))
    } else {
        adrp::reference_search(
            disasm::disassembly(text.section, text.section_offset as u64),
            text.section_offset as u64,
            (text.section_offset + text.section.len()) as u64,
            function_starts.union(text.plt_functions.dom()),
            refs,
        )
    }
}

/// The search for the references of code keeps those that are known.
pub proof fn lemma_code_references_keep(
    text: TextView,
    function_starts: Set<u64>,
    refs: Seq<Reference>,
)
    ensures
        reference_tracker::continues(code_references(text, function_starts, refs).0, refs),
{
    if fits(text) {
        adrp::lemma_reference_search_keeps(
            disasm::disassembly(text.section, text.section_offset as u64),
            text.section_offset as u64,
            (text.section_offset + text.section.len()) as u64,
            function_starts.union(text.plt_functions.dom()),
            refs,
        );
    }
}

/// The operand at `idx` is this register.
pub open spec fn holds_register(i: InstructionView, idx: int, reg: u16) -> bool {
    i.detail is Some && 0 <= idx < i.detail->0.operands.len() && i.detail->0.operands[idx] is Reg
        && i.detail->0.operands[idx]->Reg_0 == reg
}

/// The operand at `idx` is this number.
pub open spec fn holds_number(i: InstructionView, idx: int, number: i64) -> bool {
    i.detail is Some && 0 <= idx < i.detail->0.operands.len() && i.detail->0.operands[idx]
        == OperandView::Imm(number)
}

/// The operand at `idx` is the memory at this distance from this register.
pub open spec fn holds_memory(i: InstructionView, idx: int, base: u16, distance: int) -> bool {
    i.detail is Some && 0 <= idx < i.detail->0.operands.len() && i.detail->0.operands[idx] is Mem
        && i.detail->0.operands[idx]->Mem_0 == base && i.detail->0.operands[idx]->Mem_2 == distance
}

/// The operands of `adrp x16, page`, `ldr x17, [x16, distance]`, `add x16, x16, distance`, `br x17`.
pub open spec fn are_jump_operands(
    load: InstructionView,
    read: InstructionView,
    sum: InstructionView,
    jump: InstructionView,
    page: i64,
    distance: i32,
) -> bool {
    &&& holds_register(load, 0, REG_X16)
    &&& holds_number(load, 1, page)
    &&& holds_register(read, 0, REG_X17)
    &&& holds_memory(read, 1, REG_X16, distance as int)
    &&& holds_register(sum, 0, REG_X16)
    &&& holds_register(sum, 1, REG_X16)
    &&& holds_number(sum, 2, distance as i64)
    &&& holds_register(jump, 0, REG_X17)
}

/// Four instructions that load an address, read what is there and jump to it jump through that address,
/// which is the distance behind the page. Only instructions with these operands do.
pub proof fn law_stubs_jump_through_what_they_load(
    insns: Seq<InstructionView>,
    page: i64,
    distance: i32,
)
    requires
        insns.len() >= 4,
    ensures
        insns[0].mnemonic == Some("adrp"@) && insns[1].mnemonic == Some("ldr"@)
            && insns[2].mnemonic == Some("add"@) && insns[3].mnemonic == Some("br"@)
            && are_jump_operands(insns[0], insns[1], insns[2], insns[3], page, distance) && page
            + distance >= 0 ==> plt_stub(insns) is Some && plt_stub(insns)->0 == page + distance,
        plt_stub(insns) is Some ==> are_jump_operands(
            insns[0],
            insns[1],
            insns[2],
            insns[3],
            insns[0].detail->0.operands[1]->Imm_0,
            insns[1].detail->0.operands[1]->Mem_2,
        ),
{
    lemma_jump(insns, 0, page, distance);
}

proof fn lemma_jump(insns: Seq<InstructionView>, from: int, page: i64, distance: i32)
    requires
        0 <= from,
        insns.len() >= from + 4,
    ensures
        insns[from].mnemonic == Some("adrp"@) && insns[from + 1].mnemonic == Some("ldr"@)
            && insns[from + 2].mnemonic == Some("add"@) && insns[from + 3].mnemonic == Some("br"@)
            && are_jump_operands(
            insns[from],
            insns[from + 1],
            insns[from + 2],
            insns[from + 3],
            page,
            distance,
        ) && page + distance >= 0 ==> plt_jump(insns, from) is Some && plt_jump(insns, from)->0
            == page + distance,
        plt_jump(insns, from) is Some ==> are_jump_operands(
            insns[from],
            insns[from + 1],
            insns[from + 2],
            insns[from + 3],
            insns[from].detail->0.operands[1]->Imm_0,
            insns[from + 1].detail->0.operands[1]->Mem_2,
        ),
{
    opcode::lemma_mnemonics();
    if plt_jump(insns, from) is Some {
        let added = insns[from + 2].detail->0.operands[2]->Imm_0;
        let offset = insns[from + 1].detail->0.operands[1]->Mem_2;
        assert(bytes::wrap64(added as int) == bytes::wrap64(offset as int));
        bytes::law_addresses_wrap_around(added as int);
        bytes::law_addresses_wrap_around(offset as int);
        assert(added == offset);
    }
}

/// The first entry of the `.plt` section saves two registers below the stack, jumps like a stub, and
/// ends with three instructions that do nothing.
pub proof fn law_plt_headers_jump_behind_a_push(
    insns: Seq<InstructionView>,
    page: i64,
    distance: i32,
)
    requires
        insns.len() >= 8,
    ensures
        insns[0].mnemonic == Some("stp"@) && holds_register(insns[0], 0, REG_X16) && holds_register(
            insns[0],
            1,
            REG_X30,
        ) && holds_memory(insns[0], 2, REG_SP, -16) && insns[1].mnemonic == Some("adrp"@)
            && insns[2].mnemonic == Some("ldr"@) && insns[3].mnemonic == Some("add"@)
            && insns[4].mnemonic == Some("br"@) && are_jump_operands(
            insns[1],
            insns[2],
            insns[3],
            insns[4],
            page,
            distance,
        ) && page + distance >= 0 && insns[5].mnemonic == Some("nop"@) && insns[6].mnemonic == Some(
            "nop"@,
        ) && insns[7].mnemonic == Some("nop"@) ==> plt_header(insns) is Some && plt_header(
            insns,
        )->0 == page + distance,
        plt_header(insns) is Some ==> holds_register(insns[0], 0, REG_X16) && holds_register(
            insns[0],
            1,
            REG_X30,
        ) && holds_memory(insns[0], 2, REG_SP, -16) && are_jump_operands(
            insns[1],
            insns[2],
            insns[3],
            insns[4],
            insns[1].detail->0.operands[1]->Imm_0,
            insns[2].detail->0.operands[1]->Mem_2,
        ),
{
    opcode::lemma_mnemonics();
    lemma_jump(insns, 1, page, distance);
}

proof fn lemma_scan(data: Seq<u8>, offset: int, stubs: Seq<u64>, k: int)
    ensures
        ({
            let all = plt_scan(data, offset, stubs);
            let last = offset - 16 * (all.len() - stubs.len());
            &&& all.len() >= stubs.len()
            &&& 0 <= k < stubs.len() ==> all[k] == stubs[k]
            &&& stubs.len() <= k < all.len() ==> offset - 16 * (k - stubs.len()) >= 0 && plt_stub(
                code_at(data, offset - 16 * (k - stubs.len()), 16),
            ) == Some(all[k])
            &&& last < 0 || plt_stub(code_at(data, last, 16)) is None
        }),
    decreases offset + 16,
{
    if offset >= 0 {
        if let Some(target) = plt_stub(code_at(data, offset, 16)) {
            lemma_scan(data, offset - 16, stubs.push(target), k);
        }
    }
}

proof fn lemma_stub_functions(length: int, stubs: Seq<u64>, count: int, k: int)
    requires
        0 <= count <= stubs.len(),
        length <= u64::MAX,
        stub_offset(length, count) >= -16,
    ensures
        0 <= k < count ==> stub_functions(length, stubs, count).contains_key(
            (length - 16 * (k + 1)) as u64,
        ) && stub_functions(length, stubs, count)[(length - 16 * (k + 1)) as u64] == stubs[k],
        forall|a: u64| #[trigger]
            stub_functions(length, stubs, count).contains_key(a) ==> length - 16 * count <= a
                < length,
    decreases count,
{
    if count > 0 {
        lemma_stub_functions(length, stubs, count - 1, k);
        let before = stub_functions(length, stubs, count - 1);
        let all = stub_functions(length, stubs, count);
        assert forall|a: u64| #[trigger] all.contains_key(a) implies length - 16 * count <= a
            < length by {
            if before.contains_key(a) {
            } else {
                assert(a == stub_offset(length, count - 1) as u64);
            }
        }
    }
}

/// The text section is what is behind the module description and before the `.plt` section, which has
/// all the stubs that stand at the end of the segment, one behind the other. Each of them is known with
/// what it jumps through, which is the entry of the `.got.plt` section of the same number behind the
/// first three. What comes first in the `.plt` section jumps through the third.
pub proof fn law_stubs_end_the_segment(
    data: Seq<u8>,
    offset: usize,
    got_plt_start: u64,
    got_plt_end: u64,
    k: int,
)
    requires
        text_section(data, offset, got_plt_start, got_plt_end) is Ok,
        data.len() <= u64::MAX,
    ensures
        ({
            let text = text_section(data, offset, got_plt_start, got_plt_end)->Ok_0;
            let plt = offset + text.section.len();
            let count = (data.len() - plt) / 16 - 2;
            let here = data.len() - 16 * (k + 1);
            &&& text.section_offset == offset
            &&& plt <= data.len()
            &&& (data.len() - plt) % 16 == 0
            &&& text.section == data.subrange(offset as int, plt)
            &&& text.plt_functions.contains_key(plt as u64)
            &&& text.plt_functions[plt as u64] == got_plt_start + 16
            &&& plt_header(code_at(data, plt, 32)) == Some(text.plt_functions[plt as u64])
            &&& plt_stub(code_at(data, plt + 16, 16)) is None
            &&& 0 <= k < count ==> text.plt_functions.contains_key(here as u64)
                && plt_stub(code_at(data, here, 16)) == Some(text.plt_functions[here as u64])
            &&& 0 <= k < count && (count - 1 - k + 3) * 8 + 8 <= got_plt_end - got_plt_start
                ==> text.plt_functions[here as u64] == got_plt_start + (count - 1 - k + 3) * 8
        }),
{
    let stubs = plt_scan(data, data.len() - 16, Seq::empty());
    lemma_scan(data, data.len() - 16, Seq::empty(), k);
    let n = stubs.len() as int;
    let length = data.len() as int;
    lemma_stub_functions(length, stubs, n, k);
    let text = text_section(data, offset, got_plt_start, got_plt_end)->Ok_0;
    let plt = offset + text.section.len();
    assert(plt == length - 32 - 16 * n);
    assert((length - plt) / 16 - 2 == n);
    if 0 <= k < n && (n - 1 - k + 3) * 8 + 8 <= got_plt_end - got_plt_start {
        let first_to_last = stubs.reverse();
        assert(first_to_last[n - 1 - k] == stubs[k]);
        assert(first_to_last[n - 1 - k] == got_plt_start + (n - 1 - k + 3) * 8);
    }
}

/// The code can be told from the `.plt` section exactly if that fits behind it, its stubs jump through
/// the entries of the `.got.plt` section, and its first entry through the third of them.
pub proof fn law_code_ends_before_the_plt(
    data: Seq<u8>,
    offset: usize,
    got_plt_start: u64,
    got_plt_end: u64,
    stubs: Seq<u64>,
    header: Option<u64>,
)
    ensures
        ({
            let r = text_before_plt(data, offset, got_plt_start, got_plt_end, stubs, header);
            let n = stubs.len();
            let slots = (got_plt_end - got_plt_start) / 8 - 3;
            let through = slots <= n && forall|i: int|
                0 <= i < slots ==> #[trigger] stubs[n - 1 - i] == got_plt_start + 8 * (i + 3);
            let first = header is Some && header->Some_0 == got_plt_start + 16;
            &&& r is Ok <==> data.len() >= offset + 32 + 16 * n && through && first
            &&& data.len() < 16 + 16 * n ==> r == Err::<TextView, Error>(Error::OutOfBounds)
            &&& data.len() >= 16 + 16 * n && !through ==> r == Err::<TextView, Error>(
                Error::PltTargetMismatch,
            )
            &&& data.len() >= 16 + 16 * n && data.len() < 32 + 16 * n && through ==> r == Err::<
                TextView,
                Error,
            >(Error::OutOfBounds)
            &&& data.len() >= 32 + 16 * n && through && !first ==> r == Err::<TextView, Error>(
                Error::BadPltHeader,
            )
            &&& data.len() >= 32 + 16 * n && through && first && data.len() < offset + 32 + 16 * n
                ==> r == Err::<TextView, Error>(Error::OutOfBounds)
        }),
{
    let n = stubs.len();
    let slots = (got_plt_end - got_plt_start) / 8 - 3;
    let first_to_last = stubs.reverse();
    assert forall|i: int| 0 <= i < n implies #[trigger] first_to_last[i] == stubs[n - 1 - i] by {}
    if targets_match(stubs, got_plt_start, got_plt_end) {
        assert forall|i: int| 0 <= i < slots implies #[trigger] stubs[n - 1 - i] == got_plt_start
            + 8 * (i + 3) by {
            assert(first_to_last[i] == got_plt_start + (i + 3) * 8);
        }
    }
    if slots <= n && forall|i: int|
        0 <= i < slots ==> #[trigger] stubs[n - 1 - i] == got_plt_start + 8 * (i + 3) {
        assert forall|i: int| 0 <= i < slots implies #[trigger] first_to_last[i] == got_plt_start
            + (i + 3) * 8 by {
            assert(stubs[n - 1 - i] == got_plt_start + 8 * (i + 3));
        }
    }
}

} // verus!
