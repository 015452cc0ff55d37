//! Code as assembly.

use std::ops::Range;

use vstd::prelude::*;
use vstd::slice::*;

use crate::error::Error;
use crate::file_list::{self, Info, Object};
use crate::fmt::{self, format_decimal, format_hex};
use crate::lines::{
    self, put_bytes, put_global_label, put_line, put_line_of_four, put_line_of_three,
    put_line_of_two,
};
use crate::nso::blocks;
use crate::nso::data::{ExportView, Exporter};
use crate::nso::disasm::{self, disassemble, Detail, DetailView, Instruction, InstructionView};
use crate::nso::lookup::{self, LookupView, NsoLookupHelper};
use crate::nso::nso::{NsoView, NSO};
use crate::nso::opcode::{
    self, get_operand_base_name, get_operand_imm, get_operand_reg_name, get_reg_type, opcode_of,
    Opcode,
};
use crate::nso::text::{TextSection, TextView};
use crate::reference_tracker::{DataRefType, References};

verus! {

/// The name of what the instruction at an address refers to.
pub open spec fn target_name(e: ExportView, address: u64) -> Result<Seq<char>, Error> {
    if e.refs.sources.contains_key(address) {
        e.name(e.refs.sources[address].1)
    } else {
        Err(Error::NoReference { address })
    }
}

/// The first of two results that failed, or both values.
pub open spec fn both<A, B>(a: Result<A, Error>, b: Result<B, Error>) -> Result<(A, B), Error> {
    match (a, b) {
        (Err(e), _) => Err(e),
        (Ok(_), Err(e)) => Err(e),
        (Ok(x), Ok(y)) => Ok((x, y)),
    }
}

/// An instruction as the disassembler writes it.
pub open spec fn plain_instruction(i: InstructionView, mnemonic: Seq<char>, text: Seq<char>) -> Result<
    Seq<char>,
    Error,
> {
    match i.op_str {
        Some(operands) => Ok(lines::line_of_four(text, "\t"@, mnemonic, " "@, operands)),
        None => Err(Error::NoOperands { address: i.address }),
    }
}

/// The bytes of an instruction that is told from data by nothing else.
pub open spec fn is_trap(code: Seq<u8>) -> bool {
    code == seq![0xFEu8, 0xDEu8, 0xFFu8, 0xE7u8]
}

/// Data between the instructions.
pub open spec fn data_bytes(i: InstructionView, text: Seq<char>) -> Seq<char> {
    let start = if is_trap(i.bytes) {
        lines::line(text, "\t// TRAP instruction"@)
    } else {
        text
    };
    lines::byte_lines(start, i.bytes, 0)
}

/// A `mov` whose code is that of an `orr` with the zero register.
pub open spec fn mov_as_orr(i: InstructionView, detail: DetailView) -> Option<Seq<char>> {
    if i.bytes.len() < 4 || i.bytes[3] & 0x7F != 0x32 || i.bytes[2] & 0x80 != 0 {
        None
    } else {
        match (
            opcode::operand_reg_name(detail, 0),
            opcode::operand_imm(detail, 1),
            opcode::operand_reg_type(detail, 0),
        ) {
            (Ok(name), Ok(imm), Ok(DataRefType::Int32)) => Some(
                "orr "@ + name + ", wzr, #0x"@ + fmt::hex(imm as nat),
            ),
            (Ok(name), Ok(imm), Ok(DataRefType::Int64)) => Some(
                "orr "@ + name + ", xzr, #0x"@ + fmt::hex(imm as nat),
            ),
            _ => None,
        }
    }
}

/// A branch, call or page address with the name of its target.
pub open spec fn known_instruction(
    e: ExportView,
    i: InstructionView,
    mnemonic: Seq<char>,
    op: Opcode,
    detail: DetailView,
    text: Seq<char>,
) -> Result<Seq<char>, Error> {
    let target = target_name(e, i.address);
    if op == Opcode::Bl || op == Opcode::B || op == Opcode::ConditionalBranch {
        match target {
            Err(error) => Err(error),
            Ok(name) => Ok(text + "\t"@ + mnemonic + " "@ + name + "\n"@),
        }
    } else if op == Opcode::TestBranch {
        match both(
            both(opcode::operand_reg_name(detail, 0), opcode::operand_imm(detail, 1)),
            target,
        ) {
            Err(error) => Err(error),
            Ok(((reg, bit), name)) => Ok(
                text + "\t"@ + mnemonic + " "@ + reg + ", #"@ + fmt::decimal(bit as int) + ", "@
                    + name + "\n"@,
            ),
        }
    } else {
        match both(opcode::operand_reg_name(detail, 0), target) {
            Err(error) => Err(error),
            Ok((reg, name)) => Ok(
                text + "\t"@ + mnemonic + " "@ + reg + ", "@ + name + "\n"@,
            ),
        }
    }
}

/// An `add` of a page offset with the name of what is there.
pub open spec fn add_instruction(
    e: ExportView,
    i: InstructionView,
    mnemonic: Seq<char>,
    detail: DetailView,
    text: Seq<char>,
) -> Result<Seq<char>, Error> {
    if opcode::operand_imm(detail, 2) is Ok && e.refs.sources.contains_key(i.address) {
        match both(
            both(opcode::operand_reg_name(detail, 0), opcode::operand_reg_name(detail, 1)),
            target_name(e, i.address),
        ) {
            Err(error) => Err(error),
            Ok(((to, from), name)) => Ok(
                text + "\t"@ + mnemonic + " "@ + to + ", "@ + from + ", :lo12:"@ + name + "\n"@,
            ),
        }
    } else {
        plain_instruction(i, mnemonic, text)
    }
}

/// The name of the base register of the memory operand at `idx`.
pub open spec fn base_name(detail: DetailView, idx: int) -> Result<Seq<char>, Error> {
    match opcode::operand_mem(detail, idx) {
        Err(error) => Err(error),
        Ok((_, None, _)) => Err(Error::UnnamedRegister),
        Ok((_, Some(name), _)) => Ok(name),
    }
}

/// A load or store with the name of what is there.
pub open spec fn access_instruction(
    e: ExportView,
    i: InstructionView,
    mnemonic: Seq<char>,
    detail: DetailView,
    text: Seq<char>,
) -> Result<Seq<char>, Error> {
    match base_name(detail, 1) {
        Err(error) => Err(error),
        Ok(base) => if e.refs.sources.contains_key(i.address) {
            match both(opcode::operand_reg_name(detail, 0), target_name(e, i.address)) {
                Err(error) => Err(error),
                Ok((reg, name)) => Ok(
                    text + "\t"@ + mnemonic + " "@ + reg + ", ["@ + base + ", :lo12:"@ + name
                        + "]\n"@,
                ),
            }
        } else {
            plain_instruction(i, mnemonic, text)
        },
    }
}

/// `text` with an instruction. What it refers to is written by name.
pub open spec fn instruction_text(e: ExportView, i: InstructionView, text: Seq<char>) -> Result<
    Seq<char>,
    Error,
> {
    match i.mnemonic {
        None => Err(Error::NoMnemonic { address: i.address }),
        Some(mnemonic) => {
            let op = opcode::opcode(mnemonic);
            if op == Opcode::Byte {
                Ok(data_bytes(i, text))
            } else {
                match i.detail {
                    None => Err(Error::NoDetail { address: i.address }),
                    Some(detail) => match op {
                        Opcode::Bl
                        | Opcode::B
                        | Opcode::ConditionalBranch
                        | Opcode::TestBranch
                        | Opcode::CompareBranch
                        | Opcode::Adrp => known_instruction(e, i, mnemonic, op, detail, text),
                        Opcode::Adr => Err(Error::UnhandledAdr { address: i.address }),
                        Opcode::Add => add_instruction(e, i, mnemonic, detail, text),
                        Opcode::Ldr
                        | Opcode::Str
                        | Opcode::HalfAccess
                        | Opcode::ByteAccess => access_instruction(e, i, mnemonic, detail, text),
                        Opcode::Mov => match mov_as_orr(i, detail) {
                            Some(mapped) => Ok(lines::line_of_two(text, "\t"@, mapped)),
                            None => plain_instruction(i, mnemonic, text),
                        },
                        _ => plain_instruction(i, mnemonic, text),
                    },
                }
            }
        },
    }
}

/// `text` with the address in a comment and a label that other files may use.
pub open spec fn address_label(e: ExportView, address: u64, text: Seq<char>) -> Result<
    Seq<char>,
    Error,
> {
    match e.name(address) {
        Err(error) => Err(error),
        Ok(name) => Ok(
            lines::global_label(
                lines::line_of_three(text, "# 0x"@, fmt::hex(address as nat), ":"@),
                name,
            ),
        ),
    }
}

/// `text` with the instructions from `from` on. All that something refers to is labelled.
pub open spec fn code_lines(
    e: ExportView,
    insns: Seq<InstructionView>,
    from: int,
    text: Seq<char>,
) -> Result<Seq<char>, Error>
    decreases insns.len() - from,
{
    if from < 0 || from >= insns.len() {
        Ok(text)
    } else {
        let labelled = if e.refs.types.contains_key(insns[from].address) {
            address_label(e, insns[from].address, text)
        } else {
            Ok(text)
        };
        match labelled {
            Err(error) => Err(error),
            Ok(start) => match instruction_text(e, insns[from], start) {
                Err(error) => Err(error),
                Ok(next) => code_lines(e, insns, from + 1, next),
            },
        }
    }
}

/// The label of an instruction of an object. Only functions get one that other files may use.
pub open spec fn object_label(
    e: ExportView,
    infos: Seq<Info>,
    address: u64,
    text: Seq<char>,
) -> Result<Seq<char>, Error> {
    if file_list::starts_function(infos, address) {
        address_label(e, address, text)
    } else if e.refs.types.contains_key(address) {
        match e.name(address) {
            Err(error) => Err(error),
            Ok(name) => Ok(lines::line_of_two(text, name, ":"@)),
        }
    } else {
        Ok(text)
    }
}

/// `text` with the instructions of an object from `from` on.
pub open spec fn object_lines(
    e: ExportView,
    infos: Seq<Info>,
    insns: Seq<InstructionView>,
    from: int,
    text: Seq<char>,
) -> Result<Seq<char>, Error>
    decreases insns.len() - from,
{
    if from < 0 || from >= insns.len() {
        Ok(text)
    } else {
        match object_label(e, infos, insns[from].address, text) {
            Err(error) => Err(error),
            Ok(start) => match instruction_text(e, insns[from], start) {
                Err(error) => Err(error),
                Ok(next) => object_lines(e, infos, insns, from + 1, next),
            },
        }
    }
}

impl<'a> Exporter<'a> {
    fn get_target_name(&self, address: u64) -> (r: Result<String, Error>)
        requires
            self@.wf(),
        ensures
            match r {
                Ok(name) => target_name(self@, address) == Ok::<Seq<char>, Error>(name@),
                Err(error) => target_name(self@, address) == Err::<Seq<char>, Error>(error),
            },
    {
        match self.references.get_target_address(address) {
            Some(target) => self.nso.get_any_symbol(target, self.helper),
            None => Err(Error::NoReference { address }),
        }
    }

    fn put_plain(out: &mut String, i: &Instruction, mnemonic: &str) -> (r: Result<(), Error>)
        ensures
            match r {
                Ok(()) => plain_instruction(i@, mnemonic@, old(out)@) == Ok::<Seq<char>, Error>(
                    final(out)@,
                ),
                Err(error) => plain_instruction(i@, mnemonic@, old(out)@) == Err::<
                    Seq<char>,
                    Error,
                >(error) && final(out)@ == old(out)@,
            },
    {
        match &i.op_str {
            Some(operands) => {
                put_line_of_four(out, "\t", mnemonic, " ", operands.as_str());
                Ok(())
            },
            None => Err(Error::NoOperands { address: i.address }),
        }
    }

    fn put_data(out: &mut String, i: &Instruction)
        ensures
            final(out)@ == data_bytes(i@, old(out)@),
    {
        if i.bytes.len() == 4 && i.bytes[0] == 0xFE && i.bytes[1] == 0xDE && i.bytes[2] == 0xFF
            && i.bytes[3] == 0xE7 {
            assert(i.bytes@ =~= seq![0xFEu8, 0xDEu8, 0xFFu8, 0xE7u8]);
            put_line(out, "\t// TRAP instruction");
        }
        put_bytes(out, i.bytes.as_slice());
    }

    fn map_mov(i: &Instruction, detail: &Detail) -> (r: Option<String>)
        ensures
            match r {
                Some(text) => mov_as_orr(i@, detail@) == Some(text@),
                None => mov_as_orr(i@, detail@) is None,
            },
    {
        if i.bytes.len() < 4 || i.bytes[3] & 0x7F != 0x32 || i.bytes[2] & 0x80 != 0 {
            return None;
        }
        let name = match get_operand_reg_name(detail, 0) {
            Ok(name) => name,
            Err(_) => {
                return None;
            },
        };
        let imm: u64 = match get_operand_imm(detail, 1) {
            Ok(imm) => imm,
            Err(_) => {
                return None;
            },
        };
        let mut text = String::from_str("orr ");
        text.append(name.as_str());
        match get_reg_type(detail, 0) {
            Ok(DataRefType::Int32) => {
                text.append(", wzr, #0x");
            },
            Ok(DataRefType::Int64) => {
                text.append(", xzr, #0x");
            },
            _ => {
                return None;
            },
        }
        text.append(format_hex(imm).as_str());
        Some(text)
    }

    fn put_known(
        &self,
        out: &mut String,
        i: &Instruction,
        mnemonic: &str,
        op: Opcode,
        detail: &Detail,
    ) -> (r: Result<(), Error>)
        requires
            self@.wf(),
        ensures
            match r {
                Ok(()) => known_instruction(self@, i@, mnemonic@, op, detail@, old(out)@) == Ok::<
                    Seq<char>,
                    Error,
                >(final(out)@),
                Err(error) => known_instruction(self@, i@, mnemonic@, op, detail@, old(out)@)
                    == Err::<Seq<char>, Error>(error) && final(out)@ == old(out)@,
            },
    {
        if op == Opcode::Bl || op == Opcode::B || op == Opcode::ConditionalBranch {
            let name = self.get_target_name(i.address)?;
            out.append("\t");
            out.append(mnemonic);
            out.append(" ");
            out.append(name.as_str());
            out.append("\n");
        } else if op == Opcode::TestBranch {
            let reg = get_operand_reg_name(detail, 0)?;
            let bit: u64 = get_operand_imm(detail, 1)?;
            let name = self.get_target_name(i.address)?;
            out.append("\t");
            out.append(mnemonic);
            out.append(" ");
            out.append(reg.as_str());
            out.append(", #");
            out.append(format_decimal(bit).as_str());
            out.append(", ");
            out.append(name.as_str());
            out.append("\n");
        } else {
            let reg = get_operand_reg_name(detail, 0)?;
            let name = self.get_target_name(i.address)?;
            out.append("\t");
            out.append(mnemonic);
            out.append(" ");
            out.append(reg.as_str());
            out.append(", ");
            out.append(name.as_str());
            out.append("\n");
        }
        Ok(())
    }

    fn put_add(&self, out: &mut String, i: &Instruction, mnemonic: &str, detail: &Detail) -> (r:
        Result<(), Error>)
        requires
            self@.wf(),
        ensures
            match r {
                Ok(()) => add_instruction(self@, i@, mnemonic@, detail@, old(out)@) == Ok::<
                    Seq<char>,
                    Error,
                >(final(out)@),
                Err(error) => add_instruction(self@, i@, mnemonic@, detail@, old(out)@) == Err::<
                    Seq<char>,
                    Error,
                >(error) && final(out)@ == old(out)@,
            },
    {
        let is_offset = match get_operand_imm(detail, 2) {
            Ok(_) => true,
            Err(_) => false,
        };
        let is_known = match self.references.get_target_address(i.address) {
            Some(_) => true,
            None => false,
        };
        if !is_offset || !is_known {
            return Self::put_plain(out, i, mnemonic);
        }
        let to = get_operand_reg_name(detail, 0)?;
        let from = get_operand_reg_name(detail, 1)?;
        let name = self.get_target_name(i.address)?;
        out.append("\t");
        out.append(mnemonic);
        out.append(" ");
        out.append(to.as_str());
        out.append(", ");
        out.append(from.as_str());
        out.append(", :lo12:");
        out.append(name.as_str());
        out.append("\n");
        Ok(())
    }

    fn put_access(&self, out: &mut String, i: &Instruction, mnemonic: &str, detail: &Detail) -> (r:
        Result<(), Error>)
        requires
            self@.wf(),
        ensures
            match r {
                Ok(()) => access_instruction(self@, i@, mnemonic@, detail@, old(out)@) == Ok::<
                    Seq<char>,
                    Error,
                >(final(out)@),
                Err(error) => access_instruction(self@, i@, mnemonic@, detail@, old(out)@)
                    == Err::<Seq<char>, Error>(error) && final(out)@ == old(out)@,
            },
    {
        let base = get_operand_base_name(detail, 1)?;
        let is_known = match self.references.get_target_address(i.address) {
            Some(_) => true,
            None => false,
        };
        if !is_known {
            return Self::put_plain(out, i, mnemonic);
        }
        let reg = get_operand_reg_name(detail, 0)?;
        let name = self.get_target_name(i.address)?;
        out.append("\t");
        out.append(mnemonic);
        out.append(" ");
        out.append(reg.as_str());
        out.append(", [");
        out.append(base.as_str());
        out.append(", :lo12:");
        out.append(name.as_str());
        out.append("]\n");
        Ok(())
    }

    /// Writes an instruction. What it refers to is written by name. Where that cannot be done, nothing
    /// is written.
    pub fn disassemble_instruction(&self, out: &mut String, i: &Instruction) -> (r: Result<
        (),
        Error,
    >)
        requires
            self@.wf(),
        ensures
            match r {
                Ok(()) => instruction_text(self@, i@, old(out)@) == Ok::<Seq<char>, Error>(
                    final(out)@,
                ),
                Err(error) => instruction_text(self@, i@, old(out)@) == Err::<Seq<char>, Error>(
                    error,
                ) && final(out)@ == old(out)@,
            },
    {
        let mnemonic: &str = match &i.mnemonic {
            Some(mnemonic) => mnemonic.as_str(),
            None => {
                return Err(Error::NoMnemonic { address: i.address });
            },
        };
        let op: Opcode = opcode_of(mnemonic);
        if op == Opcode::Byte {
            Self::put_data(out, i);
            return Ok(());
        }
        let detail: &Detail = match &i.detail {
            Some(detail) => detail,
            None => {
                return Err(Error::NoDetail { address: i.address });
            },
        };
        match op {
            Opcode::Bl
            | Opcode::B
            | Opcode::ConditionalBranch
            | Opcode::TestBranch
            | Opcode::CompareBranch
            | Opcode::Adrp => self.put_known(out, i, mnemonic, op, detail),
            Opcode::Adr => Err(Error::UnhandledAdr { address: i.address }),
            Opcode::Add => self.put_add(out, i, mnemonic, detail),
            Opcode::Ldr
            | Opcode::Str
            | Opcode::HalfAccess
            | Opcode::ByteAccess => self.put_access(out, i, mnemonic, detail),
            Opcode::Mov => match Self::map_mov(i, detail) {
                Some(mapped) => {
                    put_line_of_two(out, "\t", mapped.as_str());
                    Ok(())
                },
                None => Self::put_plain(out, i, mnemonic),
            },
            _ => Self::put_plain(out, i, mnemonic),
        }
    }

    fn put_address_label(&self, out: &mut String, address: u64) -> (r: Result<(), Error>)
        requires
            self@.wf(),
        ensures
            match r {
                Ok(()) => address_label(self@, address, old(out)@) == Ok::<Seq<char>, Error>(
                    final(out)@,
                ),
                Err(error) => address_label(self@, address, old(out)@) == Err::<Seq<char>, Error>(
                    error,
                ),
            },
    {
        let name = self.nso.get_any_symbol(address, self.helper)?;
        let digits = format_hex(address);
        put_line_of_three(out, "# 0x", digits.as_str(), ":");
        put_global_label(out, name.as_str());
        Ok(())
    }

    /// Writes instructions. All that something refers to is labelled.
    pub fn export_instructions(&self, insns: &Vec<Instruction>) -> (r: Result<String, Error>)
        requires
            self@.wf(),
        ensures
            ({
                let wanted = code_lines(self@, disasm::instruction_views(insns@), 0, ""@);
                match r {
                    Ok(text) => wanted == Ok::<Seq<char>, Error>(text@),
                    Err(error) => wanted == Err::<Seq<char>, Error>(error),
                }
            }),
    {
        let ghost views = disasm::instruction_views(insns@);
        let mut out = String::from_str("");
        let mut k: usize = 0;
        while k < insns.len()
            invariant
                k <= insns@.len(),
                self@.wf(),
                views == disasm::instruction_views(insns@),
                code_lines(self@, views, 0, ""@) == code_lines(self@, views, k as int, out@),
            decreases insns@.len() - k,
        {
            assert(views[k as int] == insns@[k as int]@);
            let address: u64 = insns[k].address;
            if self.references.has_references_to(address) {
                self.put_address_label(&mut out, address)?;
            }
            self.disassemble_instruction(&mut out, &insns[k])?;
            k = k + 1;
        }
        Ok(out)
    }

    fn put_object_label(&self, out: &mut String, obj: &Object, address: u64) -> (r: Result<
        (),
        Error,
    >)
        requires
            self@.wf(),
        ensures
            match r {
                Ok(()) => object_label(self@, obj.text_section@, address, old(out)@) == Ok::<
                    Seq<char>,
                    Error,
                >(final(out)@),
                Err(error) => object_label(self@, obj.text_section@, address, old(out)@) == Err::<
                    Seq<char>,
                    Error,
                >(error),
            },
    {
        if obj.has_function_at(address) {
            self.put_address_label(out, address)
        } else {
            if self.references.has_references_to(address) {
                let name = self.nso.get_any_symbol(address, self.helper)?;
                put_line_of_two(out, name.as_str(), ":");
            }
            Ok(())
        }
    }

    /// Writes the instructions of an object.
    pub fn export_object_instructions(&self, obj: &Object, insns: &Vec<Instruction>) -> (r: Result<
        String,
        Error,
    >)
        requires
            self@.wf(),
        ensures
            ({
                let wanted = object_lines(
                    self@,
                    obj.text_section@,
                    disasm::instruction_views(insns@),
                    0,
                    ""@,
                );
                match r {
                    Ok(text) => wanted == Ok::<Seq<char>, Error>(text@),
                    Err(error) => wanted == Err::<Seq<char>, Error>(error),
                }
            }),
    {
        let ghost views = disasm::instruction_views(insns@);
        let ghost infos = obj.text_section@;
        let mut out = String::from_str("");
        let mut k: usize = 0;
        while k < insns.len()
            invariant
                k <= insns@.len(),
                self@.wf(),
                infos == obj.text_section@,
                views == disasm::instruction_views(insns@),
                object_lines(self@, infos, views, 0, ""@) == object_lines(
                    self@,
                    infos,
                    views,
                    k as int,
                    out@,
                ),
            decreases insns@.len() - k,
        {
            assert(views[k as int] == insns@[k as int]@);
            self.put_object_label(&mut out, obj, insns[k].address)?;
            self.disassemble_instruction(&mut out, &insns[k])?;
            k = k + 1;
        }
        Ok(out)
    }
}

fn put_stub_label(out: &mut String, address: u64, helper: &NsoLookupHelper, parent: &NSO) -> (r:
    Result<(), Error>)
    requires
        helper@.fits(parent@.symbols.len()),
    ensures
        match r {
            Ok(()) => lookup::any_name(parent@, helper@, address) matches Ok(name) && final(out)@
                == lines::global_label(old(out)@, name),
            Err(error) => lookup::any_name(parent@, helper@, address) == Err::<Seq<char>, Error>(
                error,
            ),
        },
{
    let name = parent.get_any_symbol(address, helper)?;
    put_global_label(out, name.as_str());
    Ok(())
}

fn put_stub_jump(out: &mut String, target: u64, helper: &NsoLookupHelper, parent: &NSO) -> (r:
    Result<(), Error>)
    requires
        helper@.fits(parent@.symbols.len()),
    ensures
        match r {
            Ok(()) => lookup::any_name(parent@, helper@, target) matches Ok(name) && final(out)@
                == stub_jump(name, old(out)@),
            Err(error) => lookup::any_name(parent@, helper@, target) == Err::<Seq<char>, Error>(
                error,
            ),
        },
{
    let name = parent.get_any_symbol(target, helper)?;
    put_line_of_two(out, "\tadrp x16, ", name.as_str());
    put_line_of_three(out, "\tldr x17, [x16, :lo12:", name.as_str(), "]");
    put_line_of_two(out, "\tadd x16, x16, :lo12:", name.as_str());
    put_line(out, "\tbr x17");
    Ok(())
}

/// `text` with a jump through the `.got.plt` entry of this name.
pub open spec fn stub_jump(name: Seq<char>, text: Seq<char>) -> Seq<char> {
    let a = lines::line_of_two(text, "\tadrp x16, "@, name);
    let b = lines::line_of_three(a, "\tldr x17, [x16, :lo12:"@, name, "]"@);
    let c = lines::line_of_two(b, "\tadd x16, x16, :lo12:"@, name);
    lines::line(c, "\tbr x17"@)
}

/// `text` with the stub at `address`, which jumps through `target`.
pub open spec fn stub(
    nso: NsoView,
    lookup: LookupView,
    address: int,
    target: int,
    text: Seq<char>,
) -> Result<Seq<char>, Error> {
    if address > u64::MAX || target > u64::MAX {
        Err(Error::Overflow)
    } else {
        match both(
            lookup::any_name(nso, lookup, address as u64),
            lookup::any_name(nso, lookup, target as u64),
        ) {
            Err(error) => Err(error),
            Ok((name, target_name)) => Ok(
                stub_jump(
                    target_name,
                    lines::global_label(lines::line(text, ""@), name),
                ),
            ),
        }
    }
}

/// `text` with `count` stubs of sixteen bytes. Each jumps through an entry of its own.
pub open spec fn stubs(
    nso: NsoView,
    lookup: LookupView,
    address: int,
    target: int,
    count: int,
    text: Seq<char>,
) -> Result<Seq<char>, Error>
    decreases count,
{
    if count <= 0 {
        Ok(text)
    } else {
        match stub(nso, lookup, address, target, text) {
            Err(error) => Err(error),
            Ok(next) => stubs(nso, lookup, address + 16, target + 8, count - 1, next),
        }
    }
}

/// The start of the `.plt` section, which resolves functions at their first call.
pub open spec fn plt_start(name: Seq<char>, target_name: Seq<char>) -> Seq<char> {
    let a = lines::line(""@, ".section \".plt\""@);
    let b = lines::line(lines::global_label(a, name), "\tstp x16, x30, [sp, #-0x10]!"@);
    let c = stub_jump(target_name, b);
    lines::line(lines::line(lines::line(c, "\tnop"@), "\tnop"@), "\tnop"@)
}

/// The `.plt` section, which lies behind the code.
pub open spec fn plt_text(
    nso: NsoView,
    lookup: LookupView,
    t: TextView,
    got_plt: (u64, u64),
) -> Result<Seq<char>, Error> {
    let address = t.section_offset + t.section.len();
    let target = got_plt.0 + 0x10;
    if address > u64::MAX || target > u64::MAX || got_plt.1 < got_plt.0 {
        Err(Error::Overflow)
    } else {
        match both(
            lookup::any_name(nso, lookup, address as u64),
            lookup::any_name(nso, lookup, target as u64),
        ) {
            Err(error) => Err(error),
            Ok((name, target_name)) => stubs(
                nso,
                lookup,
                address + 32,
                target + 8,
                (got_plt.1 - got_plt.0) / 8 - 3,
                plt_start(name, target_name),
            ),
        }
    }
}

/// The `.text` section.
pub open spec fn code_text(e: ExportView, t: TextView) -> Result<Seq<char>, Error> {
    code_lines(e, disasm::disassembly(t.section, t.section_offset as u64), 0, ""@)
}

/// The code of an object.
pub open spec fn object_code(t: TextView, infos: Seq<Info>) -> Result<(Seq<u8>, u64), Error> {
    match file_list::text_bounds(infos) {
        Err(error) => Err(error),
        Ok((start, end)) => if start < t.section_offset || end < start || end - t.section_offset
            > t.section.len() {
            Err(Error::OutOfBounds)
        } else {
            Ok(
                (
                    t.section.subrange(start - t.section_offset, end - t.section_offset),
                    start as u64,
                ),
            )
        },
    }
}

/// The `.text` section of an object.
pub open spec fn object_text(e: ExportView, t: TextView, infos: Seq<Info>) -> Result<
    Seq<char>,
    Error,
> {
    match object_code(t, infos) {
        Err(error) => Err(error),
        Ok((code, start)) => object_lines(e, infos, disasm::disassembly(code, start), 0, ""@),
    }
}

impl TextSection {
    /// Writes the `.plt` section.
    pub fn export_plt(
        &self,
        got_plt: &Range<u64>,
        helper: &NsoLookupHelper,
        parent: &NSO,
    ) -> (r: Result<String, Error>)
        requires
            helper@.fits(parent@.symbols.len()),
        ensures
            ({
                let wanted = plt_text(parent@, helper@, self@, (got_plt.start, got_plt.end));
                match r {
                    Ok(text) => wanted == Ok::<Seq<char>, Error>(text@),
                    Err(error) => wanted == Err::<Seq<char>, Error>(error),
                }
            }),
    {
        let offset: u64 = self.section_offset as u64;
        let length: u64 = self.section.len() as u64;
        if length > u64::MAX - offset || got_plt.start > u64::MAX - 0x10 || got_plt.end
            < got_plt.start {
            return Err(Error::Overflow);
        }
        let mut address: u128 = offset as u128 + length as u128;
        let mut target: u128 = got_plt.start as u128 + 0x10;
        let mut out = String::from_str("");
        put_line(&mut out, ".section \".plt\"");
        put_stub_label(&mut out, address as u64, helper, parent)?;
        put_line(&mut out, "\tstp x16, x30, [sp, #-0x10]!");
        put_stub_jump(&mut out, target as u64, helper, parent)?;
        put_line(&mut out, "\tnop");
        put_line(&mut out, "\tnop");
        put_line(&mut out, "\tnop");
        address = address + 32;
        target = target + 8;
        let entries: u64 = (got_plt.end - got_plt.start) / 8;
        let mut i: u64 = 3;
        while i < entries
            invariant
                3 <= i,
                i <= entries || entries < 3,
                address <= u64::MAX + 32 + 16 * (i - 3),
                target <= u64::MAX + 24 + 8 * (i - 3),
                helper@.fits(parent@.symbols.len()),
                plt_text(parent@, helper@, self@, (got_plt.start, got_plt.end)) == stubs(
                    parent@,
                    helper@,
                    address as int,
                    target as int,
                    entries - i,
                    out@,
                ),
            decreases entries - i,
        {
            if address > u64::MAX as u128 || target > u64::MAX as u128 {
                return Err(Error::Overflow);
            }
            put_line(&mut out, "");
            put_stub_label(&mut out, address as u64, helper, parent)?;
            put_stub_jump(&mut out, target as u64, helper, parent)?;
            address = address + 16;
            target = target + 8;
            i = i + 1;
        }
        Ok(out)
    }

    /// Writes the `.text` section.
    pub fn export_asm(&self, references: &References, helper: &NsoLookupHelper, parent: &NSO) -> (r:
        Result<String, Error>)
        requires
            helper@.fits(parent@.symbols.len()),
        ensures
            ({
                let e = ExportView { nso: parent@, lookup: helper@, refs: references@ };
                match r {
                    Ok(text) => code_text(e, self@) == Ok::<Seq<char>, Error>(text@),
                    Err(error) => error == Error::Disassembler || code_text(e, self@) == Err::<
                        Seq<char>,
                        Error,
                    >(error),
                }
            }),
    {
        let insns = disassemble(self.section.as_slice(), self.section_offset as u64)?;
        let exporter = Exporter { nso: parent, helper, references };
        exporter.export_instructions(&insns)
    }

    /// Writes the code of an object.
    pub fn export_object_asm(
        &self,
        obj: &Object,
        references: &References,
        helper: &NsoLookupHelper,
        parent: &NSO,
    ) -> (r: Result<String, Error>)
        requires
            helper@.fits(parent@.symbols.len()),
        ensures
            ({
                let e = ExportView { nso: parent@, lookup: helper@, refs: references@ };
                let wanted = object_text(e, self@, obj.text_section@);
                match r {
                    Ok(text) => wanted == Ok::<Seq<char>, Error>(text@),
                    Err(error) => (error == Error::Disassembler && object_code(
                        self@,
                        obj.text_section@,
                    ) is Ok) || wanted == Err::<Seq<char>, Error>(error),
                }
            }),
    {
        let (start, end): (u32, u32) = obj.get_text_bounds()?;
        let offset: u64 = self.section_offset as u64;
        let length: u64 = self.section.len() as u64;
        if (start as u64) < offset || end < start || end as u64 - offset > length {
            return Err(Error::OutOfBounds);
        }
        let code: &[u8] = slice_subrange(
            self.section.as_slice(),
            (start as u64 - offset) as usize,
            (end as u64 - offset) as usize,
        );
        let insns = disassemble(code, start as u64)?;
        let exporter = Exporter { nso: parent, helper, references };
        exporter.export_object_instructions(obj, &insns)
    }
}

proof fn lemma_plain_goes_on(i: InstructionView, mnemonic: Seq<char>, text: Seq<char>)
    ensures
        plain_instruction(i, mnemonic, text) matches Ok(next) ==> lines::goes_on(text, next),
{
    if let Some(operands) = i.op_str {
        lines::lemma_line_of_four_goes_on(text, "\t"@, mnemonic, " "@, operands);
    }
}

proof fn lemma_known_goes_on(
    e: ExportView,
    i: InstructionView,
    mnemonic: Seq<char>,
    op: Opcode,
    detail: DetailView,
    text: Seq<char>,
)
    ensures
        known_instruction(e, i, mnemonic, op, detail, text) matches Ok(next) ==> lines::goes_on(
            text,
            next,
        ),
{
    if let Ok(next) = known_instruction(e, i, mnemonic, op, detail, text) {
        assert(next.take(text.len() as int) =~= text);
    }
}

proof fn lemma_add_instruction_goes_on(
    e: ExportView,
    i: InstructionView,
    mnemonic: Seq<char>,
    detail: DetailView,
    text: Seq<char>,
)
    ensures
        add_instruction(e, i, mnemonic, detail, text) matches Ok(next) ==> lines::goes_on(
            text,
            next,
        ),
{
    lemma_plain_goes_on(i, mnemonic, text);
    if let Ok(next) = add_instruction(e, i, mnemonic, detail, text) {
        assert(next.take(text.len() as int) =~= text);
    }
}

proof fn lemma_access_goes_on(
    e: ExportView,
    i: InstructionView,
    mnemonic: Seq<char>,
    detail: DetailView,
    text: Seq<char>,
)
    ensures
        access_instruction(e, i, mnemonic, detail, text) matches Ok(next) ==> lines::goes_on(
            text,
            next,
        ),
{
    lemma_plain_goes_on(i, mnemonic, text);
    if let Ok(next) = access_instruction(e, i, mnemonic, detail, text) {
        assert(next.take(text.len() as int) =~= text);
    }
}

proof fn lemma_data_goes_on(i: InstructionView, text: Seq<char>)
    ensures
        lines::goes_on(text, data_bytes(i, text)),
{
    let start = if is_trap(i.bytes) {
        lines::line(text, "\t// TRAP instruction"@)
    } else {
        text
    };
    lines::lemma_line_goes_on(text, "\t// TRAP instruction"@);
    assert(text.take(text.len() as int) =~= text);
    lines::lemma_byte_lines_go_on(start, i.bytes, 0);
    lines::lemma_goes_on(text, start, data_bytes(i, text));
}

proof fn lemma_instruction_goes_on(e: ExportView, i: InstructionView, text: Seq<char>)
    ensures
        instruction_text(e, i, text) matches Ok(next) ==> lines::goes_on(text, next),
{
    if let Some(mnemonic) = i.mnemonic {
        let op = opcode::opcode(mnemonic);
        lemma_data_goes_on(i, text);
        if let Some(detail) = i.detail {
            lemma_plain_goes_on(i, mnemonic, text);
            lemma_known_goes_on(e, i, mnemonic, op, detail, text);
            lemma_add_instruction_goes_on(e, i, mnemonic, detail, text);
            lemma_access_goes_on(e, i, mnemonic, detail, text);
            if let Some(mapped) = mov_as_orr(i, detail) {
                lines::lemma_line_of_two_goes_on(text, "\t"@, mapped);
            }
        }
    }
}

proof fn lemma_address_label(e: ExportView, address: u64, text: Seq<char>)
    ensures
        address_label(e, address, text) matches Ok(next) ==> lines::goes_on(text, next)
            && e.name(address) is Ok && lines::is_labelled(
            next,
            seq![e.name(address)->Ok_0],
        ),
{
    if let Ok(next) = address_label(e, address, text) {
        let name = e.name(address)->Ok_0;
        let start = lines::line_of_three(text, "# 0x"@, fmt::hex(address as nat), ":"@);
        lines::lemma_line_of_three_goes_on(text, "# 0x"@, fmt::hex(address as nat), ":"@);
        lines::lemma_global_label_goes_on(start, name);
        lines::lemma_goes_on(text, start, next);
        reveal_with_fuel(lines::global_labels, 2);
        assert(lines::global_labels(start, seq![name], 0) == next);
        assert(next.take(next.len() as int) =~= next);
        assert(lines::goes_on(lines::global_labels(start, seq![name], 0), next));
    }
}

proof fn lemma_code_goes_on(
    e: ExportView,
    insns: Seq<InstructionView>,
    from: int,
    text: Seq<char>,
)
    ensures
        code_lines(e, insns, from, text) matches Ok(last) ==> lines::goes_on(text, last),
    decreases insns.len() - from,
{
    assert(text.take(text.len() as int) =~= text);
    if 0 <= from < insns.len() {
        let labelled = if e.refs.types.contains_key(insns[from].address) {
            address_label(e, insns[from].address, text)
        } else {
            Ok(text)
        };
        lemma_address_label(e, insns[from].address, text);
        if let Ok(start) = labelled {
            lemma_instruction_goes_on(e, insns[from], start);
            if let Ok(next) = instruction_text(e, insns[from], start) {
                lemma_code_goes_on(e, insns, from + 1, next);
                if let Ok(last) = code_lines(e, insns, from + 1, next) {
                    lines::lemma_goes_on(text, start, next);
                    lines::lemma_goes_on(text, next, last);
                }
            }
        }
    }
}

proof fn lemma_code_is_labelled(
    e: ExportView,
    insns: Seq<InstructionView>,
    from: int,
    text: Seq<char>,
    i: int,
)
    requires
        0 <= from <= i < insns.len(),
        e.refs.types.contains_key(insns[i].address),
    ensures
        code_lines(e, insns, from, text) matches Ok(last) ==> e.name(insns[i].address) is Ok
            && lines::is_labelled(last, seq![e.name(insns[i].address)->Ok_0]),
    decreases insns.len() - from,
{
    let labelled = if e.refs.types.contains_key(insns[from].address) {
        address_label(e, insns[from].address, text)
    } else {
        Ok(text)
    };
    lemma_address_label(e, insns[from].address, text);
    if let Ok(start) = labelled {
        lemma_instruction_goes_on(e, insns[from], start);
        if let Ok(next) = instruction_text(e, insns[from], start) {
            lemma_code_goes_on(e, insns, from + 1, next);
            if from < i {
                lemma_code_is_labelled(e, insns, from + 1, next, i);
            } else if let Ok(last) = code_lines(e, insns, from + 1, next) {
                lines::lemma_goes_on(start, next, last);
                lines::lemma_stays_labelled(
                    start,
                    last,
                    seq![e.name(insns[i].address)->Ok_0],
                );
            }
        }
    }
}

/// In code that is written, each instruction that something refers to is labelled.
pub proof fn law_referenced_code_is_labelled(e: ExportView, insns: Seq<InstructionView>, i: int)
    requires
        code_lines(e, insns, 0, ""@) is Ok,
        0 <= i < insns.len(),
        e.refs.types.contains_key(insns[i].address),
    ensures
        e.name(insns[i].address) is Ok,
        lines::is_labelled(
            code_lines(e, insns, 0, ""@)->Ok_0,
            seq![e.name(insns[i].address)->Ok_0],
        ),
{
    lemma_code_is_labelled(e, insns, 0, ""@, i);
}

proof fn lemma_object_label_goes_on(
    e: ExportView,
    infos: Seq<Info>,
    address: u64,
    text: Seq<char>,
)
    ensures
        object_label(e, infos, address, text) matches Ok(next) ==> lines::goes_on(text, next),
{
    lemma_address_label(e, address, text);
    assert(text.take(text.len() as int) =~= text);
    if let Ok(name) = e.name(address) {
        lines::lemma_line_of_two_goes_on(text, name, ":"@);
    }
}

proof fn lemma_object_goes_on(
    e: ExportView,
    infos: Seq<Info>,
    insns: Seq<InstructionView>,
    from: int,
    text: Seq<char>,
)
    ensures
        object_lines(e, infos, insns, from, text) matches Ok(last) ==> lines::goes_on(text, last),
    decreases insns.len() - from,
{
    assert(text.take(text.len() as int) =~= text);
    if 0 <= from < insns.len() {
        lemma_object_label_goes_on(e, infos, insns[from].address, text);
        if let Ok(start) = object_label(e, infos, insns[from].address, text) {
            lemma_instruction_goes_on(e, insns[from], start);
            if let Ok(next) = instruction_text(e, insns[from], start) {
                lemma_object_goes_on(e, infos, insns, from + 1, next);
                if let Ok(last) = object_lines(e, infos, insns, from + 1, next) {
                    lines::lemma_goes_on(text, start, next);
                    lines::lemma_goes_on(text, next, last);
                }
            }
        }
    }
}

proof fn lemma_functions_are_labelled(
    e: ExportView,
    infos: Seq<Info>,
    insns: Seq<InstructionView>,
    from: int,
    text: Seq<char>,
    i: int,
)
    requires
        0 <= from <= i < insns.len(),
        file_list::starts_function(infos, insns[i].address),
    ensures
        object_lines(e, infos, insns, from, text) matches Ok(last) ==> e.name(
            insns[i].address,
        ) is Ok && lines::is_labelled(last, seq![e.name(insns[i].address)->Ok_0]),
    decreases insns.len() - from,
{
    lemma_object_label_goes_on(e, infos, insns[from].address, text);
    lemma_address_label(e, insns[from].address, text);
    if let Ok(start) = object_label(e, infos, insns[from].address, text) {
        lemma_instruction_goes_on(e, insns[from], start);
        if let Ok(next) = instruction_text(e, insns[from], start) {
            lemma_object_goes_on(e, infos, insns, from + 1, next);
            if from < i {
                lemma_functions_are_labelled(e, infos, insns, from + 1, next, i);
            } else if let Ok(last) = object_lines(e, infos, insns, from + 1, next) {
                lines::lemma_goes_on(start, next, last);
                lines::lemma_stays_labelled(
                    start,
                    last,
                    seq![e.name(insns[i].address)->Ok_0],
                );
            }
        }
    }
}

/// In the code of an object, each function gets a label that other files may use.
pub proof fn law_functions_are_labelled(
    e: ExportView,
    infos: Seq<Info>,
    insns: Seq<InstructionView>,
    i: int,
)
    requires
        object_lines(e, infos, insns, 0, ""@) is Ok,
        0 <= i < insns.len(),
        file_list::starts_function(infos, insns[i].address),
    ensures
        e.name(insns[i].address) is Ok,
        lines::is_labelled(
            object_lines(e, infos, insns, 0, ""@)->Ok_0,
            seq![e.name(insns[i].address)->Ok_0],
        ),
{
    lemma_functions_are_labelled(e, infos, insns, 0, ""@, i);
}

/// The instruction is written with the name of a target: branches, calls and page addresses always
/// are, and what adds a page offset is where its target is known.
pub open spec fn refers(e: ExportView, i: InstructionView) -> bool {
    match (i.mnemonic, i.detail) {
        (Some(mnemonic), Some(detail)) => match opcode::opcode(mnemonic) {
            Opcode::Bl
            | Opcode::B
            | Opcode::ConditionalBranch
            | Opcode::TestBranch
            | Opcode::CompareBranch
            | Opcode::Adrp => true,
            Opcode::Add => opcode::operand_imm(detail, 2) is Ok && e.refs.sources.contains_key(
                i.address,
            ),
            Opcode::Ldr
            | Opcode::Str
            | Opcode::HalfAccess
            | Opcode::ByteAccess => e.refs.sources.contains_key(i.address),
            _ => false,
        },
        _ => false,
    }
}

/// How the line of an instruction with the name of a target ends.
pub open spec fn line_end(i: InstructionView, name: Seq<char>) -> Seq<char> {
    match opcode::opcode(i.mnemonic->0) {
        Opcode::Bl | Opcode::B | Opcode::ConditionalBranch => " "@ + name + "\n"@,
        Opcode::Add => ", :lo12:"@ + name + "\n"@,
        Opcode::Ldr
        | Opcode::Str
        | Opcode::HalfAccess
        | Opcode::ByteAccess => ", :lo12:"@ + name + "]\n"@,
        _ => ", "@ + name + "\n"@,
    }
}

/// `text` names what the instruction refers to.
pub open spec fn is_target_named(e: ExportView, i: InstructionView, text: Seq<char>) -> bool {
    target_name(e, i.address) matches Ok(name) && lines::is_written(text, line_end(i, name))
}

proof fn lemma_target_is_named(e: ExportView, i: InstructionView, text: Seq<char>)
    requires
        refers(e, i),
    ensures
        instruction_text(e, i, text) matches Ok(next) ==> is_target_named(e, i, next),
{
    if let Ok(next) = instruction_text(e, i, text) {
        let mnemonic = i.mnemonic->0;
        let detail = i.detail->0;
        let op = opcode::opcode(mnemonic);
        let name = target_name(e, i.address)->Ok_0;
        let start = text + "\t"@ + mnemonic;
        if op == Opcode::Bl || op == Opcode::B || op == Opcode::ConditionalBranch {
            assert(next =~= start + line_end(i, name));
            lines::lemma_ends_written(next, start, line_end(i, name));
        } else if op == Opcode::TestBranch {
            let reg = opcode::operand_reg_name(detail, 0)->Ok_0;
            let bit = opcode::operand_imm(detail, 1)->Ok_0;
            let before = start + " "@ + reg + ", #"@ + fmt::decimal(bit as int);
            assert(next =~= before + line_end(i, name));
            lines::lemma_ends_written(next, before, line_end(i, name));
        } else if op == Opcode::CompareBranch || op == Opcode::Adrp {
            let reg = opcode::operand_reg_name(detail, 0)->Ok_0;
            let before = start + " "@ + reg;
            assert(next =~= before + line_end(i, name));
            lines::lemma_ends_written(next, before, line_end(i, name));
        } else if op == Opcode::Add {
            let to = opcode::operand_reg_name(detail, 0)->Ok_0;
            let from = opcode::operand_reg_name(detail, 1)->Ok_0;
            let before = start + " "@ + to + ", "@ + from;
            assert(next =~= before + line_end(i, name));
            lines::lemma_ends_written(next, before, line_end(i, name));
        } else {
            let reg = opcode::operand_reg_name(detail, 0)->Ok_0;
            let base = base_name(detail, 1)->Ok_0;
            let before = start + " "@ + reg + ", ["@ + base;
            assert(next =~= before + line_end(i, name));
            lines::lemma_ends_written(next, before, line_end(i, name));
        }
    }
}

proof fn lemma_targets_are_named(
    e: ExportView,
    insns: Seq<InstructionView>,
    from: int,
    text: Seq<char>,
    i: int,
)
    requires
        0 <= from <= i < insns.len(),
        refers(e, insns[i]),
    ensures
        code_lines(e, insns, from, text) matches Ok(last) ==> is_target_named(e, insns[i], last),
    decreases insns.len() - from,
{
    let labelled = if e.refs.types.contains_key(insns[from].address) {
        address_label(e, insns[from].address, text)
    } else {
        Ok(text)
    };
    if let Ok(start) = labelled {
        if let Ok(next) = instruction_text(e, insns[from], start) {
            lemma_code_goes_on(e, insns, from + 1, next);
            if from < i {
                lemma_targets_are_named(e, insns, from + 1, next, i);
            } else if let Ok(last) = code_lines(e, insns, from + 1, next) {
                lemma_target_is_named(e, insns[i], start);
                let name = target_name(e, insns[i].address)->Ok_0;
                lines::lemma_stays_written(next, last, line_end(insns[i], name));
            }
        }
    }
}

/// In code that is written, each branch, call and page address, and all that adds a known page
/// offset, refers to its target by name.
pub proof fn law_code_refers_by_name(e: ExportView, insns: Seq<InstructionView>, i: int)
    requires
        code_lines(e, insns, 0, ""@) is Ok,
        0 <= i < insns.len(),
        refers(e, insns[i]),
    ensures
        is_target_named(e, insns[i], code_lines(e, insns, 0, ""@)->Ok_0),
{
    lemma_targets_are_named(e, insns, 0, ""@, i);
}

proof fn lemma_object_targets_are_named(
    e: ExportView,
    infos: Seq<Info>,
    insns: Seq<InstructionView>,
    from: int,
    text: Seq<char>,
    i: int,
)
    requires
        0 <= from <= i < insns.len(),
        refers(e, insns[i]),
    ensures
        object_lines(e, infos, insns, from, text) matches Ok(last) ==> is_target_named(
            e,
            insns[i],
            last,
        ),
    decreases insns.len() - from,
{
    if let Ok(start) = object_label(e, infos, insns[from].address, text) {
        if let Ok(next) = instruction_text(e, insns[from], start) {
            lemma_object_goes_on(e, infos, insns, from + 1, next);
            if from < i {
                lemma_object_targets_are_named(e, infos, insns, from + 1, next, i);
            } else if let Ok(last) = object_lines(e, infos, insns, from + 1, next) {
                lemma_target_is_named(e, insns[i], start);
                let name = target_name(e, insns[i].address)->Ok_0;
                lines::lemma_stays_written(next, last, line_end(insns[i], name));
            }
        }
    }
}

/// The code of an object refers to its targets by name in the same way, so that it does not matter
/// where the object is put.
pub proof fn law_objects_refer_by_name(
    e: ExportView,
    infos: Seq<Info>,
    insns: Seq<InstructionView>,
    i: int,
)
    requires
        object_lines(e, infos, insns, 0, ""@) is Ok,
        0 <= i < insns.len(),
        refers(e, insns[i]),
    ensures
        is_target_named(e, insns[i], object_lines(e, infos, insns, 0, ""@)->Ok_0),
{
    lemma_object_targets_are_named(e, infos, insns, 0, ""@, i);
}

/// The instruction at an address refers to something that has this name.
pub open spec fn is_name_of_target(e: ExportView, address: u64, name: Seq<char>) -> bool {
    e.refs.sources.contains_key(address) && e.name(e.refs.sources[address].1) == Ok::<
        Seq<char>,
        Error,
    >(name)
}

/// The operand at `idx` is a register of this name.
pub open spec fn is_register(i: InstructionView, idx: int, name: Seq<char>) -> bool {
    let operands = i.detail->0.operands;
    i.detail is Some && idx < operands.len() && operands[idx] is Reg && operands[idx]->Reg_1
        == Some(name)
}

/// The operand at `idx` is a place in memory, relative to a register of this name.
pub open spec fn is_base(i: InstructionView, idx: int, name: Seq<char>) -> bool {
    let operands = i.detail->0.operands;
    i.detail is Some && idx < operands.len() && operands[idx] is Mem && operands[idx]->Mem_1
        == Some(name)
}

/// A branch or call is written with its mnemonic and the name of its target, and with what it tests
/// in between: the register for `cbz` and `cbnz`, the register and the number of the bit for `tbz` and
/// `tbnz`. An `adrp` is written with its register and the name of what it is used for.
pub proof fn law_branches_are_written_in_full(e: ExportView, i: InstructionView, text: Seq<char>)
    requires
        instruction_text(e, i, text) is Ok,
    ensures
        i.mnemonic == Some("b"@) || i.mnemonic == Some("bl"@) || (i.mnemonic is Some
            && blocks::is_flag_branch(i.mnemonic->0)) ==> exists|name: Seq<char>| #[trigger]
            is_name_of_target(e, i.address, name) && instruction_text(e, i, text)->Ok_0 == text
                + "\t"@ + i.mnemonic->0 + " "@ + name + "\n"@,
        i.mnemonic == Some("cbz"@) || i.mnemonic == Some("cbnz"@) || i.mnemonic == Some("adrp"@)
            ==> exists|name: Seq<char>, reg: Seq<char>| #[trigger]
            is_name_of_target(e, i.address, name) && #[trigger] is_register(i, 0, reg)
                && instruction_text(e, i, text)->Ok_0 == text + "\t"@ + i.mnemonic->0 + " "@ + reg
                + ", "@ + name + "\n"@,
        i.mnemonic == Some("tbz"@) || i.mnemonic == Some("tbnz"@) ==> exists|
            name: Seq<char>,
            reg: Seq<char>,
            bit: u64,
        |
            #![trigger is_name_of_target(e, i.address, name), is_register(i, 0, reg), fmt::decimal(bit as int)]
            is_name_of_target(e, i.address, name) && is_register(i, 0, reg)
                && i.detail->0.operands[1] is Imm && blocks::is_address(
                bit,
                i.detail->0.operands[1]->Imm_0,
            ) && instruction_text(e, i, text)->Ok_0 == text + "\t"@ + i.mnemonic->0 + " "@ + reg
                + ", #"@ + fmt::decimal(bit as int) + ", "@ + name + "\n"@,
{
    opcode::lemma_mnemonics();
    let m = i.mnemonic->0;
    let detail = i.detail->0;
    if i.mnemonic is Some && blocks::is_flag_branch(m) {
        reveal_strlit("b.");
        assert(m =~= "b."@ + m.skip(2));
        assert(opcode::opcode(m) == Opcode::ConditionalBranch);
    }
    if target_name(e, i.address) is Ok {
        let name = target_name(e, i.address)->Ok_0;
        assert(is_name_of_target(e, i.address, name));
        if opcode::operand_reg_name(detail, 0) is Ok {
            let reg = opcode::operand_reg_name(detail, 0)->Ok_0;
            assert(i.detail is Some ==> is_register(i, 0, reg));
            if opcode::operand_imm(detail, 1) is Ok {
                let bit = opcode::operand_imm(detail, 1)->Ok_0;
                assert(fmt::decimal(bit as int) == fmt::decimal(bit as int));
            }
        }
    }
}

/// An `add` of a page offset is written with the register that it sets, the register that it adds to,
/// and the name of what is there, in this order. One whose target is not known stays as it is.
pub proof fn law_adds_are_written_in_full(e: ExportView, i: InstructionView, text: Seq<char>)
    requires
        instruction_text(e, i, text) is Ok,
        i.mnemonic == Some("add"@),
    ensures
        ({
            let operands = i.detail->0.operands;
            if e.refs.sources.contains_key(i.address) && operands.len() > 2 && operands[2] is Imm {
                exists|name: Seq<char>, to: Seq<char>, from: Seq<char>| #[trigger]
                    is_name_of_target(e, i.address, name) && #[trigger] is_register(i, 0, to)
                        && #[trigger] is_register(i, 1, from) && instruction_text(
                        e,
                        i,
                        text,
                    )->Ok_0 == text + "\tadd "@ + to + ", "@ + from + ", :lo12:"@ + name + "\n"@
            } else {
                i.op_str is Some && instruction_text(e, i, text)->Ok_0 == text + "\tadd "@
                    + i.op_str->0 + "\n"@
            }
        }),
{
    opcode::lemma_mnemonics();
    let detail = i.detail->0;
    let operands = detail.operands;
    reveal_strlit("\t");
    reveal_strlit("add");
    reveal_strlit(" ");
    reveal_strlit("\tadd ");
    assert("\t"@ + "add"@ + " "@ =~= "\tadd "@);
    assert(text + "\t"@ + "add"@ + " "@ =~= text + "\tadd "@);
    if e.refs.sources.contains_key(i.address) && operands.len() > 2 && operands[2] is Imm {
        let name = target_name(e, i.address)->Ok_0;
        let to = opcode::operand_reg_name(detail, 0)->Ok_0;
        let from = opcode::operand_reg_name(detail, 1)->Ok_0;
        assert(is_name_of_target(e, i.address, name));
        assert(is_register(i, 0, to));
        assert(is_register(i, 1, from));
    }
}

/// A load or store whose target is known is written with its register, and in brackets with its base
/// register and the name of what is there. One whose target is not known stays as it is.
pub proof fn law_accesses_are_written_in_full(e: ExportView, i: InstructionView, text: Seq<char>)
    requires
        instruction_text(e, i, text) is Ok,
        i.mnemonic is Some,
        i.mnemonic->0 == "ldr"@ || i.mnemonic->0 == "str"@ || i.mnemonic->0 == "ldrh"@
            || i.mnemonic->0 == "strh"@ || i.mnemonic->0 == "ldrsh"@ || i.mnemonic->0 == "ldrb"@
            || i.mnemonic->0 == "strb"@,
    ensures
        if e.refs.sources.contains_key(i.address) {
            exists|name: Seq<char>, reg: Seq<char>, base: Seq<char>| #[trigger]
                is_name_of_target(e, i.address, name) && #[trigger] is_register(i, 0, reg)
                    && #[trigger] is_base(i, 1, base) && instruction_text(e, i, text)->Ok_0 == text
                    + "\t"@ + i.mnemonic->0 + " "@ + reg + ", ["@ + base + ", :lo12:"@ + name
                    + "]\n"@
        } else {
            i.op_str is Some && instruction_text(e, i, text)->Ok_0 == text + "\t"@ + i.mnemonic->0
                + " "@ + i.op_str->0 + "\n"@
        },
{
    opcode::lemma_mnemonics();
    let detail = i.detail->0;
    if e.refs.sources.contains_key(i.address) {
        let name = target_name(e, i.address)->Ok_0;
        let reg = opcode::operand_reg_name(detail, 0)->Ok_0;
        let base = base_name(detail, 1)->Ok_0;
        assert(is_name_of_target(e, i.address, name));
        assert(is_register(i, 0, reg));
        assert(is_base(i, 1, base));
    }
}

/// The mnemonic of an instruction that may be written otherwise than the disassembler does.
pub open spec fn is_rewritten(mnemonic: Seq<char>) -> bool {
    mnemonic == ".byte"@ || mnemonic == "b"@ || mnemonic == "bl"@ || blocks::is_flag_branch(mnemonic)
        || mnemonic == "cbz"@ || mnemonic == "cbnz"@ || mnemonic == "tbz"@ || mnemonic == "tbnz"@
        || mnemonic == "adr"@ || mnemonic == "adrp"@ || mnemonic == "add"@ || mnemonic == "ldr"@
        || mnemonic == "str"@ || mnemonic == "ldrh"@ || mnemonic == "strh"@ || mnemonic == "ldrsh"@
        || mnemonic == "ldrb"@ || mnemonic == "strb"@ || mnemonic == "mov"@
}

/// All other instructions stay as they are. A `mov` does too, unless its code is that of an `orr` of
/// the zero register, which is written as such: the assembler would choose another code for it.
pub proof fn law_other_instructions_stay(e: ExportView, i: InstructionView, text: Seq<char>)
    requires
        instruction_text(e, i, text) is Ok,
        i.mnemonic is Some,
    ensures
        !is_rewritten(i.mnemonic->0) ==> i.op_str is Some && instruction_text(e, i, text)->Ok_0
            == text + "\t"@ + i.mnemonic->0 + " "@ + i.op_str->0 + "\n"@,
        i.mnemonic->0 == "mov"@ && (i.bytes.len() < 4 || i.bytes[3] & 0x7F != 0x32 || i.bytes[2]
            & 0x80 != 0) ==> i.op_str is Some && instruction_text(e, i, text)->Ok_0 == text + "\t"@
            + "mov"@ + " "@ + i.op_str->0 + "\n"@,
        forall|reg: Seq<char>|
            i.mnemonic->0 == "mov"@ && i.bytes.len() >= 4 && i.bytes[3] & 0x7F == 0x32 && i.bytes[2]
                & 0x80 == 0 && #[trigger] is_register(i, 0, reg) && i.detail->0.operands.len() >= 2
                && i.detail->0.operands[1] is Imm && i.detail->0.operands[1]->Imm_0 >= 0
                && reg.len() >= 2 && reg[0] == 'w' ==> instruction_text(e, i, text)->Ok_0 == text
                + "\t"@ + ("orr "@ + reg + ", wzr, #0x"@ + fmt::hex(
                i.detail->0.operands[1]->Imm_0 as nat,
            )) + "\n"@,
        forall|reg: Seq<char>|
            i.mnemonic->0 == "mov"@ && i.bytes.len() >= 4 && i.bytes[3] & 0x7F == 0x32 && i.bytes[2]
                & 0x80 == 0 && #[trigger] is_register(i, 0, reg) && i.detail->0.operands.len() >= 2
                && i.detail->0.operands[1] is Imm && i.detail->0.operands[1]->Imm_0 >= 0
                && reg.len() >= 2 && reg[0] == 'x' ==> instruction_text(e, i, text)->Ok_0 == text
                + "\t"@ + ("orr "@ + reg + ", xzr, #0x"@ + fmt::hex(
                i.detail->0.operands[1]->Imm_0 as nat,
            )) + "\n"@,
{
    opcode::lemma_mnemonics();
    reveal_strlit("b.");
    reveal_strlit("fp");
    reveal_strlit("lr");
    let m = i.mnemonic->0;
    if m.len() >= 2 && m.take(2) == "b."@ {
        assert(m.take(2)[0] == m[0] && m.take(2)[1] == m[1]);
    }
}

/// Data between the instructions is written byte by byte, each in two hexadecimal digits, and the code
/// of a trap is marked as such.
pub proof fn law_data_in_code_is_written_in_full(e: ExportView, i: InstructionView, text: Seq<char>)
    requires
        i.mnemonic == Some(".byte"@),
    ensures
        instruction_text(e, i, text) == Ok::<Seq<char>, Error>(
            text + (if i.bytes == seq![0xFEu8, 0xDE, 0xFF, 0xE7] {
                "\t// TRAP instruction\n"@
            } else {
                ""@
            }) + lines::listing_of_bytes(i.bytes),
        ),
{
    opcode::lemma_mnemonics();
    reveal_strlit("");
    reveal_strlit("\n");
    reveal_strlit("\t// TRAP instruction");
    reveal_strlit("\t// TRAP instruction\n");
    assert("\t// TRAP instruction"@ + "\n"@ =~= "\t// TRAP instruction\n"@);
    let start = if is_trap(i.bytes) {
        lines::line(text, "\t// TRAP instruction"@)
    } else {
        text
    };
    lines::lemma_listing_of_bytes(start, i.bytes, 0);
    assert(i.bytes.skip(0) =~= i.bytes);
    assert(text + "\t// TRAP instruction"@ + "\n"@ =~= text + "\t// TRAP instruction\n"@);
    assert(text + ""@ =~= text);
}

/// The label of an instruction is its name, behind the address in a comment. Other files may use it.
pub proof fn law_labels_are_written_in_full(e: ExportView, address: u64, text: Seq<char>)
    requires
        address_label(e, address, text) is Ok,
    ensures
        e.name(address) is Ok,
        address_label(e, address, text)->Ok_0 == text + ("# 0x"@ + fmt::hex(address as nat) + ":\n"@
            + ".global "@ + e.name(address)->Ok_0 + "\n"@ + e.name(address)->Ok_0 + ":\n"@),
{
    reveal_strlit(":");
    reveal_strlit("\n");
    reveal_strlit(":\n");
    let name = e.name(address)->Ok_0;
    assert(":"@ + "\n"@ =~= ":\n"@);
    assert(address_label(e, address, text)->Ok_0 =~= text + ("# 0x"@ + fmt::hex(address as nat)
        + ":\n"@ + ".global "@ + name + "\n"@ + name + ":\n"@));
}

/// In an object, a function has a label that other files may use. Other code that something refers to
/// has one that they may not, and the rest has none.
pub proof fn law_only_functions_are_global(
    e: ExportView,
    infos: Seq<Info>,
    address: u64,
    text: Seq<char>,
)
    requires
        object_label(e, infos, address, text) is Ok,
    ensures
        ({
            let labelled = object_label(e, infos, address, text)->Ok_0;
            let is_function = exists|k: int|
                0 <= k < infos.len() && (#[trigger] infos[k]).offset == address;
            &&& is_function ==> Ok::<Seq<char>, Error>(labelled) == address_label(e, address, text)
            &&& !is_function && e.refs.types.contains_key(address) ==> e.name(address) is Ok
                && labelled == text + e.name(address)->Ok_0 + ":\n"@
            &&& !is_function && !e.refs.types.contains_key(address) ==> labelled == text
        }),
{
    reveal_strlit(":");
    reveal_strlit("\n");
    reveal_strlit(":\n");
    assert(":"@ + "\n"@ =~= ":\n"@);
    if e.name(address) is Ok {
        let name = e.name(address)->Ok_0;
        assert(text + name + ":"@ + "\n"@ =~= text + name + ":\n"@);
    }
}

/// A stub of the `.plt` section is written as a jump through the entry of the global offset table that
/// its target is.
pub proof fn law_stubs_are_written_in_full(
    nso: NsoView,
    lookup: LookupView,
    address: int,
    target: int,
    text: Seq<char>,
)
    requires
        stub(nso, lookup, address, target, text) is Ok,
        0 <= address,
        0 <= target,
    ensures
        address <= u64::MAX && target <= u64::MAX,
        ({
            let name = lookup::any_name(nso, lookup, address as u64)->Ok_0;
            let entry = lookup::any_name(nso, lookup, target as u64)->Ok_0;
            stub(nso, lookup, address, target, text)->Ok_0 == text + ("\n.global "@ + name + "\n"@
                + name + ":\n\tadrp x16, "@ + entry + "\n\tldr x17, [x16, :lo12:"@ + entry
                + "]\n\tadd x16, x16, :lo12:"@ + entry + "\n\tbr x17\n"@)
        }),
{
    let name = lookup::any_name(nso, lookup, address as u64)->Ok_0;
    let entry = lookup::any_name(nso, lookup, target as u64)->Ok_0;
    reveal_strlit("");
    reveal_strlit("\n");
    reveal_strlit(":");
    reveal_strlit("]");
    reveal_strlit(".global ");
    reveal_strlit("\n.global ");
    reveal_strlit("\tadrp x16, ");
    reveal_strlit(":\n\tadrp x16, ");
    reveal_strlit("\tldr x17, [x16, :lo12:");
    reveal_strlit("\n\tldr x17, [x16, :lo12:");
    reveal_strlit("\tadd x16, x16, :lo12:");
    reveal_strlit("]\n\tadd x16, x16, :lo12:");
    reveal_strlit("\tbr x17");
    reveal_strlit("\n\tbr x17\n");
    assert("\n"@ + ".global "@ =~= "\n.global "@);
    assert(":"@ + "\n"@ + "\tadrp x16, "@ =~= ":\n\tadrp x16, "@);
    assert("\n"@ + "\tldr x17, [x16, :lo12:"@ =~= "\n\tldr x17, [x16, :lo12:"@);
    assert("]"@ + "\n"@ + "\tadd x16, x16, :lo12:"@ =~= "]\n\tadd x16, x16, :lo12:"@);
    assert("\n"@ + "\tbr x17"@ + "\n"@ =~= "\n\tbr x17\n"@);
    let parts = "\n"@ + ".global "@ + name + "\n"@ + name + (":"@ + "\n"@ + "\tadrp x16, "@) + entry + (
    "\n"@ + "\tldr x17, [x16, :lo12:"@) + entry + ("]"@ + "\n"@ + "\tadd x16, x16, :lo12:"@) + entry
        + ("\n"@ + "\tbr x17"@ + "\n"@);
    assert(stub(nso, lookup, address, target, text)->Ok_0 =~= text + parts);
}

/// Somewhere in `text` there is the stub at `address`, which jumps through `target`.
pub open spec fn has_stub(
    nso: NsoView,
    lookup: LookupView,
    address: int,
    target: int,
    text: Seq<char>,
) -> bool {
    exists|before: Seq<char>|
        stub(nso, lookup, address, target, before) is Ok && lines::goes_on(
            (#[trigger] stub(nso, lookup, address, target, before))->Ok_0,
            text,
        )
}

proof fn lemma_stub_is_written(
    nso: NsoView,
    lookup: LookupView,
    address: int,
    target: int,
    count: int,
    text: Seq<char>,
    k: int,
)
    requires
        stubs(nso, lookup, address, target, count, text) is Ok,
        0 <= k < count,
    ensures
        has_stub(
            nso,
            lookup,
            address + 16 * k,
            target + 8 * k,
            stubs(nso, lookup, address, target, count, text)->Ok_0,
        ),
    decreases count,
{
    let next = stub(nso, lookup, address, target, text)->Ok_0;
    if k > 0 {
        lemma_stub_is_written(nso, lookup, address + 16, target + 8, count - 1, next, k - 1);
        assert(address + 16 + 16 * (k - 1) == address + 16 * k);
        assert(target + 8 + 8 * (k - 1) == target + 8 * k);
    } else {
        lemma_stubs_go_on(nso, lookup, address + 16, target + 8, count - 1, next);
        assert(stub(nso, lookup, address + 16 * k, target + 8 * k, text) is Ok);
    }
}

proof fn lemma_stubs_go_on(
    nso: NsoView,
    lookup: LookupView,
    address: int,
    target: int,
    count: int,
    text: Seq<char>,
)
    ensures
        stubs(nso, lookup, address, target, count, text) matches Ok(after) ==> lines::goes_on(
            text,
            after,
        ),
    decreases count,
{
    lines::lemma_stays(text);
    if count > 0 {
        if let Ok(next) = stub(nso, lookup, address, target, text) {
            lemma_stubs_go_on(nso, lookup, address + 16, target + 8, count - 1, next);
            let name = lookup::any_name(nso, lookup, address as u64)->Ok_0;
            let entry = lookup::any_name(nso, lookup, target as u64)->Ok_0;
            let a = lines::line(text, ""@);
            let b = lines::global_label(a, name);
            let c = lines::line_of_two(b, "\tadrp x16, "@, entry);
            let d = lines::line_of_three(c, "\tldr x17, [x16, :lo12:"@, entry, "]"@);
            let f = lines::line_of_two(d, "\tadd x16, x16, :lo12:"@, entry);
            lines::lemma_line_goes_on(text, ""@);
            lines::lemma_global_label_goes_on(a, name);
            lines::lemma_line_of_two_goes_on(b, "\tadrp x16, "@, entry);
            lines::lemma_line_of_three_goes_on(c, "\tldr x17, [x16, :lo12:"@, entry, "]"@);
            lines::lemma_line_of_two_goes_on(d, "\tadd x16, x16, :lo12:"@, entry);
            lines::lemma_line_goes_on(f, "\tbr x17"@);
            lines::lemma_goes_on(text, a, b);
            lines::lemma_goes_on(text, b, c);
            lines::lemma_goes_on(text, c, d);
            lines::lemma_goes_on(text, d, f);
            lines::lemma_goes_on(text, f, next);
            if let Ok(after) = stubs(nso, lookup, address + 16, target + 8, count - 1, next) {
                lines::lemma_goes_on(text, next, after);
            }
        }
    }
}

/// In the `.plt` section there is a stub for each entry of `.got.plt` but the first three. They are
/// sixteen bytes apart, behind a first entry of 32 bytes, which is behind the code.
pub proof fn law_each_slot_has_a_stub(
    nso: NsoView,
    lookup: LookupView,
    t: TextView,
    got_plt: (u64, u64),
    k: int,
)
    requires
        plt_text(nso, lookup, t, got_plt) is Ok,
        3 <= k,
        got_plt.0 + 8 * k + 8 <= got_plt.1,
    ensures
        has_stub(
            nso,
            lookup,
            t.section_offset + t.section.len() + 32 + 16 * (k - 3),
            got_plt.0 + 8 * k,
            plt_text(nso, lookup, t, got_plt)->Ok_0,
        ),
{
    let address = t.section_offset + t.section.len();
    let target = got_plt.0 + 0x10;
    let name = lookup::any_name(nso, lookup, address as u64)->Ok_0;
    let target_name = lookup::any_name(nso, lookup, target as u64)->Ok_0;
    lemma_stub_is_written(
        nso,
        lookup,
        address + 32,
        target + 8,
        (got_plt.1 - got_plt.0) / 8 - 3,
        plt_start(name, target_name),
        k - 3,
    );
    assert(target + 8 + 8 * (k - 3) == got_plt.0 + 8 * k);
}

/// The code of an object is what lies between the bounds of its functions in the `.text` section.
pub proof fn law_objects_have_their_code(t: TextView, infos: Seq<Info>, k: int)
    requires
        object_code(t, infos) is Ok,
    ensures
        ({
            let (code, start) = object_code(t, infos)->Ok_0;
            let (first, end) = file_list::text_bounds(infos)->Ok_0;
            &&& file_list::text_bounds(infos) is Ok
            &&& start == first
            &&& code.len() == end - first
            &&& 0 <= k < code.len() ==> code[k] == t.section[first + k - t.section_offset]
        }),
{
}

/// The code of an object is found exactly if its functions are all in the `.text` section.
pub proof fn law_objects_are_within_the_code(t: TextView, infos: Seq<Info>)
    ensures
        ({
            let (first, end) = file_list::text_bounds(infos)->Ok_0;
            let bounded = file_list::text_bounds(infos) is Ok;
            let within = t.section_offset <= first && first <= end && end <= t.section_offset
                + t.section.len();
            &&& object_code(t, infos) is Ok <==> bounded && within
            &&& bounded && !within ==> object_code(t, infos) == Err::<(Seq<u8>, u64), Error>(
                Error::OutOfBounds,
            )
        }),
{
}

/// All of the code is written from its first instruction on, and so is that of an object.
pub proof fn law_code_is_written_from_its_start(e: ExportView, t: TextView, infos: Seq<Info>)
    ensures
        code_text(e, t) == code_lines(
            e,
            disasm::disassembly(t.section, t.section_offset as u64),
            0,
            Seq::empty(),
        ),
        object_code(t, infos) matches Ok((code, start)) ==> object_text(e, t, infos)
            == object_lines(e, infos, disasm::disassembly(code, start), 0, Seq::empty()),
        object_code(t, infos) is Err ==> object_text(e, t, infos) is Err,
{
    reveal_strlit("");
    assert(""@ =~= Seq::<char>::empty());
}

/// A stub is written exactly if it and its entry have addresses and names.
pub proof fn law_stubs_need_names(
    nso: NsoView,
    lookup: LookupView,
    address: int,
    target: int,
    text: Seq<char>,
)
    ensures
        stub(nso, lookup, address, target, text) is Ok <==> address <= u64::MAX && target
            <= u64::MAX && lookup::any_name(nso, lookup, address as u64) is Ok && lookup::any_name(
            nso,
            lookup,
            target as u64,
        ) is Ok,
        address > u64::MAX || target > u64::MAX ==> stub(nso, lookup, address, target, text)
            == Err::<Seq<char>, Error>(Error::Overflow),
{
}

/// The `.plt` section starts with its label, saves two registers, jumps through its entry and is filled
/// up by instructions that do nothing.
pub proof fn law_plt_starts_are_written_in_full(name: Seq<char>, entry: Seq<char>)
    ensures
        plt_start(name, entry) == ".section \".plt\""@ + "\n"@ + ".global "@ + name + "\n"@ + name
            + ":"@ + "\n"@ + "\tstp x16, x30, [sp, #-0x10]!"@ + "\n"@ + "\tadrp x16, "@ + entry
            + "\n"@ + "\tldr x17, [x16, :lo12:"@ + entry + "]"@ + "\n"@ + "\tadd x16, x16, :lo12:"@
            + entry + "\n"@ + "\tbr x17"@ + "\n"@ + "\tnop"@ + "\n"@ + "\tnop"@ + "\n"@ + "\tnop"@
            + "\n"@,
{
    reveal_strlit("");
    assert(""@ + ".section \".plt\""@ =~= ".section \".plt\""@);
}

/// Behind its start the `.plt` section has a stub for each entry of the `.got.plt` section but the first
/// three. It is refused if it or its first entry has no address.
pub proof fn law_plt_has_all_stubs(
    nso: NsoView,
    lookup: LookupView,
    t: TextView,
    start: u64,
    end: u64,
)
    ensures
        ({
            let here = t.section_offset + t.section.len();
            let entry = start + 16;
            let name = lookup::any_name(nso, lookup, here as u64);
            let entry_name = lookup::any_name(nso, lookup, entry as u64);
            let r = plt_text(nso, lookup, t, (start, end));
            let placed = here <= u64::MAX && entry <= u64::MAX && start <= end;
            &&& !placed ==> r == Err::<Seq<char>, Error>(Error::Overflow)
            &&& placed && name is Ok && entry_name is Ok && end - start >= 24 ==> r == stubs(
                nso,
                lookup,
                here + 32,
                start + 24,
                (end - start - 24) / 8,
                plt_start(name->Ok_0, entry_name->Ok_0),
            )
            &&& placed && name is Ok && entry_name is Ok && end - start < 24 ==> r == Ok::<
                Seq<char>,
                Error,
            >(plt_start(name->Ok_0, entry_name->Ok_0))
            &&& name is Err || entry_name is Err ==> r is Err
        }),
{
    assert((end - start - 24) / 8 == (end - start) / 8 - 3);
}

/// Stubs come sixteen bytes one behind the other, for entries eight bytes one behind the other.
pub proof fn law_stubs_come_in_order(
    nso: NsoView,
    lookup: LookupView,
    address: int,
    target: int,
    count: int,
    text: Seq<char>,
)
    ensures
        count <= 0 ==> stubs(nso, lookup, address, target, count, text) == Ok::<Seq<char>, Error>(
            text,
        ),
        count > 0 && stub(nso, lookup, address, target, text) is Ok ==> stubs(
            nso,
            lookup,
            address,
            target,
            count,
            text,
        ) == stubs(
            nso,
            lookup,
            address + 16,
            target + 8,
            count - 1,
            stub(nso, lookup, address, target, text)->Ok_0,
        ),
        count > 0 && stub(nso, lookup, address, target, text) is Err ==> stubs(
            nso,
            lookup,
            address,
            target,
            count,
            text,
        ) is Err,
{
}

} // verus!
