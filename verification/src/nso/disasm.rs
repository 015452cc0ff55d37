//! Instructions as the `capstone` disassembler reports them.

use capstone::arch::arm64::{ArchMode, Arm64OperandType};
use capstone::arch::{ArchOperand, BuildsCapstone, BuildsCapstoneEndian};
use capstone::{Capstone, Endian, Error as CapstoneError};
use vstd::prelude::*;

use crate::error::Error;

verus! {

/// `capstone::Error`, kept opaque.
#[verifier::external_type_specification]
#[verifier::external_body]
pub struct ExCapstoneError(CapstoneError);

/// `capstone::Capstone`, kept opaque.
#[verifier::external_type_specification]
#[verifier::external_body]
pub struct ExCapstone(Capstone);

/// A disassembler for little-endian AArch64, with data skipped over and details on. It is made by
/// [`construct_capstone`] only.
struct Disassembler {
    cs: Capstone,
}

/// One operand of an instruction. Registers carry their number and their name.
#[derive(Debug)]
pub enum Operand {
    Reg(u16, Option<String>),
    Imm(i64),
    /// Base register, its name, displacement.
    Mem(u16, Option<String>, i32),
    Other,
}

/// What an [`Operand`] says.
pub enum OperandView {
    Reg(u16, Option<Seq<char>>),
    Imm(i64),
    Mem(u16, Option<Seq<char>>, i32),
    Other,
}

/// The text inside an optional string.
pub open spec fn text_of(s: Option<String>) -> Option<Seq<char>> {
    match s {
        Some(s) => Some(s@),
        None => None,
    }
}

impl View for Operand {
    type V = OperandView;

    open spec fn view(&self) -> OperandView {
        match *self {
            Operand::Reg(reg, name) => OperandView::Reg(reg, text_of(name)),
            Operand::Imm(value) => OperandView::Imm(value),
            Operand::Mem(base, name, disp) => OperandView::Mem(base, text_of(name), disp),
            Operand::Other => OperandView::Other,
        }
    }
}

/// An instruction without its operands.
#[derive(Debug)]
pub struct Decoded {
    pub address: u64,
    pub bytes: Vec<u8>,
    pub mnemonic: Option<String>,
    pub op_str: Option<String>,
    /// Registers that are written, and the groups that the instruction belongs to. Data that is no
    /// instruction has neither.
    pub effects: Option<(Vec<u16>, Vec<u8>)>,
}

/// What a [`Decoded`] says.
pub struct DecodedView {
    pub address: u64,
    pub bytes: Seq<u8>,
    pub mnemonic: Option<Seq<char>>,
    pub op_str: Option<Seq<char>>,
    pub effects: Option<(Seq<u16>, Seq<u8>)>,
}

impl View for Decoded {
    type V = DecodedView;

    open spec fn view(&self) -> DecodedView {
        DecodedView {
            address: self.address,
            bytes: self.bytes@,
            mnemonic: text_of(self.mnemonic),
            op_str: text_of(self.op_str),
            effects: match self.effects {
                Some(effects) => Some((effects.0@, effects.1@)),
                None => None,
            },
        }
    }
}

/// What the disassembler lists for `code` at `address`, operands aside.
pub uninterp spec fn listing(code: Seq<u8>, address: u64) -> Seq<DecodedView>;

/// The operands of the instructions that the disassembler lists for `code` at `address`.
pub uninterp spec fn operand_listing(code: Seq<u8>, address: u64) -> Seq<Option<Seq<OperandView>>>;

/// Every element by its view.
pub open spec fn decoded_views(list: Seq<Decoded>) -> Seq<DecodedView> {
    list.map_values(|d: Decoded| d@)
}

/// Every operand list by its view.
pub open spec fn operand_views(list: Seq<Option<Vec<Operand>>>) -> Seq<Option<Seq<OperandView>>> {
    list.map_values(
        |ops: Option<Vec<Operand>>|
            match ops {
                Some(ops) => Some(ops@.map_values(|op: Operand| op@)),
                None => None,
            },
    )
}

/// `capstone::Capstone::new` and the methods of its builder, `Capstone::set_skipdata`. It fails only
/// for want of memory.
#[verifier::external_body]
fn construct_capstone() -> Result<Capstone, CapstoneError> {
    let builder = Capstone::new().arm64().mode(ArchMode::Arm).detail(true);
    let mut cs = builder.endian(Endian::Little).build()?;
    cs.set_skipdata(true)?;
    Ok(cs)
}

/// `capstone::Capstone::disasm_iter`: the instructions in their order, each with what its `Insn` and
/// `InsnDetail` hold. What it lists is a function of the code and its address.
#[verifier::external_body]
fn decode(disassembler: &Disassembler, code: &[u8], address: u64) -> (r: Result<
    Vec<Decoded>,
    CapstoneError,
>)
    ensures
        r matches Ok(list) ==> decoded_views(list@) == listing(code@, address),
{
    let cs = &disassembler.cs;
    let mut iter = cs.disasm_iter(code, address)?;
    Ok(core::iter::from_fn(|| iter.next().map(|i| Decoded {
        address: i.address(),
        bytes: i.bytes().to_vec(),
        mnemonic: i.mnemonic().map(str::to_string),
        op_str: i.op_str().map(str::to_string),
        effects: cs.insn_detail(&i).ok().map(|d| (
            d.regs_write().iter().map(|r| r.0).collect(), d.groups().iter().map(|g| g.0).collect(),
        )),
    })).collect())
}

/// `capstone::Capstone::disasm_iter` as in [`decode`]: the operands of the same instructions, with
/// `Capstone::reg_name` for each register.
#[verifier::external_body]
fn decode_operands(disassembler: &Disassembler, code: &[u8], address: u64) -> (r: Result<
    Vec<Option<Vec<Operand>>>,
    CapstoneError,
>)
    ensures
        r matches Ok(list) ==> operand_views(list@) == operand_listing(code@, address),
        r matches Ok(list) ==> list@.len() == listing(code@, address).len(),
{
    let cs = &disassembler.cs;
    let mut iter = cs.disasm_iter(code, address)?;
    Ok(core::iter::from_fn(|| iter.next().map(|i| cs.insn_detail(&i).ok().map(|d|
        d.arch_detail().operands().into_iter().map(|op| match op {
            ArchOperand::Arm64Operand(op) => match op.op_type {
                Arm64OperandType::Reg(r) => Operand::Reg(r.0, cs.reg_name(r)),
                Arm64OperandType::Imm(v) => Operand::Imm(v),
                Arm64OperandType::Mem(m) => Operand::Mem(m.base().0, cs.reg_name(m.base()), m.disp()),
                _ => Operand::Other,
            },
            _ => Operand::Other,
        }).collect()))).collect())
}

/// What only real instructions have.
#[derive(Debug)]
pub struct Detail {
    pub regs_write: Vec<u16>,
    pub groups: Vec<u8>,
    pub operands: Vec<Operand>,
}

/// What a [`Detail`] says.
pub struct DetailView {
    pub regs_write: Seq<u16>,
    pub groups: Seq<u8>,
    pub operands: Seq<OperandView>,
}

impl View for Detail {
    type V = DetailView;

    open spec fn view(&self) -> DetailView {
        DetailView {
            regs_write: self.regs_write@,
            groups: self.groups@,
            operands: self.operands@.map_values(|op: Operand| op@),
        }
    }
}

/// A disassembled instruction, or a piece of data that is none.
#[derive(Debug)]
pub struct Instruction {
    pub address: u64,
    pub bytes: Vec<u8>,
    pub mnemonic: Option<String>,
    pub op_str: Option<String>,
    pub detail: Option<Detail>,
}

/// What an [`Instruction`] says.
pub struct InstructionView {
    pub address: u64,
    pub bytes: Seq<u8>,
    pub mnemonic: Option<Seq<char>>,
    pub op_str: Option<Seq<char>>,
    pub detail: Option<DetailView>,
}

impl View for Instruction {
    type V = InstructionView;

    open spec fn view(&self) -> InstructionView {
        InstructionView {
            address: self.address,
            bytes: self.bytes@,
            mnemonic: text_of(self.mnemonic),
            op_str: text_of(self.op_str),
            detail: match self.detail {
                Some(detail) => Some(detail@),
                None => None,
            },
        }
    }
}

/// Every instruction by its view.
pub open spec fn instruction_views(list: Seq<Instruction>) -> Seq<InstructionView> {
    list.map_values(|i: Instruction| i@)
}

/// An instruction put together with its operands.
pub open spec fn joined(decoded: DecodedView, operands: Option<Seq<OperandView>>) -> InstructionView {
    InstructionView {
        address: decoded.address,
        bytes: decoded.bytes,
        mnemonic: decoded.mnemonic,
        op_str: decoded.op_str,
        detail: match (decoded.effects, operands) {
            (Some(effects), Some(operands)) => Some(
                DetailView { regs_write: effects.0, groups: effects.1, operands },
            ),
            _ => None,
        },
    }
}

/// The instructions of `code` at `address`.
pub open spec fn disassembly(code: Seq<u8>, address: u64) -> Seq<InstructionView> {
    Seq::new(
        listing(code, address).len(),
        |i: int| joined(listing(code, address)[i], operand_listing(code, address)[i]),
    )
}

fn join(decoded: Decoded, operands: Option<Vec<Operand>>) -> (r: Instruction)
    ensures
        r@ == joined(
            decoded@,
            match operands {
                Some(operands) => Some(operands@.map_values(|op: Operand| op@)),
                None => None,
            },
        ),
{
    let detail = match (decoded.effects, operands) {
        (Some((regs_write, groups)), Some(operands)) => Some(
            Detail { regs_write, groups, operands },
        ),
        _ => None,
    };
    Instruction {
        address: decoded.address,
        bytes: decoded.bytes,
        mnemonic: decoded.mnemonic,
        op_str: decoded.op_str,
        detail,
    }
}

/// Disassembles `code`, which is loaded at `address`.
pub fn disassemble(code: &[u8], address: u64) -> (r: Result<Vec<Instruction>, Error>)
    ensures
        match r {
            Ok(list) => instruction_views(list@) == disassembly(code@, address),
            Err(e) => e == Error::Disassembler,
        },
{
    let disassembler = match construct_capstone() {
        Ok(cs) => Disassembler { cs },
        Err(_) => {
            return Err(Error::Disassembler);
        },
    };
    let mut decoded = match decode(&disassembler, code, address) {
        Ok(decoded) => decoded,
        Err(_) => {
            return Err(Error::Disassembler);
        },
    };
    let mut operands = match decode_operands(&disassembler, code, address) {
        Ok(operands) => operands,
        Err(_) => {
            return Err(Error::Disassembler);
        },
    };
    let ghost all = disassembly(code@, address);
    let ghost decoded_all = decoded@;
    let ghost operands_all = operands@;
    assert(decoded_views(decoded_all).len() == decoded_all.len());
    let mut reversed: Vec<Instruction> = Vec::new();
    while decoded.len() > 0
        invariant
            decoded_views(decoded_all) == listing(code@, address),
            operand_views(operands_all) == operand_listing(code@, address),
            decoded_all.len() == operands_all.len(),
            all == disassembly(code@, address),
            decoded@.len() <= decoded_all.len(),
            decoded@ == decoded_all.take(decoded@.len() as int),
            operands@ == operands_all.take(decoded@.len() as int),
            reversed@.len() == all.len() - decoded@.len(),
            all.len() == decoded_all.len(),
            forall|k: int|
                0 <= k < reversed@.len() ==> (#[trigger] reversed@[k])@ == all[all.len() - 1 - k],
        decreases decoded@.len(),
    {
        let ghost n = decoded@.len() - 1;
        if let Some(d) = decoded.pop() {
            if let Some(ops) = operands.pop() {
                assert(decoded_views(decoded_all)[n] == d@);
                assert(operand_views(operands_all)[n] == operand_listing(code@, address)[n]);
                reversed.push(join(d, ops));
            }
        }
    }
    let mut list: Vec<Instruction> = Vec::new();
    let ghost reversed_all = reversed@;
    while reversed.len() > 0
        invariant
            reversed_all.len() == all.len(),
            reversed@.len() <= all.len(),
            reversed@ == reversed_all.take(reversed@.len() as int),
            list@.len() == all.len() - reversed@.len(),
            forall|k: int|
                0 <= k < reversed_all.len() ==> (#[trigger] reversed_all[k])@ == all[all.len() - 1
                    - k],
            forall|k: int| 0 <= k < list@.len() ==> (#[trigger] list@[k])@ == all[k],
        decreases reversed@.len(),
    {
        let ghost n = reversed@.len() - 1;
        if let Some(i) = reversed.pop() {
            assert(i == reversed_all[n]);
            list.push(i);
        }
    }
    assert(instruction_views(list@) =~= all);
    Ok(list)
}

/// The instructions are those of the listing, in its order, each with its own operands. One without
/// details of either kind has none.
pub proof fn law_instructions_keep_their_details(code: Seq<u8>, address: u64, k: int)
    requires
        0 <= k < listing(code, address).len(),
    ensures
        ({
            let all = disassembly(code, address);
            let listed = listing(code, address)[k];
            let operands = operand_listing(code, address)[k];
            &&& all.len() == listing(code, address).len()
            &&& all[k].address == listed.address
            &&& all[k].bytes == listed.bytes
            &&& all[k].mnemonic == listed.mnemonic
            &&& all[k].op_str == listed.op_str
            &&& all[k].detail is Some <==> listed.effects is Some && operands is Some
            &&& all[k].detail is Some ==> all[k].detail->Some_0.regs_write
                == listed.effects->Some_0.0 && all[k].detail->Some_0.groups
                == listed.effects->Some_0.1 && all[k].detail->Some_0.operands == operands->Some_0
        }),
{
}

} // verus!
