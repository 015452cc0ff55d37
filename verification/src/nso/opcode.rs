//! What instructions are, and what their operands hold.

use vstd::prelude::*;

use crate::bytes;
use crate::error::Error;
use crate::nso::disasm::{Detail, DetailView, Operand, OperandView};
use crate::reference_tracker::DataRefType;
use crate::strings::{self, text_begins_with, text_eq};

verus! {

// Register numbers of `capstone::arch::arm64::Arm64Reg`. X29 and X30 are numbered apart from the
// others, as the frame pointer and the link register.
pub const REG_X29: u16 = 2;

pub const REG_X30: u16 = 3;

pub const REG_SP: u16 = 5;

pub const REG_W0: u16 = 187;

pub const REG_W28: u16 = 215;

pub const REG_W29: u16 = 216;

pub const REG_W30: u16 = 217;

pub const REG_X0: u16 = 218;

pub const REG_X16: u16 = 234;

pub const REG_X17: u16 = 235;

pub const REG_X28: u16 = 246;

/// The 64-bit integer register that a write to `reg` changes, if it changes one.
pub open spec fn widened(reg: u16) -> Option<u16> {
    if REG_X0 <= reg <= REG_X28 || reg == REG_X29 || reg == REG_X30 {
        Some(reg)
    } else if REG_W0 <= reg <= REG_W28 {
        Some((reg - REG_W0 + REG_X0) as u16)
    } else if reg == REG_W29 || reg == REG_W30 {
        Some((reg - REG_W29 + REG_X29) as u16)
    } else {
        None
    }
}

pub fn widen(reg: u16) -> (r: Option<u16>)
    ensures
        r == widened(reg),
{
    if REG_X0 <= reg && reg <= REG_X28 {
        Some(reg)
    } else if reg == REG_X29 || reg == REG_X30 {
        Some(reg)
    } else if REG_W0 <= reg && reg <= REG_W28 {
        Some(reg - REG_W0 + REG_X0)
    } else if reg == REG_W29 || reg == REG_W30 {
        Some(reg - REG_W29 + REG_X29)
    } else {
        None
    }
}

/// The instructions that the analysis tells apart.
#[derive(Clone, Copy, Debug, PartialEq, Eq, Structural)]
pub enum Opcode {
    /// Data that is no instruction.
    Byte,
    Blr,
    Br,
    Bl,
    B,
    /// `tbz`, `tbnz`
    TestBranch,
    /// `cbz`, `cbnz`
    CompareBranch,
    /// `b.eq`, `b.ne`, ...
    ConditionalBranch,
    Ret,
    Adr,
    Adrp,
    Add,
    Ldr,
    Str,
    /// `ldrh`, `strh`, `ldrsh`
    HalfAccess,
    /// `ldrb`, `strb`
    ByteAccess,
    Mov,
    Stp,
    Nop,
    Other,
}

impl Opcode {
    /// A load or store through a base register.
    pub open spec fn is_access(self) -> bool {
        self == Opcode::Ldr || self == Opcode::Str || self == Opcode::HalfAccess || self
            == Opcode::ByteAccess
    }

    /// A branch that does not come back.
    pub open spec fn ends_block(self) -> bool {
        self == Opcode::Br || self == Opcode::B || self == Opcode::TestBranch || self
            == Opcode::CompareBranch || self == Opcode::ConditionalBranch || self == Opcode::Ret
    }
}

/// The opcode that `mnemonic` stands for.
pub open spec fn opcode(mnemonic: Seq<char>) -> Opcode {
    if mnemonic == ".byte"@ {
        Opcode::Byte
    } else if mnemonic == "blr"@ {
        Opcode::Blr
    } else if mnemonic == "br"@ {
        Opcode::Br
    } else if mnemonic == "bl"@ {
        Opcode::Bl
    } else if mnemonic == "b"@ {
        Opcode::B
    } else if mnemonic == "tbz"@ || mnemonic == "tbnz"@ {
        Opcode::TestBranch
    } else if mnemonic == "cbz"@ || mnemonic == "cbnz"@ {
        Opcode::CompareBranch
    } else if strings::begins_with(mnemonic, "b."@) {
        Opcode::ConditionalBranch
    } else if mnemonic == "ret"@ {
        Opcode::Ret
    } else if mnemonic == "adr"@ {
        Opcode::Adr
    } else if mnemonic == "adrp"@ {
        Opcode::Adrp
    } else if mnemonic == "add"@ {
        Opcode::Add
    } else if mnemonic == "ldr"@ {
        Opcode::Ldr
    } else if mnemonic == "str"@ {
        Opcode::Str
    } else if mnemonic == "ldrh"@ || mnemonic == "strh"@ || mnemonic == "ldrsh"@ {
        Opcode::HalfAccess
    } else if mnemonic == "ldrb"@ || mnemonic == "strb"@ {
        Opcode::ByteAccess
    } else if mnemonic == "mov"@ {
        Opcode::Mov
    } else if mnemonic == "stp"@ {
        Opcode::Stp
    } else if mnemonic == "nop"@ {
        Opcode::Nop
    } else {
        Opcode::Other
    }
}

pub fn opcode_of(mnemonic: &str) -> (r: Opcode)
    ensures
        r == opcode(mnemonic@),
{
    if text_eq(mnemonic, ".byte") {
        Opcode::Byte
    } else if text_eq(mnemonic, "blr") {
        Opcode::Blr
    } else if text_eq(mnemonic, "br") {
        Opcode::Br
    } else if text_eq(mnemonic, "bl") {
        Opcode::Bl
    } else if text_eq(mnemonic, "b") {
        Opcode::B
    } else if text_eq(mnemonic, "tbz") || text_eq(mnemonic, "tbnz") {
        Opcode::TestBranch
    } else if text_eq(mnemonic, "cbz") || text_eq(mnemonic, "cbnz") {
        Opcode::CompareBranch
    } else if text_begins_with(mnemonic, "b.") {
        Opcode::ConditionalBranch
    } else if text_eq(mnemonic, "ret") {
        Opcode::Ret
    } else if text_eq(mnemonic, "adr") {
        Opcode::Adr
    } else if text_eq(mnemonic, "adrp") {
        Opcode::Adrp
    } else if text_eq(mnemonic, "add") {
        Opcode::Add
    } else if text_eq(mnemonic, "ldr") {
        Opcode::Ldr
    } else if text_eq(mnemonic, "str") {
        Opcode::Str
    } else if text_eq(mnemonic, "ldrh") || text_eq(mnemonic, "strh") || text_eq(
        mnemonic,
        "ldrsh",
    ) {
        Opcode::HalfAccess
    } else if text_eq(mnemonic, "ldrb") || text_eq(mnemonic, "strb") {
        Opcode::ByteAccess
    } else if text_eq(mnemonic, "mov") {
        Opcode::Mov
    } else if text_eq(mnemonic, "stp") {
        Opcode::Stp
    } else if text_eq(mnemonic, "nop") {
        Opcode::Nop
    } else {
        Opcode::Other
    }
}

/// The immediate at `idx`, as an address.
pub open spec fn operand_imm(detail: DetailView, idx: int) -> Result<u64, Error> {
    if 0 <= idx < detail.operands.len() {
        match detail.operands[idx] {
            OperandView::Imm(value) => Ok(bytes::wrap64(value as int)),
            _ => Err(Error::UnexpectedOperand),
        }
    } else {
        Err(Error::UnexpectedOperand)
    }
}

/// The register at `idx`, with its name.
pub open spec fn operand_reg(detail: DetailView, idx: int) -> Result<
    (u16, Option<Seq<char>>),
    Error,
> {
    if 0 <= idx < detail.operands.len() {
        match detail.operands[idx] {
            OperandView::Reg(reg, name) => Ok((reg, name)),
            _ => Err(Error::UnexpectedOperand),
        }
    } else {
        Err(Error::UnexpectedOperand)
    }
}

/// The memory operand at `idx`: its base register, the name of that, the displacement.
pub open spec fn operand_mem(detail: DetailView, idx: int) -> Result<
    (u16, Option<Seq<char>>, i32),
    Error,
> {
    if 0 <= idx < detail.operands.len() {
        match detail.operands[idx] {
            OperandView::Mem(base, name, disp) => Ok((base, name, disp)),
            _ => Err(Error::UnexpectedOperand),
        }
    } else {
        Err(Error::UnexpectedOperand)
    }
}

/// The name of the register at `idx`.
pub open spec fn operand_reg_name(detail: DetailView, idx: int) -> Result<Seq<char>, Error> {
    match operand_reg(detail, idx) {
        Ok((_, Some(name))) => Ok(name),
        Ok((_, None)) => Err(Error::UnnamedRegister),
        Err(e) => Err(e),
    }
}

/// What a register of this name holds when it is loaded or stored.
pub open spec fn reg_type(name: Option<Seq<char>>) -> Result<DataRefType, Error> {
    match name {
        None => Err(Error::UnnamedRegister),
        Some(name) => if name == "fp"@ || name == "lr"@ {
            Ok(DataRefType::Int64)
        } else if name.len() == 0 {
            Err(Error::UnsupportedRegister)
        } else if name[0] == 'w' {
            Ok(DataRefType::Int32)
        } else if name[0] == 'x' {
            Ok(DataRefType::Int64)
        } else if name[0] == 'b' {
            Ok(DataRefType::Float8)
        } else if name[0] == 'h' {
            Ok(DataRefType::Float16)
        } else if name[0] == 's' {
            Ok(DataRefType::Float32)
        } else if name[0] == 'd' {
            Ok(DataRefType::Float64)
        } else if name[0] == 'q' {
            Ok(DataRefType::Float128)
        } else {
            Err(Error::UnsupportedRegister)
        },
    }
}

pub fn get_operand_imm(detail: &Detail, idx: usize) -> (r: Result<u64, Error>)
    ensures
        r == operand_imm(detail@, idx as int),
{
    if idx < detail.operands.len() {
        match &detail.operands[idx] {
            Operand::Imm(value) => Ok(bytes::to_u64(*value)),
            _ => Err(Error::UnexpectedOperand),
        }
    } else {
        Err(Error::UnexpectedOperand)
    }
}

pub fn get_operand_reg(detail: &Detail, idx: usize) -> (r: Result<u16, Error>)
    ensures
        r == (match operand_reg(detail@, idx as int) {
            Ok((reg, _)) => Ok::<u16, Error>(reg),
            Err(e) => Err(e),
        }),
{
    if idx < detail.operands.len() {
        match &detail.operands[idx] {
            Operand::Reg(reg, _) => Ok(*reg),
            _ => Err(Error::UnexpectedOperand),
        }
    } else {
        Err(Error::UnexpectedOperand)
    }
}

pub fn get_operand_reg_name(detail: &Detail, idx: usize) -> (r: Result<String, Error>)
    ensures
        match r {
            Ok(name) => operand_reg_name(detail@, idx as int) == Ok::<Seq<char>, Error>(name@),
            Err(e) => operand_reg_name(detail@, idx as int) == Err::<Seq<char>, Error>(e),
        },
{
    if idx < detail.operands.len() {
        match &detail.operands[idx] {
            Operand::Reg(_, Some(name)) => Ok(name.clone()),
            Operand::Reg(_, None) => Err(Error::UnnamedRegister),
            _ => Err(Error::UnexpectedOperand),
        }
    } else {
        Err(Error::UnexpectedOperand)
    }
}

/// Base register and displacement of a memory operand.
pub fn get_operand_mem(detail: &Detail, idx: usize) -> (r: Result<(u16, i32), Error>)
    ensures
        r == (match operand_mem(detail@, idx as int) {
            Ok((base, _, disp)) => Ok::<(u16, i32), Error>((base, disp)),
            Err(e) => Err(e),
        }),
{
    if idx < detail.operands.len() {
        match &detail.operands[idx] {
            Operand::Mem(base, _, disp) => Ok((*base, *disp)),
            _ => Err(Error::UnexpectedOperand),
        }
    } else {
        Err(Error::UnexpectedOperand)
    }
}

/// The name of the base register of a memory operand.
pub fn get_operand_base_name(detail: &Detail, idx: usize) -> (r: Result<String, Error>)
    ensures
        match r {
            Ok(name) => operand_mem(detail@, idx as int) matches Ok((_, Some(base_name), _))
                && base_name == name@,
            Err(e) => match operand_mem(detail@, idx as int) {
                Ok((_, base_name, _)) => base_name is None && e == Error::UnnamedRegister,
                Err(other) => e == other,
            },
        },
{
    if idx < detail.operands.len() {
        match &detail.operands[idx] {
            Operand::Mem(_, Some(name), _) => Ok(name.clone()),
            Operand::Mem(_, None, _) => Err(Error::UnnamedRegister),
            _ => Err(Error::UnexpectedOperand),
        }
    } else {
        Err(Error::UnexpectedOperand)
    }
}

/// The type of what the register at `idx` is loaded with or stored to.
pub open spec fn operand_reg_type(detail: DetailView, idx: int) -> Result<DataRefType, Error> {
    match operand_reg(detail, idx) {
        Ok((_, name)) => reg_type(name),
        Err(e) => Err(e),
    }
}

pub fn get_reg_type(detail: &Detail, idx: usize) -> (r: Result<DataRefType, Error>)
    ensures
        r == operand_reg_type(detail@, idx as int),
{
    let name: &String = if idx < detail.operands.len() {
        match &detail.operands[idx] {
            Operand::Reg(_, Some(name)) => name,
            Operand::Reg(_, None) => {
                return Err(Error::UnnamedRegister);
            },
            _ => {
                return Err(Error::UnexpectedOperand);
            },
        }
    } else {
        return Err(Error::UnexpectedOperand);
    };
    let name = name.as_str();
    if text_eq(name, "fp") || text_eq(name, "lr") {
        return Ok(DataRefType::Int64);
    }
    if name.is_empty() {
        return Err(Error::UnsupportedRegister);
    }
    match name.get_char(0) {
        'w' => Ok(DataRefType::Int32),
        'x' => Ok(DataRefType::Int64),
        'b' => Ok(DataRefType::Float8),
        'h' => Ok(DataRefType::Float16),
        's' => Ok(DataRefType::Float32),
        'd' => Ok(DataRefType::Float64),
        'q' => Ok(DataRefType::Float128),
        _ => Err(Error::UnsupportedRegister),
    }
}

/// Mnemonics by what they stand for. All that begin with `b.` are branches on a condition.
pub proof fn lemma_mnemonics()
    ensures
        opcode(".byte"@) == Opcode::Byte,
        opcode("blr"@) == Opcode::Blr,
        opcode("br"@) == Opcode::Br,
        opcode("bl"@) == Opcode::Bl,
        opcode("b"@) == Opcode::B,
        opcode("tbz"@) == Opcode::TestBranch,
        opcode("tbnz"@) == Opcode::TestBranch,
        opcode("cbz"@) == Opcode::CompareBranch,
        opcode("cbnz"@) == Opcode::CompareBranch,
        opcode("ret"@) == Opcode::Ret,
        opcode("adr"@) == Opcode::Adr,
        opcode("adrp"@) == Opcode::Adrp,
        opcode("add"@) == Opcode::Add,
        opcode("ldr"@) == Opcode::Ldr,
        opcode("str"@) == Opcode::Str,
        opcode("ldrh"@) == Opcode::HalfAccess,
        opcode("strh"@) == Opcode::HalfAccess,
        opcode("ldrsh"@) == Opcode::HalfAccess,
        opcode("ldrb"@) == Opcode::ByteAccess,
        opcode("strb"@) == Opcode::ByteAccess,
        opcode("mov"@) == Opcode::Mov,
        opcode("stp"@) == Opcode::Stp,
        opcode("nop"@) == Opcode::Nop,
        forall|condition: Seq<char>| #[trigger]
            opcode("b."@ + condition) == Opcode::ConditionalBranch,
{
    reveal_strlit(".byte");
    reveal_strlit("blr");
    reveal_strlit("br");
    reveal_strlit("bl");
    reveal_strlit("b");
    reveal_strlit("tbz");
    reveal_strlit("tbnz");
    reveal_strlit("cbz");
    reveal_strlit("cbnz");
    reveal_strlit("ret");
    reveal_strlit("adr");
    reveal_strlit("adrp");
    reveal_strlit("add");
    reveal_strlit("ldr");
    reveal_strlit("str");
    reveal_strlit("ldrh");
    reveal_strlit("strh");
    reveal_strlit("ldrsh");
    reveal_strlit("ldrb");
    reveal_strlit("strb");
    reveal_strlit("mov");
    reveal_strlit("stp");
    reveal_strlit("nop");
    reveal_strlit("b.");
    assert forall|m: Seq<char>| m.len() >= 2 && #[trigger] m.take(2) == "b."@ implies m[0] == 'b' && m[1]
        == '.' by {
        assert(m.take(2)[0] == m[0] && m.take(2)[1] == m[1]);
    }
    assert(".byte"@.len() == 5 && ".byte"@[0] == '.' && ".byte"@[1] == 'b' && ".byte"@[2] == 'y' && ".byte"@[3] == 't' && ".byte"@[4] == 'e');
    assert("blr"@.len() == 3 && "blr"@[0] == 'b' && "blr"@[1] == 'l' && "blr"@[2] == 'r');
    assert("br"@.len() == 2 && "br"@[0] == 'b' && "br"@[1] == 'r');
    assert("bl"@.len() == 2 && "bl"@[0] == 'b' && "bl"@[1] == 'l');
    assert("b"@.len() == 1 && "b"@[0] == 'b');
    assert("tbz"@.len() == 3 && "tbz"@[0] == 't' && "tbz"@[1] == 'b' && "tbz"@[2] == 'z');
    assert("tbnz"@.len() == 4 && "tbnz"@[0] == 't' && "tbnz"@[1] == 'b' && "tbnz"@[2] == 'n' && "tbnz"@[3] == 'z');
    assert("cbz"@.len() == 3 && "cbz"@[0] == 'c' && "cbz"@[1] == 'b' && "cbz"@[2] == 'z');
    assert("cbnz"@.len() == 4 && "cbnz"@[0] == 'c' && "cbnz"@[1] == 'b' && "cbnz"@[2] == 'n' && "cbnz"@[3] == 'z');
    assert("ret"@.len() == 3 && "ret"@[0] == 'r' && "ret"@[1] == 'e' && "ret"@[2] == 't');
    assert("adr"@.len() == 3 && "adr"@[0] == 'a' && "adr"@[1] == 'd' && "adr"@[2] == 'r');
    assert("adrp"@.len() == 4 && "adrp"@[0] == 'a' && "adrp"@[1] == 'd' && "adrp"@[2] == 'r' && "adrp"@[3] == 'p');
    assert("add"@.len() == 3 && "add"@[0] == 'a' && "add"@[1] == 'd' && "add"@[2] == 'd');
    assert("ldr"@.len() == 3 && "ldr"@[0] == 'l' && "ldr"@[1] == 'd' && "ldr"@[2] == 'r');
    assert("str"@.len() == 3 && "str"@[0] == 's' && "str"@[1] == 't' && "str"@[2] == 'r');
    assert("ldrh"@.len() == 4 && "ldrh"@[0] == 'l' && "ldrh"@[1] == 'd' && "ldrh"@[2] == 'r' && "ldrh"@[3] == 'h');
    assert("strh"@.len() == 4 && "strh"@[0] == 's' && "strh"@[1] == 't' && "strh"@[2] == 'r' && "strh"@[3] == 'h');
    assert("ldrsh"@.len() == 5 && "ldrsh"@[0] == 'l' && "ldrsh"@[1] == 'd' && "ldrsh"@[2] == 'r' && "ldrsh"@[3] == 's' && "ldrsh"@[4] == 'h');
    assert("ldrb"@.len() == 4 && "ldrb"@[0] == 'l' && "ldrb"@[1] == 'd' && "ldrb"@[2] == 'r' && "ldrb"@[3] == 'b');
    assert("strb"@.len() == 4 && "strb"@[0] == 's' && "strb"@[1] == 't' && "strb"@[2] == 'r' && "strb"@[3] == 'b');
    assert("mov"@.len() == 3 && "mov"@[0] == 'm' && "mov"@[1] == 'o' && "mov"@[2] == 'v');
    assert("stp"@.len() == 3 && "stp"@[0] == 's' && "stp"@[1] == 't' && "stp"@[2] == 'p');
    assert("nop"@.len() == 3 && "nop"@[0] == 'n' && "nop"@[1] == 'o' && "nop"@[2] == 'p');
    assert forall|condition: Seq<char>| #[trigger]
        opcode("b."@ + condition) == Opcode::ConditionalBranch by {
        let mnemonic = "b."@ + condition;
        assert(mnemonic[0] == 'b' && mnemonic[1] == '.');
        assert(mnemonic.take(2) =~= "b."@);
    }
}

/// A write to the lower half of an integer register changes the whole of it, and a write to the whole
/// of it does too. No other register is part of an integer register.
pub proof fn law_halves_change_the_whole_register(n: u16)
    ensures
        n <= 28 ==> widened((187 + n) as u16) == Some((218 + n) as u16),
        n <= 28 ==> widened((218 + n) as u16) == Some((218 + n) as u16),
        widened(216) == Some(2u16) && widened(2) == Some(2u16),
        widened(217) == Some(3u16) && widened(3) == Some(3u16),
        widened(n) is Some ==> 187 <= n <= 246 || n == 2 || n == 3,
        widened(n) matches Some(wide) ==> widened(wide) == Some(wide),
{
}

/// The letter that the name of a register begins with says how much it holds, and whether that is a
/// floating-point number. Only the frame pointer and the link register are known by their names.
pub proof fn law_letters_tell_the_size(rest: Seq<char>)
    requires
        rest.len() > 0,
        rest[0] != 'p',
        rest[0] != 'r',
    ensures
        reg_type(Some(seq!['b'] + rest)) == Ok::<DataRefType, Error>(DataRefType::Float8),
        reg_type(Some(seq!['h'] + rest)) == Ok::<DataRefType, Error>(DataRefType::Float16),
        reg_type(Some(seq!['s'] + rest)) == Ok::<DataRefType, Error>(DataRefType::Float32),
        reg_type(Some(seq!['w'] + rest)) == Ok::<DataRefType, Error>(DataRefType::Int32),
        reg_type(Some(seq!['d'] + rest)) == Ok::<DataRefType, Error>(DataRefType::Float64),
        reg_type(Some(seq!['x'] + rest)) == Ok::<DataRefType, Error>(DataRefType::Int64),
        reg_type(Some(seq!['q'] + rest)) == Ok::<DataRefType, Error>(DataRefType::Float128),
        reg_type(Some("fp"@)) == Ok::<DataRefType, Error>(DataRefType::Int64),
        reg_type(Some("lr"@)) == Ok::<DataRefType, Error>(DataRefType::Int64),
        reg_type(Some(Seq::empty())) is Err,
        reg_type(None) is Err,
{
    reveal_strlit("fp");
    reveal_strlit("lr");
    assert(forall|c: char| (#[trigger] (seq![c] + rest))[0] == c);
    assert(forall|c: char| (#[trigger] (seq![c] + rest))[1] == rest[0]);
}

/// An operand is found at its place, and only if it is of the kind that is asked for. Immediates are
/// taken as addresses: negative ones wrap around.
pub proof fn law_operands_are_found_at_their_place(detail: DetailView, idx: int)
    ensures
        operand_imm(detail, idx) is Ok <==> 0 <= idx < detail.operands.len()
            && detail.operands[idx] is Imm,
        operand_imm(detail, idx) matches Ok(v) ==> detail.operands[idx] matches OperandView::Imm(x)
            && (v == x || v == x + 0x1_0000_0000_0000_0000),
        operand_reg(detail, idx) is Ok <==> 0 <= idx < detail.operands.len()
            && detail.operands[idx] is Reg,
        operand_reg(detail, idx) matches Ok((reg, name)) ==> detail.operands[idx]
            == OperandView::Reg(reg, name),
        operand_mem(detail, idx) is Ok <==> 0 <= idx < detail.operands.len()
            && detail.operands[idx] is Mem,
        operand_mem(detail, idx) matches Ok((base, name, disp)) ==> detail.operands[idx]
            == OperandView::Mem(base, name, disp),
        operand_reg_name(detail, idx) matches Ok(name) ==> detail.operands[idx]
            matches OperandView::Reg(_, known) && known == Some(name),
{
}

} // verus!
