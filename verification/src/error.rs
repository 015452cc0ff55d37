//! The one error type of the library.

use vstd::prelude::*;

verus! {

/// Why an operation was refused.
#[derive(Clone, Copy, Debug, PartialEq, Eq, Structural)]
pub enum Error {
    /// A read runs past the end of its data.
    UnexpectedEnd,
    /// A range lies outside of the data it selects from.
    OutOfBounds,
    /// An address computation leaves the 64-bit range.
    Overflow,
    /// A file or structure does not begin as it has to.
    BadMagic,
    /// The version of a structure is not supported.
    UnsupportedVersion,
    /// Reserved bytes are not zero.
    ReservedNotZero,
    /// A compressed segment cannot be unpacked.
    BadCompression,
    /// A segment unpacks to another size than the header says.
    DecompressedSizeMismatch,
    /// The digest of a segment is not the one in the header.
    HashMismatch,
    /// The segments are not in the expected order.
    SegmentsOutOfOrder,
    /// A section would overlap one that is known already.
    SectionOccupied,
    /// There is a section of this type already.
    SectionRepeated,
    /// Some addresses do not belong to any section.
    SectionUnknown,
    /// A section that is needed is not there.
    SectionMissing,
    /// A symbol has an unknown kind of binding.
    BadSymbolBind,
    /// A symbol is of an unknown type.
    BadSymbolType,
    /// A symbol has an unknown kind of visibility.
    BadSymbolVisibility,
    /// An entry of the `.dynamic` section is of an unknown kind.
    BadDynamicTag,
    /// A relocation is of an unknown type.
    BadRelocationType,
    /// The string table has no name for a symbol.
    SymbolWithoutName,
    /// The module description contradicts itself.
    BadModule,
    /// An entry that is needed is not in the `.dynamic` section.
    DynamicTagMissing,
    /// An entry occurs more than once in the `.dynamic` section.
    DynamicTagRepeated,
    /// Relocations are not of the expected size.
    BadRelocationSize,
    /// The build string is not laid out as expected.
    BadBuildString,
    /// A number is stored in a way that is not supported.
    UnsupportedEncoding,
    /// The `.eh_frame_hdr` section cannot be read.
    BadEhFrameHdr,
    /// An entry of the `.eh_frame` section cannot be read.
    BadEhFrame,
    /// The first entry of the `.eh_frame` section has to be a common one.
    FirstEntryNotCommon,
    /// A frame cannot be read.
    BadFrame,
    /// An instruction of a frame cannot be read.
    BadCfiInstruction,
    /// An instruction of a frame is not supported.
    UnsupportedCfiInstruction,
    /// A frame refers to a register that has no known name.
    UnsupportedFrameRegister { register: u16 },
    /// A section has no bytes.
    EmptySection,
    /// The `.eh_frame_hdr` section is not as long as the module says.
    BadEhFrameHdrSize,
    /// Two relocations are about the same address.
    DuplicateRelocation,
    /// The symbol table ends before the symbol.
    SymbolMissing,
    /// The address is not in the global offset table.
    NotInGot,
    /// Nothing at the address refers to anything.
    NoReference { address: u64 },
    /// The address refers to something of which nothing is known.
    TargetWithoutType { address: u64 },
    /// A reference to a symbol has an addend where none may be.
    UnexpectedAddend,
    /// A relative relocation has a negative addend.
    NegativeAddend,
    /// A relocation is of a type that its table may not hold.
    UnsupportedRelocation,
    /// A symbol is of a type that cannot be handled.
    UnsupportedSymbol,
    /// The data does not hold what refers to the target of its reference.
    DataMismatch { address: u64 },
    /// Data that holds a pointer is of a type that cannot.
    NotAPointer { address: u64 },
    /// Data is of a type that cannot be written.
    UnsupportedDataType,
    /// It is not known how a floating-point number is written.
    FloatWithoutText { address: u64 },
    /// A jump table has no entries.
    EmptyJumpTable { address: u64 },
    /// Something refers into data that is written as one piece.
    MissedReference { address: u64 },
    /// The last entry of a piece of data does not end where the piece does.
    ChunkOverrun { address: u64 },
    /// A text is not a hexadecimal number of at most 64 bits.
    BadNumber,
    /// An object has no functions.
    NoText,
    /// Something refers to an address that nothing should refer to.
    UnexpectedReference { address: u64 },
    /// Nothing refers to an address that something should refer to.
    Unreferenced { address: u64 },
    /// There is a symbol for an address that should have none.
    UnexpectedSymbol { address: u64 },
    /// The disassembler does not say what the operands of an instruction are.
    NoOperands { address: u64 },
    /// A section holds what an object cannot refer to.
    UnhandledSection,
    /// A function has no name.
    NoLabel,
    /// The disassembler could not be run.
    Disassembler,
    /// Instructions do not follow each other.
    MisplacedInstruction,
    /// Code is not part of any basic block.
    GapsBetweenBlocks,
    /// An instruction has no mnemonic.
    NoMnemonic { address: u64 },
    /// An instruction has no details.
    NoDetail { address: u64 },
    /// A jump with an unknown mnemonic.
    UnhandledJump { address: u64 },
    /// A call with an unknown mnemonic.
    UnhandledCall { address: u64 },
    /// An instruction belongs to no block.
    NoBlock { address: u64 },
    /// A branch is not the last instruction of its block.
    BranchInsideBlock { address: u64 },
    /// `adr` instructions are not handled.
    UnhandledAdr { address: u64 },
    /// A load or store of this width goes with an integer register only.
    UnexpectedRegisterType { address: u64 },
    /// Control goes on where there is no block.
    BlockNotFound { address: u64 },
    /// No use of the page address that the `adrp` at this address loads was found.
    UnusedAdrp { address: u64 },
    /// An operand is missing or of another kind than the instruction calls for.
    UnexpectedOperand,
    /// The disassembler has no name for a register.
    UnnamedRegister,
    /// The name of a register does not tell what it holds.
    UnsupportedRegister,
    /// The stubs of the `.plt` section do not lead to the entries of the `.got.plt` section.
    PltTargetMismatch,
    /// The first entry of the `.plt` section is not as expected.
    BadPltHeader,
    /// References from this place are void, but one of another kind starts there too.
    VoidSource { source: u64 },
    /// An entry of the init array and its relocation point to different places.
    InitArrayConflict { source: u64 },
    /// Two references of different kinds start at one place.
    SourceTypeConflict { source: u64 },
    /// Two references from one place have different targets.
    TargetConflict { source: u64 },
}

} // verus!
