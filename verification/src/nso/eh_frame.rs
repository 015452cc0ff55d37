//! Exception handling frames: how to unwind each function.

use std::collections::{BTreeMap, HashMap, VecDeque};

use gimli::CallFrameInstruction::{AdvanceLoc, DefCfa, DefCfaOffset, Nop, Offset};
use gimli::CieOrFde::{Cie, Fde};
use gimli::{
    BaseAddresses, EhFrame as GimliEhFrame, EhFrameHdr as GimliEhFrameHdr, Error as GimliError,
    LittleEndian, UnwindSection,
};
use vstd::prelude::*;
use vstd::slice::*;

use crate::bytes::{self, read_u16, read_u32, read_u64, to_i64};
use crate::error::Error;
use crate::fmt::{self, format_decimal, format_decimal_signed};
use crate::nso::section_map::{self, SectionMap, SectionType};
use crate::nso::tables::Module;
use crate::nso::text::TextSection;
use crate::ordered::{self, ordered_keys};

use self::CfiInstruction::{Advance, Cfa, CfaOffset, Nothing, Other, Saved};

verus! {

/// `gimli::Error`, kept opaque.
#[verifier::external_type_specification]
#[verifier::external_body]
pub struct ExGimliError(GimliError);

/// An entry of the `.eh_frame` section.
#[derive(Clone, Copy, Debug, PartialEq, Eq, Structural)]
pub enum FrameEntry {
    /// What is common to the frames that refer to it.
    Cie,
    /// A frame: its start, its length, and the factor of its data offsets.
    Fde(u64, u64, i64),
    /// A frame that cannot be read, or whose common entry cannot be.
    BadFde,
}

/// A call frame instruction.
#[derive(Clone, Copy, Debug, PartialEq, Eq, Structural)]
pub enum CfiInstruction {
    Advance(u32),
    Cfa(u16, u64),
    CfaOffset(u64),
    /// Register, factored offset.
    Saved(u16, u64),
    Nothing,
    Other,
}

/// The addresses that pointers in the `.eh_frame` section may be relative to.
#[derive(Clone, Copy, Debug, PartialEq, Eq, Structural)]
pub struct Bases {
    pub eh_frame_hdr: u64,
    pub text: u64,
    pub got: u64,
    pub eh_frame: u64,
}

/// The address of the `.eh_frame` section that the `.eh_frame_hdr` section at the front of `section`
/// gives, if it can be read. The base of the `.eh_frame` section itself is of no account.
pub uninterp spec fn eh_frame_pointer(section: Seq<u8>, bases: Bases) -> Option<u64>;

/// The entries of the `.eh_frame` section at the front of `section`. `None` where an entry cannot be
/// read. The base of the `.eh_frame_hdr` section is of no account.
pub uninterp spec fn frame_entries(section: Seq<u8>, bases: Bases) -> Seq<Option<FrameEntry>>;

/// The instructions of each entry of the `.eh_frame` section at the front of `section`, which only
/// frames have. `None` where an instruction cannot be read. The base of the `.eh_frame_hdr` section is
/// of no account.
pub uninterp spec fn frame_instructions(section: Seq<u8>, bases: Bases) -> Seq<
    Seq<Option<CfiInstruction>>,
>;

/// The instruction lists by their views.
pub open spec fn instruction_lists(lists: Seq<Vec<Option<CfiInstruction>>>) -> Seq<
    Seq<Option<CfiInstruction>>,
> {
    lists.map_values(|list: Vec<Option<CfiInstruction>>| list@)
}

/// `gimli::EhFrameHdr::parse` for 64-bit addresses: the pointer to the `.eh_frame` section.
#[verifier::external_body]
fn read_eh_frame_pointer(section: &[u8], at: Bases) -> (r: Result<u64, GimliError>)
    ensures
        match r {
            Ok(pointer) => eh_frame_pointer(section@, at) == Some(pointer),
            Err(_) => eh_frame_pointer(section@, at) is None,
        },
{
    let bases = BaseAddresses::default()
        .set_eh_frame_hdr(at.eh_frame_hdr).set_text(at.text).set_got(at.got);
    let header = GimliEhFrameHdr::new(section, LittleEndian).parse(&bases, 8)?;
    Ok(header.eh_frame_ptr().pointer())
}

/// `gimli::EhFrame::entries` for 64-bit addresses: the entries in their order, up to the first one that
/// cannot be read. Frames are read with their common entry by
/// `gimli::UnwindSection::cie_from_offset`. The size of addresses is set by
/// `gimli::EhFrame::set_address_size`, so that it is the same on every machine.
#[verifier::external_body]
fn read_entries(section: &[u8], at: Bases) -> (r: Vec<Option<FrameEntry>>)
    ensures
        r@ == frame_entries(section@, at),
{
    let bases = BaseAddresses::default()
        .set_text(at.text).set_got(at.got).set_eh_frame(at.eh_frame);
    let mut eh_frame = GimliEhFrame::new(section, LittleEndian);
    eh_frame.set_address_size(8);
    eh_frame.entries(&bases).map(|entry| entry.ok().map(|entry| match entry {
        Cie(_) => FrameEntry::Cie,
        Fde(partial) => match partial.parse(UnwindSection::cie_from_offset) {
            Ok(f) => FrameEntry::Fde(f.initial_address(), f.len(), f.cie().data_alignment_factor()),
            Err(_) => FrameEntry::BadFde,
        },
    })).collect()
}

/// `gimli::FrameDescriptionEntry::instructions` for 64-bit addresses: the instructions of each entry
/// that [`read_entries`] gives, up to the first one of a frame that cannot be read.
#[verifier::external_body]
fn read_instructions(section: &[u8], at: Bases) -> (r: Vec<Vec<Option<CfiInstruction>>>)
    ensures
        instruction_lists(r@) == frame_instructions(section@, at),
        r@.len() == frame_entries(section@, at).len(),
{
    let bases = BaseAddresses::default()
        .set_text(at.text).set_got(at.got).set_eh_frame(at.eh_frame);
    let mut eh_frame = GimliEhFrame::new(section, LittleEndian);
    eh_frame.set_address_size(8);
    eh_frame.entries(&bases).map(|entry| match entry {
        Ok(Fde(partial)) => partial.parse(UnwindSection::cie_from_offset).into_iter()
            .flat_map(|f| f.instructions(&eh_frame, &bases)).map(|i| Some(match i.ok()? {
                AdvanceLoc { delta } => Advance(delta),
                DefCfa { register, offset } => Cfa(register.0, offset),
                DefCfaOffset { offset } => CfaOffset(offset),
                Offset { register, factored_offset } => Saved(register.0, factored_offset),
                Nop => Nothing,
                _ => Other,
            })).collect(), _ => vec![],
    }).collect()
}

/// How a number in the `.eh_frame_hdr` section is stored.
#[derive(Clone, Copy, Debug, PartialEq, Eq, Structural)]
pub enum ExceptionHeaderValueFormat {
    DW_EH_PE_uleb128,
    DW_EH_PE_udata2,
    DW_EH_PE_udata4,
    DW_EH_PE_udata8,
    DW_EH_PE_sleb128,
    DW_EH_PE_sdata2,
    DW_EH_PE_sdata4,
    DW_EH_PE_sdata8,
    DW_EH_PE_omit,
}

impl ExceptionHeaderValueFormat {
    pub open spec fn decoded(value: u8) -> Result<ExceptionHeaderValueFormat, Error> {
        if value == 0x01 {
            Ok(ExceptionHeaderValueFormat::DW_EH_PE_uleb128)
        } else if value == 0x02 {
            Ok(ExceptionHeaderValueFormat::DW_EH_PE_udata2)
        } else if value == 0x03 {
            Ok(ExceptionHeaderValueFormat::DW_EH_PE_udata4)
        } else if value == 0x04 {
            Ok(ExceptionHeaderValueFormat::DW_EH_PE_udata8)
        } else if value == 0x09 {
            Ok(ExceptionHeaderValueFormat::DW_EH_PE_sleb128)
        } else if value == 0x0A {
            Ok(ExceptionHeaderValueFormat::DW_EH_PE_sdata2)
        } else if value == 0x0B {
            Ok(ExceptionHeaderValueFormat::DW_EH_PE_sdata4)
        } else if value == 0x0C {
            Ok(ExceptionHeaderValueFormat::DW_EH_PE_sdata8)
        } else if value == 0xFF {
            Ok(ExceptionHeaderValueFormat::DW_EH_PE_omit)
        } else {
            Err(Error::UnsupportedEncoding)
        }
    }

    fn decode(value: u8) -> (r: Result<ExceptionHeaderValueFormat, Error>)
        ensures
            r == ExceptionHeaderValueFormat::decoded(value),
    {
        if value == 0x01 {
            Ok(ExceptionHeaderValueFormat::DW_EH_PE_uleb128)
        } else if value == 0x02 {
            Ok(ExceptionHeaderValueFormat::DW_EH_PE_udata2)
        } else if value == 0x03 {
            Ok(ExceptionHeaderValueFormat::DW_EH_PE_udata4)
        } else if value == 0x04 {
            Ok(ExceptionHeaderValueFormat::DW_EH_PE_udata8)
        } else if value == 0x09 {
            Ok(ExceptionHeaderValueFormat::DW_EH_PE_sleb128)
        } else if value == 0x0A {
            Ok(ExceptionHeaderValueFormat::DW_EH_PE_sdata2)
        } else if value == 0x0B {
            Ok(ExceptionHeaderValueFormat::DW_EH_PE_sdata4)
        } else if value == 0x0C {
            Ok(ExceptionHeaderValueFormat::DW_EH_PE_sdata8)
        } else if value == 0xFF {
            Ok(ExceptionHeaderValueFormat::DW_EH_PE_omit)
        } else {
            Err(Error::UnsupportedEncoding)
        }
    }
}

/// What a number in the `.eh_frame_hdr` section is relative to.
#[derive(Clone, Copy, Debug, PartialEq, Eq, Structural)]
pub enum ExceptionHeaderApplication {
    DW_EH_PE_absptr,
    DW_EH_PE_pcrel,
    DW_EH_PE_datarel,
    DW_EH_PE_omit,
}

impl ExceptionHeaderApplication {
    pub open spec fn decoded(value: u8) -> Result<ExceptionHeaderApplication, Error> {
        if value == 0x00 {
            Ok(ExceptionHeaderApplication::DW_EH_PE_absptr)
        } else if value == 0x10 {
            Ok(ExceptionHeaderApplication::DW_EH_PE_pcrel)
        } else if value == 0x30 {
            Ok(ExceptionHeaderApplication::DW_EH_PE_datarel)
        } else if value == 0xFF {
            Ok(ExceptionHeaderApplication::DW_EH_PE_omit)
        } else {
            Err(Error::UnsupportedEncoding)
        }
    }

    fn decode(value: u8) -> (r: Result<ExceptionHeaderApplication, Error>)
        ensures
            r == ExceptionHeaderApplication::decoded(value),
    {
        if value == 0x00 {
            Ok(ExceptionHeaderApplication::DW_EH_PE_absptr)
        } else if value == 0x10 {
            Ok(ExceptionHeaderApplication::DW_EH_PE_pcrel)
        } else if value == 0x30 {
            Ok(ExceptionHeaderApplication::DW_EH_PE_datarel)
        } else if value == 0xFF {
            Ok(ExceptionHeaderApplication::DW_EH_PE_omit)
        } else {
            Err(Error::UnsupportedEncoding)
        }
    }
}

/// The encoding of numbers in the `.eh_frame_hdr` section.
#[derive(Clone, Copy, Debug, PartialEq, Eq, Structural)]
pub struct ExceptionHeaderEncoding {
    pub value: u8,
}

/// The number of `size` bytes at `pos`, with its sign carried over to 64 bits if it `has_sign`.
pub open spec fn stored_number(data: Seq<u8>, pos: int, size: nat, half: int, has_sign: bool) -> Result<
    (u64, int),
    Error,
> {
    match bytes::le_read(data, pos, size) {
        Err(e) => Err(e),
        Ok(value) => Ok(
            (
                bytes::wrap64(
                    if has_sign {
                        bytes::signed(value, half)
                    } else {
                        value
                    },
                ),
                pos + size,
            ),
        ),
    }
}

impl ExceptionHeaderEncoding {
    pub open spec fn value_format(self) -> Result<ExceptionHeaderValueFormat, Error> {
        ExceptionHeaderValueFormat::decoded(self.value & 0x0F)
    }

    pub open spec fn application(self) -> Result<ExceptionHeaderApplication, Error> {
        ExceptionHeaderApplication::decoded(self.value & 0xF0)
    }

    /// The number at `pos` as it is stored, and the place behind it.
    #[verifier::opaque]
    pub open spec fn stored(self, data: Seq<u8>, pos: int) -> Result<(u64, int), Error> {
        match self.value_format() {
            Err(e) => Err(e),
            Ok(format) => match format {
                ExceptionHeaderValueFormat::DW_EH_PE_udata2 => stored_number(
                    data,
                    pos,
                    2,
                    0x8000,
                    false,
                ),
                ExceptionHeaderValueFormat::DW_EH_PE_udata4 => stored_number(
                    data,
                    pos,
                    4,
                    0x8000_0000,
                    false,
                ),
                ExceptionHeaderValueFormat::DW_EH_PE_udata8 => stored_number(
                    data,
                    pos,
                    8,
                    0x8000_0000_0000_0000,
                    false,
                ),
                ExceptionHeaderValueFormat::DW_EH_PE_sdata2 => stored_number(
                    data,
                    pos,
                    2,
                    0x8000,
                    true,
                ),
                ExceptionHeaderValueFormat::DW_EH_PE_sdata4 => stored_number(
                    data,
                    pos,
                    4,
                    0x8000_0000,
                    true,
                ),
                ExceptionHeaderValueFormat::DW_EH_PE_sdata8 => stored_number(
                    data,
                    pos,
                    8,
                    0x8000_0000_0000_0000,
                    true,
                ),
                _ => Err(Error::UnsupportedEncoding),
            },
        }
    }

    /// The number at `pos` of a section at `hdr_offset`, and the place behind it.
    pub open spec fn number_at(self, data: Seq<u8>, pos: int, hdr_offset: u64) -> Result<
        (u64, int),
        Error,
    > {
        match self.stored(data, pos) {
            Err(e) => Err(e),
            Ok((value, next)) => match self.application() {
                Err(e) => Err(e),
                Ok(ExceptionHeaderApplication::DW_EH_PE_absptr) => Ok((value, next)),
                Ok(ExceptionHeaderApplication::DW_EH_PE_pcrel) => Ok(
                    (bytes::wrap64(value + bytes::wrap64(hdr_offset + next)), next),
                ),
                Ok(ExceptionHeaderApplication::DW_EH_PE_datarel) => Ok(
                    (bytes::wrap64(value + hdr_offset), next),
                ),
                Ok(ExceptionHeaderApplication::DW_EH_PE_omit) => Err(Error::UnsupportedEncoding),
            },
        }
    }

    pub fn get_value_format(&self) -> (r: Result<ExceptionHeaderValueFormat, Error>)
        ensures
            r == self.value_format(),
    {
        ExceptionHeaderValueFormat::decode(self.value & 0x0F)
    }

    pub fn get_application(&self) -> (r: Result<ExceptionHeaderApplication, Error>)
        ensures
            r == self.application(),
    {
        ExceptionHeaderApplication::decode(self.value & 0xF0)
    }

    fn read_stored(&self, data: &[u8], pos: usize) -> (r: Result<(u64, usize), Error>)
        ensures
            match r {
                Ok((value, next)) => self.stored(data@, pos as int) == Ok::<(u64, int), Error>(
                    (value, next as int),
                ) && pos + 2 <= next <= data@.len(),
                Err(e) => self.stored(data@, pos as int) == Err::<(u64, int), Error>(e),
            },
    {
        reveal(ExceptionHeaderEncoding::stored);
        let length: usize = data.len();
        match self.get_value_format()? {
            ExceptionHeaderValueFormat::DW_EH_PE_udata2 => {
                let value: u16 = read_u16(data, pos)?;
                Ok((value as u64, pos + 2))
            },
            ExceptionHeaderValueFormat::DW_EH_PE_udata4 => {
                let value: u32 = read_u32(data, pos)?;
                Ok((value as u64, pos + 4))
            },
            ExceptionHeaderValueFormat::DW_EH_PE_udata8 => {
                let value: u64 = read_u64(data, pos)?;
                Ok((value, pos + 8))
            },
            ExceptionHeaderValueFormat::DW_EH_PE_sdata2 => {
                let value: u16 = read_u16(data, pos)?;
                let wide: i64 = if value < 0x8000 {
                    value as i64
                } else {
                    value as i64 - 0x1_0000
                };
                Ok((bytes::to_u64(wide), pos + 2))
            },
            ExceptionHeaderValueFormat::DW_EH_PE_sdata4 => {
                let value: u32 = read_u32(data, pos)?;
                Ok((bytes::to_u64(bytes::to_i32(value) as i64), pos + 4))
            },
            ExceptionHeaderValueFormat::DW_EH_PE_sdata8 => {
                let value: u64 = read_u64(data, pos)?;
                Ok((bytes::to_u64(to_i64(value)), pos + 8))
            },
            _ => Err(Error::UnsupportedEncoding),
        }
    }

    /// Reads the number at `pos` of a section that is at `hdr_offset` in memory. Gives the number and
    /// the place behind it.
    pub fn read(&self, data: &[u8], pos: usize, hdr_offset: u64) -> (r: Result<(u64, usize), Error>)
        ensures
            match r {
                Ok((value, next)) => self.number_at(data@, pos as int, hdr_offset) == Ok::<
                    (u64, int),
                    Error,
                >((value, next as int)) && pos + 2 <= next <= data@.len(),
                Err(e) => self.number_at(data@, pos as int, hdr_offset) == Err::<
                    (u64, int),
                    Error,
                >(e),
            },
    {
        let (value, next): (u64, usize) = self.read_stored(data, pos)?;
        match self.get_application()? {
            ExceptionHeaderApplication::DW_EH_PE_absptr => Ok((value, next)),
            ExceptionHeaderApplication::DW_EH_PE_pcrel => {
                let base: u64 = bytes::wrapping_sum(hdr_offset, next as u64);
                Ok((bytes::wrapping_sum(value, base), next))
            },
            ExceptionHeaderApplication::DW_EH_PE_datarel => Ok(
                (bytes::wrapping_sum(value, hdr_offset), next),
            ),
            ExceptionHeaderApplication::DW_EH_PE_omit => Err(Error::UnsupportedEncoding),
        }
    }
}

/// A step in unwinding a function.
#[allow(inconsistent_fields)]
#[derive(Clone, Copy, Debug, PartialEq, Eq, Structural)]
pub enum EhFrameInstruction {
    AdvanceLoc { delta: u32 },
    DefCfa { register: u16, offset: u64 },
    DefCfaOffset { offset: u64 },
    Offset { register: u16, offset: i64 },
    Nop,
}

/// How to unwind one function.
#[derive(Debug)]
pub struct EhFrameEntry {
    start: u64,
    len: u64,
    instructions: Vec<EhFrameInstruction>,
}

/// What an [`EhFrameEntry`] says.
#[verifier::ext_equal]
pub struct FrameView {
    pub start: u64,
    pub len: u64,
    pub instructions: Seq<EhFrameInstruction>,
}

impl View for EhFrameEntry {
    type V = FrameView;

    closed spec fn view(&self) -> FrameView {
        FrameView { start: self.start, len: self.len, instructions: self.instructions@ }
    }
}

/// Functions with a common entry.
pub struct EhFrameBlock {
    frames: BTreeMap<u64, EhFrameEntry>,
}

impl View for EhFrameBlock {
    type V = Map<u64, FrameView>;

    /// The frames by their start.
    closed spec fn view(&self) -> Map<u64, FrameView> {
        self.frames@.map_values(|entry: EhFrameEntry| entry@)
    }
}

/// All frames of a binary.
pub struct EhFrame {
    blocks: Vec<EhFrameBlock>,
}

impl View for EhFrame {
    type V = Seq<Map<u64, FrameView>>;

    closed spec fn view(&self) -> Seq<Map<u64, FrameView>> {
        self.blocks@.map_values(|block: EhFrameBlock| block@)
    }
}

/// `steps` with those of `list` from the `from`-th on, for data offsets with this factor.
pub open spec fn steps_from(
    list: Seq<Option<CfiInstruction>>,
    from: int,
    factor: i64,
    steps: Seq<EhFrameInstruction>,
) -> Result<Seq<EhFrameInstruction>, Error>
    decreases list.len() - from,
{
    if from >= list.len() {
        Ok(steps)
    } else {
        match list[from] {
            None => Err(Error::BadCfiInstruction),
            Some(instruction) => match step(instruction, factor) {
                Err(e) => Err(e),
                Ok(step) => steps_from(list, from + 1, factor, steps.push(step)),
            },
        }
    }
}

/// The step that an instruction stands for.
pub open spec fn step(instruction: CfiInstruction, factor: i64) -> Result<
    EhFrameInstruction,
    Error,
> {
    match instruction {
        CfiInstruction::Advance(delta) => Ok(EhFrameInstruction::AdvanceLoc { delta }),
        CfiInstruction::Cfa(register, offset) => Ok(
            EhFrameInstruction::DefCfa { register, offset },
        ),
        CfiInstruction::CfaOffset(offset) => Ok(EhFrameInstruction::DefCfaOffset { offset }),
        CfiInstruction::Saved(register, factored) => {
            let offset = bytes::signed(factored as int, 0x8000_0000_0000_0000) * factor;
            if i64::MIN <= offset <= i64::MAX {
                Ok(EhFrameInstruction::Offset { register, offset: offset as i64 })
            } else {
                Err(Error::Overflow)
            }
        },
        CfiInstruction::Nothing => Ok(EhFrameInstruction::Nop),
        CfiInstruction::Other => Err(Error::UnsupportedCfiInstruction),
    }
}

/// The blocks of frames that follow from the `from`-th entry on: a common entry closes the block
/// before it.
pub open spec fn blocks_from(
    entries: Seq<Option<FrameEntry>>,
    lists: Seq<Seq<Option<CfiInstruction>>>,
    from: int,
    blocks: Seq<Map<u64, FrameView>>,
    current: Map<u64, FrameView>,
) -> Result<Seq<Map<u64, FrameView>>, Error>
    decreases entries.len() - from,
{
    if from >= entries.len() {
        Ok(blocks.push(current))
    } else {
        match entries[from] {
            None => Err(Error::BadEhFrame),
            Some(FrameEntry::Cie) => blocks_from(
                entries,
                lists,
                from + 1,
                blocks.push(current),
                Map::empty(),
            ),
            Some(FrameEntry::BadFde) => Err(Error::BadFrame),
            Some(FrameEntry::Fde(start, len, factor)) => match steps_from(
                lists[from],
                0,
                factor,
                Seq::empty(),
            ) {
                Err(e) => Err(e),
                Ok(instructions) => blocks_from(
                    entries,
                    lists,
                    from + 1,
                    blocks,
                    current.insert(start, FrameView { start, len, instructions }),
                ),
            },
        }
    }
}

/// The frames that the entries of an `.eh_frame` section describe. The first one has to be a common
/// entry.
pub open spec fn frames_of(
    entries: Seq<Option<FrameEntry>>,
    lists: Seq<Seq<Option<CfiInstruction>>>,
) -> Result<Seq<Map<u64, FrameView>>, Error> {
    if entries.len() == 0 {
        Err(Error::FirstEntryNotCommon)
    } else {
        match entries[0] {
            None => Err(Error::BadEhFrame),
            Some(FrameEntry::Cie) => blocks_from(entries, lists, 1, Seq::empty(), Map::empty()),
            _ => Err(Error::FirstEntryNotCommon),
        }
    }
}

/// Every frame is under its own start.
pub open spec fn are_keyed(blocks: Seq<Map<u64, FrameView>>) -> bool {
    forall|i: int, a: u64|
        0 <= i < blocks.len() && (#[trigger] blocks[i].contains_key(a)) ==> blocks[i][a].start == a
}

proof fn lemma_blocks_are_keyed(
    entries: Seq<Option<FrameEntry>>,
    lists: Seq<Seq<Option<CfiInstruction>>>,
    from: int,
    blocks: Seq<Map<u64, FrameView>>,
    current: Map<u64, FrameView>,
)
    requires
        are_keyed(blocks.push(current)),
        blocks_from(entries, lists, from, blocks, current) is Ok,
    ensures
        are_keyed(blocks_from(entries, lists, from, blocks, current)->Ok_0),
    decreases entries.len() - from,
{
    let all = blocks.push(current);
    if from < entries.len() {
        match entries[from] {
            Some(FrameEntry::Cie) => {
                let grown = all.push(Map::empty());
                assert forall|i: int, a: u64|
                    0 <= i < grown.len() && (#[trigger] grown[i].contains_key(a)) implies grown[i][a].start
                    == a by {
                    if i < all.len() {
                        assert(all[i].contains_key(a));
                    }
                }
                lemma_blocks_are_keyed(entries, lists, from + 1, all, Map::empty());
            },
            Some(FrameEntry::Fde(start, len, factor)) => {
                let instructions = steps_from(lists[from], 0, factor, Seq::empty())->Ok_0;
                let next = current.insert(start, FrameView { start, len, instructions });
                let grown = blocks.push(next);
                assert forall|i: int, a: u64|
                    0 <= i < grown.len() && (#[trigger] grown[i].contains_key(a)) implies grown[i][a].start
                    == a by {
                    if i < blocks.len() || a != start {
                        assert(all[i].contains_key(a));
                    }
                }
                lemma_blocks_are_keyed(entries, lists, from + 1, blocks, next);
            },
            _ => {},
        }
    }
}

/// Frames are found under the address at which they start.
pub proof fn law_frames_are_keyed_by_start(
    entries: Seq<Option<FrameEntry>>,
    lists: Seq<Seq<Option<CfiInstruction>>>,
)
    requires
        frames_of(entries, lists) is Ok,
    ensures
        are_keyed(frames_of(entries, lists)->Ok_0),
{
    lemma_blocks_are_keyed(entries, lists, 1, Seq::empty(), Map::empty());
}

fn make_step(instruction: CfiInstruction, factor: i64) -> (r: Result<EhFrameInstruction, Error>)
    ensures
        r == step(instruction, factor),
{
    match instruction {
        CfiInstruction::Advance(delta) => Ok(EhFrameInstruction::AdvanceLoc { delta }),
        CfiInstruction::Cfa(register, offset) => Ok(
            EhFrameInstruction::DefCfa { register, offset },
        ),
        CfiInstruction::CfaOffset(offset) => Ok(EhFrameInstruction::DefCfaOffset { offset }),
        CfiInstruction::Saved(register, factored) => {
            let units: i64 = to_i64(factored);
            assert(-0x4000_0000_0000_0000_0000_0000_0000_0000 <= units * factor
                <= 0x4000_0000_0000_0000_0000_0000_0000_0000) by (nonlinear_arith)
                requires
                    -0x8000_0000_0000_0000 <= units <= 0x7FFF_FFFF_FFFF_FFFF,
                    -0x8000_0000_0000_0000 <= factor <= 0x7FFF_FFFF_FFFF_FFFF,
            ;
            let offset: i128 = units as i128 * factor as i128;
            if i64::MIN as i128 <= offset && offset <= i64::MAX as i128 {
                Ok(EhFrameInstruction::Offset { register, offset: offset as i64 })
            } else {
                Err(Error::Overflow)
            }
        },
        CfiInstruction::Nothing => Ok(EhFrameInstruction::Nop),
        CfiInstruction::Other => Err(Error::UnsupportedCfiInstruction),
    }
}

fn make_steps(list: &Vec<Option<CfiInstruction>>, factor: i64) -> (r: Result<
    Vec<EhFrameInstruction>,
    Error,
>)
    ensures
        match r {
            Ok(steps) => steps_from(list@, 0, factor, Seq::empty()) == Ok::<
                Seq<EhFrameInstruction>,
                Error,
            >(steps@),
            Err(e) => steps_from(list@, 0, factor, Seq::empty()) == Err::<
                Seq<EhFrameInstruction>,
                Error,
            >(e),
        },
{
    let mut steps: Vec<EhFrameInstruction> = Vec::new();
    let mut i: usize = 0;
    assert(steps@ =~= Seq::empty());
    while i < list.len()
        invariant
            i <= list@.len(),
            steps_from(list@, 0, factor, Seq::empty()) == steps_from(
                list@,
                i as int,
                factor,
                steps@,
            ),
        decreases list@.len() - i,
    {
        match list[i] {
            None => {
                return Err(Error::BadCfiInstruction);
            },
            Some(instruction) => {
                let next: EhFrameInstruction = make_step(instruction, factor)?;
                steps.push(next);
            },
        }
        i = i + 1;
    }
    Ok(steps)
}

impl EhFrame {
    /// Makes frames out of the entries of an `.eh_frame` section and their instructions.
    pub fn from_entries(
        entries: &Vec<Option<FrameEntry>>,
        lists: &Vec<Vec<Option<CfiInstruction>>>,
    ) -> (r: Result<EhFrame, Error>)
        requires
            entries@.len() == lists@.len(),
        ensures
            match r {
                Ok(frames) => frames_of(entries@, instruction_lists(lists@)) == Ok::<
                    Seq<Map<u64, FrameView>>,
                    Error,
                >(frames@),
                Err(e) => frames_of(entries@, instruction_lists(lists@)) == Err::<
                    Seq<Map<u64, FrameView>>,
                    Error,
                >(e),
            },
    {
        let ghost views = instruction_lists(lists@);
        if entries.len() == 0 {
            return Err(Error::FirstEntryNotCommon);
        }
        match entries[0] {
            None => {
                return Err(Error::BadEhFrame);
            },
            Some(FrameEntry::Cie) => {},
            _ => {
                return Err(Error::FirstEntryNotCommon);
            },
        }
        let mut result = EhFrame { blocks: Vec::new() };
        let mut current = EhFrameBlock { frames: BTreeMap::new() };
        assert(result@ =~= Seq::empty());
        assert(current@ =~= Map::empty());
        let mut i: usize = 1;
        while i < entries.len()
            invariant
                1 <= i <= entries@.len(),
                entries@.len() == lists@.len(),
                views == instruction_lists(lists@),
                frames_of(entries@, views) == blocks_from(
                    entries@,
                    views,
                    i as int,
                    result@,
                    current@,
                ),
            decreases entries@.len() - i,
        {
            assert(views[i as int] == lists@[i as int]@);
            match entries[i] {
                None => {
                    return Err(Error::BadEhFrame);
                },
                Some(FrameEntry::Cie) => {
                    let ghost before = result@;
                    let ghost closed_block = current@;
                    result.blocks.push(current);
                    assert(result@ =~= before.push(closed_block));
                    current = EhFrameBlock { frames: BTreeMap::new() };
                    assert(current@ =~= Map::empty());
                },
                Some(FrameEntry::BadFde) => {
                    return Err(Error::BadFrame);
                },
                Some(FrameEntry::Fde(start, len, factor)) => {
                    let instructions = make_steps(&lists[i], factor)?;
                    let ghost before = current@;
                    let entry = EhFrameEntry { start, len, instructions };
                    let ghost view = entry@;
                    current.frames.insert(start, entry);
                    assert(current@ =~= before.insert(start, view));
                },
            }
            i = i + 1;
        }
        let ghost before = result@;
        let ghost closed_block = current@;
        result.blocks.push(current);
        assert(result@ =~= before.push(closed_block));
        Ok(result)
    }
}

/// The place behind a table of `count` pairs of numbers at `pos`.
pub open spec fn table_end(
    encoding: ExceptionHeaderEncoding,
    data: Seq<u8>,
    pos: int,
    hdr_offset: u64,
    count: int,
) -> Result<int, Error>
    decreases count,
{
    if count <= 0 {
        Ok(pos)
    } else {
        match encoding.number_at(data, pos, hdr_offset) {
            Err(e) => Err(e),
            Ok((_, middle)) => match encoding.number_at(data, middle, hdr_offset) {
                Err(e) => Err(e),
                Ok((_, next)) => table_end(encoding, data, next, hdr_offset, count - 1),
            },
        }
    }
}

/// The size of the `.eh_frame_hdr` section at the front of `data`, which is at `hdr_offset` in memory:
/// a version, three encodings, a pointer, a count, and a table.
pub open spec fn header_size(data: Seq<u8>, hdr_offset: u64) -> Result<int, Error> {
    if data.len() < 1 {
        Err(Error::UnexpectedEnd)
    } else if data[0] != 1 {
        Err(Error::UnsupportedVersion)
    } else if data.len() < 4 {
        Err(Error::UnexpectedEnd)
    } else {
        let pointer_encoding = ExceptionHeaderEncoding { value: data[1] };
        let count_encoding = ExceptionHeaderEncoding { value: data[2] };
        let table_encoding = ExceptionHeaderEncoding { value: data[3] };
        match pointer_encoding.number_at(data, 4, hdr_offset) {
            Err(e) => Err(e),
            Ok((_, count_pos)) => match count_encoding.number_at(data, count_pos, hdr_offset) {
                Err(e) => Err(e),
                Ok((count, table_pos)) => table_end(
                    table_encoding,
                    data,
                    table_pos,
                    hdr_offset,
                    count as int,
                ),
            },
        }
    }
}

fn measure_header(data: &[u8], hdr_offset: u64) -> (r: Result<usize, Error>)
    ensures
        match r {
            Ok(size) => header_size(data@, hdr_offset) == Ok::<int, Error>(size as int) && size > 0,
            Err(e) => header_size(data@, hdr_offset) == Err::<int, Error>(e),
        },
{
    if data.len() < 1 {
        return Err(Error::UnexpectedEnd);
    }
    if data[0] != 1 {
        return Err(Error::UnsupportedVersion);
    }
    if data.len() < 4 {
        return Err(Error::UnexpectedEnd);
    }
    let pointer_encoding = ExceptionHeaderEncoding { value: data[1] };
    let count_encoding = ExceptionHeaderEncoding { value: data[2] };
    let table_encoding = ExceptionHeaderEncoding { value: data[3] };
    let (_, count_pos): (u64, usize) = pointer_encoding.read(data, 4, hdr_offset)?;
    let (count, table_pos): (u64, usize) = count_encoding.read(data, count_pos, hdr_offset)?;
    let ghost end = table_end(table_encoding, data@, table_pos as int, hdr_offset, count as int);
    let mut pos: usize = table_pos;
    let mut i: u64 = 0;
    while i < count
        invariant
            i <= count,
            pos > 0,
            end == header_size(data@, hdr_offset),
            end == table_end(table_encoding, data@, pos as int, hdr_offset, count - i),
        decreases count - i,
    {
        let (_, middle): (u64, usize) = table_encoding.read(data, pos, hdr_offset)?;
        let (_, next): (u64, usize) = table_encoding.read(data, middle, hdr_offset)?;
        pos = next;
        i = i + 1;
    }
    Ok(pos)
}

/// `memory` from `offset` on.
pub open spec fn from_offset(memory: Seq<u8>, offset: int) -> Seq<u8> {
    memory.subrange(offset, memory.len() as int)
}

/// The frames of a binary and the size of its `.eh_frame_hdr` section, which is at `offset`.
pub open spec fn eh_frame_of(
    memory: Seq<u8>,
    offset: u64,
    module: Module,
    text_offset: usize,
    sections: Map<u64, SectionType>,
) -> Result<(Seq<Map<u64, FrameView>>, int), Error> {
    let hdr = module.ex_info_start_offset + module.header_offset;
    if offset > memory.len() {
        Err(Error::OutOfBounds)
    } else {
        match header_size(from_offset(memory, offset as int), offset) {
            Err(e) => Err(e),
            Ok(size) => match section_map::section_range(sections, SectionType::Got) {
                None => Err(Error::SectionMissing),
                Some((got, _)) => if hdr > memory.len() {
                    Err(Error::OutOfBounds)
                } else {
                    let hdr_bases = Bases {
                        eh_frame_hdr: hdr as u64,
                        text: text_offset as u64,
                        got,
                        eh_frame: 0,
                    };
                    match eh_frame_pointer(from_offset(memory, hdr), hdr_bases) {
                        None => Err(Error::BadEhFrameHdr),
                        Some(pointer) => if pointer > memory.len() {
                            Err(Error::OutOfBounds)
                        } else {
                            let bases = Bases { eh_frame: pointer, ..hdr_bases };
                            let section = from_offset(memory, pointer as int);
                            match frames_of(
                                frame_entries(section, bases),
                                frame_instructions(section, bases),
                            ) {
                                Err(e) => Err(e),
                                Ok(frames) => Ok((frames, size)),
                            }
                        },
                    }
                },
            },
        }
    }
}

impl EhFrame {
    /// Reads the frames of a binary whose `.eh_frame_hdr` section is at `offset`. Gives the size of
    /// that section too.
    pub fn parse_eh_frame_hdr(
        memory: &[u8],
        offset: u64,
        module: &Module,
        text: &TextSection,
        sections: &SectionMap,
    ) -> (r: Result<(EhFrame, u64), Error>)
        ensures
            match r {
                Ok((frames, size)) => eh_frame_of(
                    memory@,
                    offset,
                    *module,
                    text.section_offset,
                    sections@,
                ) == Ok::<(Seq<Map<u64, FrameView>>, int), Error>((frames@, size as int)) && size
                    > 0,
                Err(e) => eh_frame_of(
                    memory@,
                    offset,
                    *module,
                    text.section_offset,
                    sections@,
                ) == Err::<(Seq<Map<u64, FrameView>>, int), Error>(e),
            },
    {
        let length: u64 = memory.len() as u64;
        if offset > length {
            return Err(Error::OutOfBounds);
        }
        let size: usize = measure_header(
            slice_subrange(memory, offset as usize, memory.len()),
            offset,
        )?;
        let got: u64 = match sections.get_range(&SectionType::Got) {
            Some(range) => range.start,
            None => {
                return Err(Error::SectionMissing);
            },
        };
        let hdr: u64 = module.ex_info_start_offset as u64 + module.header_offset as u64;
        if hdr > length {
            return Err(Error::OutOfBounds);
        }
        let hdr_bases = Bases {
            eh_frame_hdr: hdr,
            text: text.section_offset as u64,
            got,
            eh_frame: 0,
        };
        let pointer: u64 = match read_eh_frame_pointer(
            slice_subrange(memory, hdr as usize, memory.len()),
            hdr_bases,
        ) {
            Ok(pointer) => pointer,
            Err(_) => {
                return Err(Error::BadEhFrameHdr);
            },
        };
        if pointer > length {
            return Err(Error::OutOfBounds);
        }
        let bases = Bases { eh_frame: pointer, ..hdr_bases };
        let section = slice_subrange(memory, pointer as usize, memory.len());
        let entries = read_entries(section, bases);
        let lists = read_instructions(section, bases);
        let frames = EhFrame::from_entries(&entries, &lists)?;
        Ok((frames, size as u64))
    }
}

/// The name of a register in frame directives.
pub open spec fn register_name(register: u16) -> Result<Seq<char>, Error> {
    if register <= 30 {
        Ok("w"@ + fmt::decimal(register as int))
    } else if 64 <= register <= 95 {
        Ok("d"@ + fmt::decimal(register - 64))
    } else {
        Err(Error::UnsupportedFrameRegister { register })
    }
}

/// The directives at `address`.
pub open spec fn lines_at(lines: Map<u64, Seq<Seq<char>>>, address: u64) -> Seq<Seq<char>> {
    if lines.contains_key(address) {
        lines[address]
    } else {
        Seq::empty()
    }
}

/// One more directive behind those at `address`.
pub open spec fn line_behind(
    lines: Map<u64, Seq<Seq<char>>>,
    address: u64,
    line: Seq<char>,
) -> Map<u64, Seq<Seq<char>>> {
    lines.insert(address, lines_at(lines, address).push(line))
}

/// One more directive before those at `address`.
pub open spec fn line_before(
    lines: Map<u64, Seq<Seq<char>>>,
    address: u64,
    line: Seq<char>,
) -> Map<u64, Seq<Seq<char>>> {
    lines.insert(address, seq![line] + lines_at(lines, address))
}

/// The directive for a step, or `None` for one that only advances the address.
pub open spec fn step_line(step: EhFrameInstruction) -> Result<Option<Seq<char>>, Error> {
    match step {
        EhFrameInstruction::AdvanceLoc { .. } => Ok(None),
        EhFrameInstruction::DefCfa { register, offset } => match register_name(register) {
            Ok(name) => Ok(
                Some(".cfi_def_cfa "@ + name + ", "@ + fmt::decimal(offset as int)),
            ),
            Err(e) => Err(e),
        },
        EhFrameInstruction::DefCfaOffset { offset } => Ok(
            Some(".cfi_def_cfa_offset "@ + fmt::decimal(offset as int)),
        ),
        EhFrameInstruction::Offset { register, offset } => match register_name(register) {
            Ok(name) => Ok(Some(".cfi_offset "@ + name + ", "@ + fmt::decimal(offset as int))),
            Err(e) => Err(e),
        },
        EhFrameInstruction::Nop => Ok(Some(".cfi_escape 0x00"@)),
    }
}

/// The address after a step.
pub open spec fn step_address(step: EhFrameInstruction, address: u64) -> u64 {
    match step {
        EhFrameInstruction::AdvanceLoc { delta } => bytes::wrap64(address + delta),
        _ => address,
    }
}

/// `lines` with the directives for the steps from the `from`-th on, the first of them at `address`.
pub open spec fn step_lines(
    steps: Seq<EhFrameInstruction>,
    from: int,
    address: u64,
    lines: Map<u64, Seq<Seq<char>>>,
) -> Result<Map<u64, Seq<Seq<char>>>, Error>
    decreases steps.len() - from,
{
    if from >= steps.len() {
        Ok(lines)
    } else {
        match step_line(steps[from]) {
            Err(e) => Err(e),
            Ok(line) => step_lines(
                steps,
                from + 1,
                step_address(steps[from], address),
                match line {
                    Some(line) => line_behind(lines, address, line),
                    None => lines,
                },
            ),
        }
    }
}

/// `lines` with the directives of a frame.
pub open spec fn frame_lines(frame: FrameView, lines: Map<u64, Seq<Seq<char>>>) -> Result<
    Map<u64, Seq<Seq<char>>>,
    Error,
> {
    if frame.start + frame.len > u64::MAX {
        Err(Error::Overflow)
    } else {
        let started = line_behind(lines, frame.start, ".cfi_startproc"@);
        let ended = line_before(started, (frame.start + frame.len) as u64, ".cfi_endproc"@);
        step_lines(frame.instructions, 0, frame.start, ended)
    }
}

/// `lines` with the directives of the frames from the `from`-th on.
pub open spec fn frame_list_lines(
    frames: Seq<FrameView>,
    from: int,
    lines: Map<u64, Seq<Seq<char>>>,
) -> Result<Map<u64, Seq<Seq<char>>>, Error>
    decreases frames.len() - from,
{
    if from >= frames.len() {
        Ok(lines)
    } else {
        match frame_lines(frames[from], lines) {
            Err(e) => Err(e),
            Ok(next) => frame_list_lines(frames, from + 1, next),
        }
    }
}

/// `lines` with the directives of the blocks from the `from`-th on, each from its lowest frame to its
/// highest.
pub open spec fn block_lines(
    blocks: Seq<Map<u64, FrameView>>,
    from: int,
    lines: Map<u64, Seq<Seq<char>>>,
) -> Result<Map<u64, Seq<Seq<char>>>, Error>
    decreases blocks.len() - from,
{
    if from >= blocks.len() {
        Ok(lines)
    } else {
        match frame_list_lines(ordered::values_from(blocks[from], 0), 0, lines) {
            Err(e) => Err(e),
            Ok(next) => block_lines(blocks, from + 1, next),
        }
    }
}

/// Every directive by its text.
pub open spec fn directive_views(lines: Map<u64, VecDeque<String>>) -> Map<u64, Seq<Seq<char>>> {
    lines.map_values(|queue: VecDeque<String>| queue@.map_values(|line: String| line@))
}

fn take_lines(lines: &mut HashMap<u64, VecDeque<String>>, address: u64) -> (r: VecDeque<String>)
    ensures
        r@.map_values(|line: String| line@) == lines_at(directive_views(old(lines)@), address),
        final(lines)@ == old(lines)@.remove(address),
{
    match lines.remove(&address) {
        Some(queue) => queue,
        None => {
            let queue: VecDeque<String> = VecDeque::new();
            assert(queue@.map_values(|line: String| line@) =~= Seq::<Seq<char>>::empty());
            queue
        },
    }
}

fn add_behind(lines: &mut HashMap<u64, VecDeque<String>>, address: u64, line: String)
    ensures
        directive_views(final(lines)@) == line_behind(
            directive_views(old(lines)@),
            address,
            line@,
        ),
{
    let ghost before = directive_views(lines@);
    let mut queue = take_lines(lines, address);
    let ghost queued = queue@;
    queue.push_back(line);
    assert(queue@.map_values(|line: String| line@) =~= queued.map_values(
        |line: String| line@,
    ).push(line@));
    lines.insert(address, queue);
    assert(directive_views(lines@) =~= line_behind(before, address, line@));
}

fn add_before(lines: &mut HashMap<u64, VecDeque<String>>, address: u64, line: String)
    ensures
        directive_views(final(lines)@) == line_before(
            directive_views(old(lines)@),
            address,
            line@,
        ),
{
    let ghost before = directive_views(lines@);
    let mut queue = take_lines(lines, address);
    let ghost queued = queue@;
    queue.push_front(line);
    assert(queue@.map_values(|line: String| line@) =~= seq![line@] + queued.map_values(
        |line: String| line@,
    ));
    lines.insert(address, queue);
    assert(directive_views(lines@) =~= line_before(before, address, line@));
}

impl EhFrame {
    fn map_register_number(register: u16) -> (r: Result<String, Error>)
        ensures
            match r {
                Ok(name) => register_name(register) == Ok::<Seq<char>, Error>(name@),
                Err(e) => register_name(register) == Err::<Seq<char>, Error>(e),
            },
    {
        if register <= 30 {
            let mut name = String::from_str("w");
            name.append(format_decimal(register as u64).as_str());
            Ok(name)
        } else if 64 <= register && register <= 95 {
            let mut name = String::from_str("d");
            name.append(format_decimal((register - 64) as u64).as_str());
            Ok(name)
        } else {
            Err(Error::UnsupportedFrameRegister { register })
        }
    }

    fn write_step(step: &EhFrameInstruction) -> (r: Result<Option<String>, Error>)
        ensures
            match r {
                Ok(Some(line)) => step_line(*step) == Ok::<Option<Seq<char>>, Error>(
                    Some(line@),
                ),
                Ok(None) => step_line(*step) == Ok::<Option<Seq<char>>, Error>(None),
                Err(e) => step_line(*step) == Err::<Option<Seq<char>>, Error>(e),
            },
    {
        match *step {
            EhFrameInstruction::AdvanceLoc { .. } => Ok(None),
            EhFrameInstruction::DefCfa { register, offset } => {
                let name = Self::map_register_number(register)?;
                let mut line = String::from_str(".cfi_def_cfa ");
                line.append(name.as_str());
                line.append(", ");
                line.append(format_decimal(offset).as_str());
                Ok(Some(line))
            },
            EhFrameInstruction::DefCfaOffset { offset } => {
                let mut line = String::from_str(".cfi_def_cfa_offset ");
                line.append(format_decimal(offset).as_str());
                Ok(Some(line))
            },
            EhFrameInstruction::Offset { register, offset } => {
                let name = Self::map_register_number(register)?;
                let mut line = String::from_str(".cfi_offset ");
                line.append(name.as_str());
                line.append(", ");
                line.append(format_decimal_signed(offset).as_str());
                Ok(Some(line))
            },
            EhFrameInstruction::Nop => Ok(Some(String::from_str(".cfi_escape 0x00"))),
        }
    }

    fn write_frame(entry: &EhFrameEntry, lines: &mut HashMap<u64, VecDeque<String>>) -> (r: Result<
        (),
        Error,
    >)
        ensures
            match r {
                Ok(()) => frame_lines(entry@, directive_views(old(lines)@)) == Ok::<
                    Map<u64, Seq<Seq<char>>>,
                    Error,
                >(directive_views(final(lines)@)),
                Err(e) => frame_lines(entry@, directive_views(old(lines)@)) == Err::<
                    Map<u64, Seq<Seq<char>>>,
                    Error,
                >(e),
            },
    {
        if entry.len > u64::MAX - entry.start {
            return Err(Error::Overflow);
        }
        let ghost all = frame_lines(entry@, directive_views(lines@));
        add_behind(lines, entry.start, String::from_str(".cfi_startproc"));
        add_before(lines, entry.start + entry.len, String::from_str(".cfi_endproc"));
        let mut address: u64 = entry.start;
        let mut i: usize = 0;
        while i < entry.instructions.len()
            invariant
                i <= entry.instructions@.len(),
                all == frame_lines(entry@, directive_views(old(lines)@)),
                all == step_lines(
                    entry.instructions@,
                    i as int,
                    address,
                    directive_views(lines@),
                ),
            decreases entry.instructions@.len() - i,
        {
            let step: EhFrameInstruction = entry.instructions[i];
            if let Some(line) = Self::write_step(&step)? {
                add_behind(lines, address, line);
            }
            if let EhFrameInstruction::AdvanceLoc { delta } = step {
                address = bytes::wrapping_sum(address, delta as u64);
            }
            i = i + 1;
        }
        Ok(())
    }

    /// The frame directives for each address.
    pub fn get_cfi_instructions(&self) -> (r: Result<HashMap<u64, VecDeque<String>>, Error>)
        ensures
            match r {
                Ok(lines) => block_lines(self@, 0, Map::empty()) == Ok::<
                    Map<u64, Seq<Seq<char>>>,
                    Error,
                >(directive_views(lines@)),
                Err(e) => block_lines(self@, 0, Map::empty()) == Err::<
                    Map<u64, Seq<Seq<char>>>,
                    Error,
                >(e),
            },
    {
        let mut result: HashMap<u64, VecDeque<String>> = HashMap::new();
        assert(directive_views(result@) =~= Map::empty());
        let ghost all = block_lines(self@, 0, Map::empty());
        let mut i: usize = 0;
        while i < self.blocks.len()
            invariant
                i <= self.blocks@.len(),
                all == block_lines(self@, 0, Map::empty()),
                all == block_lines(self@, i as int, directive_views(result@)),
            decreases self.blocks@.len() - i,
        {
            let frames = &self.blocks[i].frames;
            let keys = ordered_keys(frames);
            let ghost block = self@[i as int];
            let ghost list = ordered::values_from(block, 0);
            proof {
                assert(block =~= frames@.map_values(|entry: EhFrameEntry| entry@));
                assert(ordered::are_keys(block, keys@)) by {
                    assert forall|k: u64| #[trigger] block.contains_key(k) implies keys@.contains(
                        k,
                    ) by {
                        assert(frames@.contains_key(k));
                    }
                }
                ordered::lemma_values_in_order(block, keys@);
            }
            let ghost here = frame_list_lines(list, 0, directive_views(result@));
            let mut k: usize = 0;
            while k < keys.len()
                invariant
                    i < self.blocks@.len(),
                    k <= keys@.len(),
                    all == block_lines(self@, 0, Map::empty()),
                    frames == &self.blocks@[i as int].frames,
                    block == self@[i as int],
                    block == frames@.map_values(|entry: EhFrameEntry| entry@),
                    ordered::are_keys(block, keys@),
                    list == ordered::values_from(block, 0),
                    list == keys@.map_values(|key: u64| block[key]),
                    here is Err ==> all == here,
                    here == frame_list_lines(list, k as int, directive_views(result@)),
                    here is Ok ==> all == block_lines(self@, i + 1, here->Ok_0),
                decreases keys@.len() - k,
            {
                let key: u64 = keys[k];
                assert(block.contains_key(keys@[k as int]));
                assert(list[k as int] == block[key]);
                match frames.get(&key) {
                    Some(entry) => {
                        assert(entry@ == list[k as int]);
                        Self::write_frame(entry, &mut result)?;
                    },
                    None => {},
                }
                k = k + 1;
            }
            i = i + 1;
        }
        Ok(result)
    }
}

/// All directives of `lines` are in `after`.
spec fn keeps_lines(lines: Map<u64, Seq<Seq<char>>>, after: Map<u64, Seq<Seq<char>>>) -> bool {
    forall|a: u64, line: Seq<char>| #[trigger]
        lines_at(lines, a).contains(line) ==> lines_at(after, a).contains(line)
}

proof fn lemma_line_behind(lines: Map<u64, Seq<Seq<char>>>, address: u64, line: Seq<char>)
    ensures
        keeps_lines(lines, line_behind(lines, address, line)),
        lines_at(line_behind(lines, address, line), address).contains(line),
{
    let after = line_behind(lines, address, line);
    let known = lines_at(lines, address);
    assert(lines_at(after, address)[known.len() as int] == line);
    assert forall|a: u64, l: Seq<char>| #[trigger]
        lines_at(lines, a).contains(l) implies lines_at(after, a).contains(l) by {
        let k = choose|k: int| 0 <= k < lines_at(lines, a).len() && lines_at(lines, a)[k] == l;
        assert(lines_at(after, a)[k] == l);
    }
}

proof fn lemma_line_before(lines: Map<u64, Seq<Seq<char>>>, address: u64, line: Seq<char>)
    ensures
        keeps_lines(lines, line_before(lines, address, line)),
        lines_at(line_before(lines, address, line), address).contains(line),
{
    let after = line_before(lines, address, line);
    assert(lines_at(after, address)[0] == line);
    assert forall|a: u64, l: Seq<char>| #[trigger]
        lines_at(lines, a).contains(l) implies lines_at(after, a).contains(l) by {
        let k = choose|k: int| 0 <= k < lines_at(lines, a).len() && lines_at(lines, a)[k] == l;
        if a == address {
            assert(lines_at(after, a)[k + 1] == l);
        } else {
            assert(lines_at(after, a)[k] == l);
        }
    }
}

proof fn lemma_step_lines(
    steps: Seq<EhFrameInstruction>,
    from: int,
    address: u64,
    lines: Map<u64, Seq<Seq<char>>>,
)
    requires
        0 <= from,
    ensures
        step_lines(steps, from, address, lines) matches Ok(after) ==> keeps_lines(lines, after),
    decreases steps.len() - from,
{
    if from < steps.len() {
        if let Ok(line) = step_line(steps[from]) {
            let next = match line {
                Some(line) => line_behind(lines, address, line),
                None => lines,
            };
            if let Some(line) = line {
                lemma_line_behind(lines, address, line);
            }
            lemma_step_lines(steps, from + 1, step_address(steps[from], address), next);
        }
    }
}

/// The directives that open and close a frame are there.
pub open spec fn is_bracketed(frame: FrameView, lines: Map<u64, Seq<Seq<char>>>) -> bool {
    &&& lines_at(lines, frame.start).contains(".cfi_startproc"@)
    &&& lines_at(lines, (frame.start + frame.len) as u64).contains(".cfi_endproc"@)
}

proof fn lemma_frame_lines(frame: FrameView, lines: Map<u64, Seq<Seq<char>>>)
    ensures
        frame_lines(frame, lines) matches Ok(after) ==> keeps_lines(lines, after) && is_bracketed(
            frame,
            after,
        ),
{
    if frame.start + frame.len <= u64::MAX {
        let started = line_behind(lines, frame.start, ".cfi_startproc"@);
        let end = (frame.start + frame.len) as u64;
        let ended = line_before(started, end, ".cfi_endproc"@);
        lemma_line_behind(lines, frame.start, ".cfi_startproc"@);
        lemma_line_before(started, end, ".cfi_endproc"@);
        lemma_step_lines(frame.instructions, 0, frame.start, ended);
        assert(lines_at(ended, frame.start).contains(".cfi_startproc"@));
    }
}

proof fn lemma_frame_list(
    frames: Seq<FrameView>,
    from: int,
    lines: Map<u64, Seq<Seq<char>>>,
)
    requires
        0 <= from <= frames.len(),
    ensures
        frame_list_lines(frames, from, lines) matches Ok(after) ==> keeps_lines(lines, after)
            && forall|i: int|
            from <= i < frames.len() ==> is_bracketed(#[trigger] frames[i], after),
    decreases frames.len() - from,
{
    if from < frames.len() {
        lemma_frame_lines(frames[from], lines);
        if let Ok(next) = frame_lines(frames[from], lines) {
            lemma_frame_list(frames, from + 1, next);
        }
    }
}

proof fn lemma_block_lines(
    blocks: Seq<Map<u64, FrameView>>,
    from: int,
    lines: Map<u64, Seq<Seq<char>>>,
    b: int,
    start: u64,
)
    requires
        0 <= from <= blocks.len(),
        0 <= b < blocks.len(),
        blocks[b].contains_key(start),
    ensures
        block_lines(blocks, from, lines) matches Ok(after) ==> keeps_lines(lines, after) && (from
            <= b ==> is_bracketed(blocks[b][start], after)),
    decreases blocks.len() - from,
{
    if from < blocks.len() {
        let frames = ordered::values_from(blocks[from], 0);
        lemma_frame_list(frames, 0, lines);
        if let Ok(next) = frame_list_lines(frames, 0, lines) {
            lemma_block_lines(blocks, from + 1, next, b, start);
            if from == b {
                ordered::lemma_values_hold(blocks[b], 0, start);
                let k = choose|k: int|
                    0 <= k < frames.len() && frames[k] == blocks[b][start];
                assert(is_bracketed(frames[k], next));
            }
        }
    }
}

/// Each frame is opened by `.cfi_startproc` where it starts and closed by `.cfi_endproc` where it
/// ends.
pub proof fn law_frames_are_bracketed(blocks: Seq<Map<u64, FrameView>>, b: int, start: u64)
    requires
        block_lines(blocks, 0, Map::empty()) is Ok,
        0 <= b < blocks.len(),
        blocks[b].contains_key(start),
    ensures
        is_bracketed(blocks[b][start], block_lines(blocks, 0, Map::empty())->Ok_0),
{
    lemma_block_lines(blocks, 0, Map::empty(), b, start);
}

/// How many bytes a number in this format has, if that is known from the format alone.
pub open spec fn format_size(encoding: u8) -> int {
    let format = encoding % 16;
    if format == 2 || format == 10 {
        2
    } else if format == 3 || format == 11 {
        4
    } else if format == 4 || format == 12 {
        8
    } else {
        0
    }
}

/// Numbers of this format may be negative.
pub open spec fn format_has_sign(encoding: u8) -> bool {
    encoding % 16 >= 8
}

proof fn lemma_encoding(value: u8)
    ensures
        value & 0x0F == value % 16,
        value & 0xF0 == value - value % 16,
{
    assert(value & 0x0F == value % 16) by (bit_vector);
    assert(value & 0xF0 == value - value % 16) by (bit_vector);
}

/// The lower four bits of an encoding say how a number is stored, and the upper four what it is relative
/// to: nothing, its own end, or the start of the section. Numbers of other encodings are refused, and so
/// are those that are not all there.
pub proof fn law_encodings_say_how_numbers_are_stored(
    encoding: ExceptionHeaderEncoding,
    data: Seq<u8>,
    pos: int,
    hdr_offset: u64,
)
    requires
        0 <= pos,
    ensures
        ({
            let r = encoding.number_at(data, pos, hdr_offset);
            let size = format_size(encoding.value);
            let base = encoding.value / 16;
            let value = stored_value(encoding.value, data, pos);
            &&& r is Ok <==> size > 0 && pos + size <= data.len() && (base == 0 || base == 1 || base
                == 3)
            &&& r is Ok ==> r->Ok_0.1 == pos + size
            &&& r is Ok && base == 0 ==> r->Ok_0.0 == bytes::wrap64(value)
            &&& r is Ok && base == 1 ==> r->Ok_0.0 == bytes::wrap64(value + hdr_offset + pos + size)
            &&& r is Ok && base == 3 ==> r->Ok_0.0 == bytes::wrap64(value + hdr_offset)
        }),
{
    let value = stored_value(encoding.value, data, pos);
    let next = hdr_offset + pos + format_size(encoding.value);
    lemma_encoding(encoding.value);
    lemma_stored(encoding, data, pos);
    lemma_wrapped_sum(value, next);
    lemma_wrapped_sum(value, hdr_offset as int);
    lemma_wrapped_sum(next, bytes::wrap64(value) as int);
    assert(bytes::wrap64(value) + bytes::wrap64(next) == bytes::wrap64(next) + bytes::wrap64(
        value,
    ));
    assert(value + hdr_offset + pos + format_size(encoding.value) == value + next);
}

/// The number that is stored at `pos`.
pub open spec fn stored_value(encoding: u8, data: Seq<u8>, pos: int) -> int {
    let size = format_size(encoding);
    let stored = bytes::le_value(data, pos, size as nat);
    let half: int = if size == 2 {
        0x8000
    } else if size == 4 {
        0x8000_0000
    } else {
        0x8000_0000_0000_0000
    };
    if format_has_sign(encoding) && stored >= half {
        stored - 2 * half
    } else {
        stored
    }
}

proof fn lemma_stored(encoding: ExceptionHeaderEncoding, data: Seq<u8>, pos: int)
    requires
        0 <= pos,
    ensures
        ({
            let r = encoding.stored(data, pos);
            let size = format_size(encoding.value);
            &&& r is Ok <==> size > 0 && pos + size <= data.len()
            &&& r is Ok ==> r->Ok_0.1 == pos + size && r->Ok_0.0 == bytes::wrap64(
                stored_value(encoding.value, data, pos),
            )
        }),
{
    lemma_encoding(encoding.value);
    bytes::law_lowest_byte_comes_first(data, pos, 8);
    reveal(ExceptionHeaderEncoding::stored);
}

proof fn lemma_wrapped_sum(a: int, b: int)
    ensures
        bytes::wrap64(bytes::wrap64(a) + b) == bytes::wrap64(a + b),
{
    vstd::arithmetic::div_mod::lemma_add_mod_noop_right(b, a, 0x1_0000_0000_0000_0000);
}

/// A table ends behind all its pairs of numbers.
pub proof fn law_tables_have_pairs_of_numbers(
    encoding: ExceptionHeaderEncoding,
    data: Seq<u8>,
    pos: int,
    hdr_offset: u64,
    count: int,
)
    requires
        0 <= pos,
        0 <= count,
    ensures
        table_end(encoding, data, pos, hdr_offset, count) matches Ok(end) ==> end == pos + 2
            * format_size(encoding.value) * count && (count > 0 ==> end <= data.len()),
    decreases count,
{
    if count > 0 {
        let size = format_size(encoding.value);
        law_encodings_say_how_numbers_are_stored(encoding, data, pos, hdr_offset);
        if let Ok((_, middle)) = encoding.number_at(data, pos, hdr_offset) {
            law_encodings_say_how_numbers_are_stored(encoding, data, middle, hdr_offset);
            if let Ok((_, next)) = encoding.number_at(data, middle, hdr_offset) {
                law_tables_have_pairs_of_numbers(encoding, data, next, hdr_offset, count - 1);
                assert(2 * size * count == 2 * size * (count - 1) + 2 * size) by (nonlinear_arith);
            }
        }
    }
    assert(2 * format_size(encoding.value) * 0 == 0);
}

/// The header of the unwinding table has a version, three encodings, a pointer, the number of pairs and
/// the pairs. Each of the three is stored as its own encoding says.
pub proof fn law_headers_are_as_long_as_their_table(data: Seq<u8>, hdr_offset: u64)
    requires
        header_size(data, hdr_offset) is Ok,
    ensures
        ({
            let pointer = format_size(data[1]);
            let number = format_size(data[2]);
            let pair = 2 * format_size(data[3]);
            let count = ExceptionHeaderEncoding { value: data[2] }.number_at(
                data,
                4 + pointer,
                hdr_offset,
            )->Ok_0.0;
            &&& data.len() >= 4
            &&& data[0] == 1
            &&& pointer > 0 && number > 0
            &&& header_size(data, hdr_offset)->Ok_0 == 4 + pointer + number + pair * count
        }),
{
    let pointer_encoding = ExceptionHeaderEncoding { value: data[1] };
    let count_encoding = ExceptionHeaderEncoding { value: data[2] };
    let table_encoding = ExceptionHeaderEncoding { value: data[3] };
    law_encodings_say_how_numbers_are_stored(pointer_encoding, data, 4, hdr_offset);
    let at = pointer_encoding.number_at(data, 4, hdr_offset)->Ok_0.1;
    law_encodings_say_how_numbers_are_stored(count_encoding, data, at, hdr_offset);
    let (count, table) = count_encoding.number_at(data, at, hdr_offset)->Ok_0;
    law_tables_have_pairs_of_numbers(table_encoding, data, table, hdr_offset, count as int);
}

/// Each instruction stands for one step. Where a register is saved is the factor times what is stored,
/// which may be negative.
pub proof fn law_instructions_are_steps(
    delta: u32,
    register: u16,
    offset: u64,
    factor: i64,
    list: Seq<Option<CfiInstruction>>,
    k: int,
)
    ensures
        step(CfiInstruction::Advance(delta), factor) == Ok::<EhFrameInstruction, Error>(
            EhFrameInstruction::AdvanceLoc { delta },
        ),
        step(CfiInstruction::Cfa(register, offset), factor) == Ok::<EhFrameInstruction, Error>(
            EhFrameInstruction::DefCfa { register, offset },
        ),
        step(CfiInstruction::CfaOffset(offset), factor) == Ok::<EhFrameInstruction, Error>(
            EhFrameInstruction::DefCfaOffset { offset },
        ),
        offset < 0x8000_0000_0000_0000 && i64::MIN <= offset * factor <= i64::MAX ==> step(
            CfiInstruction::Saved(register, offset),
            factor,
        ) == Ok::<EhFrameInstruction, Error>(
            EhFrameInstruction::Offset { register, offset: (offset * factor) as i64 },
        ),
        offset < 0x8000_0000_0000_0000 && !(i64::MIN <= offset * factor <= i64::MAX) ==> step(
            CfiInstruction::Saved(register, offset),
            factor,
        ) is Err,
        step(CfiInstruction::Saved(register, u64::MAX), factor) is Ok ==> step(
            CfiInstruction::Saved(register, u64::MAX),
            factor,
        ) == Ok::<EhFrameInstruction, Error>(
            EhFrameInstruction::Offset { register, offset: (-factor) as i64 },
        ),
        step(CfiInstruction::Nothing, factor) == Ok::<EhFrameInstruction, Error>(
            EhFrameInstruction::Nop,
        ),
        step(CfiInstruction::Other, factor) is Err,
        steps_from(list, 0, factor, Seq::empty()) matches Ok(steps) ==> steps.len() == list.len()
            && (0 <= k < list.len() ==> list[k] is Some && step(list[k]->Some_0, factor) == Ok::<
            EhFrameInstruction,
            Error,
        >(steps[k])),
{
    lemma_steps(list, 0, factor, Seq::empty(), k);
    assert((-1) * factor == -factor);
}

proof fn lemma_steps(
    list: Seq<Option<CfiInstruction>>,
    from: int,
    factor: i64,
    known: Seq<EhFrameInstruction>,
    k: int,
)
    requires
        0 <= from <= list.len(),
    ensures
        steps_from(list, from, factor, known) matches Ok(steps) ==> steps.len() == known.len()
            + list.len() - from && (0 <= k < known.len() ==> steps[k] == known[k]) && (from <= k
            < list.len() ==> list[k] is Some && step(list[k]->Some_0, factor) == Ok::<
            EhFrameInstruction,
            Error,
        >(steps[known.len() + k - from])),
    decreases list.len() - from,
{
    if from < list.len() && list[from] is Some {
        if let Ok(one) = step(list[from]->Some_0, factor) {
            lemma_steps(list, from + 1, factor, known.push(one), k);
            lemma_steps(list, from + 1, factor, known.push(one), known.len() as int);
        }
    }
}

/// Common entries among those from `from` on.
pub open spec fn common_entries(entries: Seq<Option<FrameEntry>>, from: int) -> int
    decreases entries.len() - from,
{
    if from < 0 || from >= entries.len() {
        0
    } else if entries[from] == Some(FrameEntry::Cie) {
        1 + common_entries(entries, from + 1)
    } else {
        common_entries(entries, from + 1)
    }
}

proof fn lemma_blocks(
    entries: Seq<Option<FrameEntry>>,
    lists: Seq<Seq<Option<CfiInstruction>>>,
    from: int,
    blocks: Seq<Map<u64, FrameView>>,
    current: Map<u64, FrameView>,
    a: u64,
)
    requires
        0 <= from <= entries.len(),
        blocks_from(entries, lists, from, blocks, current) is Ok,
        current.contains_key(a),
        forall|k: int|
            from <= k < entries.len() ==> !(#[trigger] entries[k] is Some && entries[k]->Some_0 is Fde
                && entries[k]->Some_0->Fde_0 == a),
    ensures
        ({
            let all = blocks_from(entries, lists, from, blocks, current)->Ok_0;
            &&& all.len() > blocks.len()
            &&& all[blocks.len() as int].contains_key(a)
            &&& all[blocks.len() as int][a] == current[a]
        }),
    decreases entries.len() - from,
{
    if from < entries.len() {
        match entries[from] {
            Some(FrameEntry::Cie) => {
                lemma_closed_blocks_stay(
                    entries,
                    lists,
                    from + 1,
                    blocks.push(current),
                    Map::empty(),
                    blocks.len() as int,
                );
            },
            Some(FrameEntry::Fde(start, len, factor)) => {
                let instructions = steps_from(lists[from], 0, factor, Seq::empty())->Ok_0;
                lemma_blocks(
                    entries,
                    lists,
                    from + 1,
                    blocks,
                    current.insert(start, FrameView { start, len, instructions }),
                    a,
                );
            },
            _ => {},
        }
    }
}

proof fn lemma_closed_blocks_stay(
    entries: Seq<Option<FrameEntry>>,
    lists: Seq<Seq<Option<CfiInstruction>>>,
    from: int,
    blocks: Seq<Map<u64, FrameView>>,
    current: Map<u64, FrameView>,
    k: int,
)
    requires
        0 <= from <= entries.len(),
        blocks_from(entries, lists, from, blocks, current) is Ok,
    ensures
        ({
            let all = blocks_from(entries, lists, from, blocks, current)->Ok_0;
            &&& all.len() == blocks.len() + 1 + common_entries(entries, from)
            &&& common_entries(entries, from) >= 0
            &&& 0 <= k < blocks.len() ==> all[k] == blocks[k]
        }),
    decreases entries.len() - from,
{
    if from < entries.len() {
        match entries[from] {
            Some(FrameEntry::Cie) => {
                lemma_closed_blocks_stay(
                    entries,
                    lists,
                    from + 1,
                    blocks.push(current),
                    Map::empty(),
                    k,
                );
            },
            Some(FrameEntry::Fde(start, len, factor)) => {
                let instructions = steps_from(lists[from], 0, factor, Seq::empty())->Ok_0;
                lemma_closed_blocks_stay(
                    entries,
                    lists,
                    from + 1,
                    blocks,
                    current.insert(start, FrameView { start, len, instructions }),
                    k,
                );
            },
            _ => {},
        }
    }
}

proof fn lemma_frame_in_block(
    entries: Seq<Option<FrameEntry>>,
    lists: Seq<Seq<Option<CfiInstruction>>>,
    from: int,
    blocks: Seq<Map<u64, FrameView>>,
    current: Map<u64, FrameView>,
    i: int,
)
    requires
        0 <= from <= i < entries.len(),
        blocks_from(entries, lists, from, blocks, current) is Ok,
        entries[i] is Some,
        entries[i]->Some_0 is Fde,
        forall|k: int|
            i < k < entries.len() ==> !(#[trigger] entries[k] is Some && entries[k]->Some_0 is Fde
                && entries[k]->Some_0->Fde_0 == entries[i]->Some_0->Fde_0),
    ensures
        ({
            let all = blocks_from(entries, lists, from, blocks, current)->Ok_0;
            let n = blocks.len() + common_entries(entries, from) - common_entries(entries, i);
            let (start, len, factor) = (
                entries[i]->Some_0->Fde_0,
                entries[i]->Some_0->Fde_1,
                entries[i]->Some_0->Fde_2,
            );
            &&& 0 <= n < all.len()
            &&& all[n].contains_key(start)
            &&& all[n][start].start == start
            &&& all[n][start].len == len
            &&& steps_from(lists[i], 0, factor, Seq::empty()) == Ok::<
                Seq<EhFrameInstruction>,
                Error,
            >(all[n][start].instructions)
        }),
    decreases i - from,
{
    match entries[from] {
        Some(FrameEntry::Cie) => {
            lemma_frame_in_block(
                entries,
                lists,
                from + 1,
                blocks.push(current),
                Map::empty(),
                i,
            );
        },
        Some(FrameEntry::Fde(start, len, factor)) => {
            let instructions = steps_from(lists[from], 0, factor, Seq::empty())->Ok_0;
            let next = current.insert(start, FrameView { start, len, instructions });
            if from == i {
                lemma_blocks(entries, lists, from + 1, blocks, next, start);
            } else {
                lemma_frame_in_block(entries, lists, from + 1, blocks, next, i);
            }
        },
        _ => {},
    }
}

/// There is one block for each common entry, and each frame, unless a later one starts at the same
/// address, is in the block of the last common entry before it, with its own length and instructions.
pub proof fn law_frames_are_in_their_block(
    entries: Seq<Option<FrameEntry>>,
    lists: Seq<Seq<Option<CfiInstruction>>>,
    i: int,
)
    requires
        frames_of(entries, lists) is Ok,
        0 <= i < entries.len(),
    ensures
        ({
            let blocks = frames_of(entries, lists)->Ok_0;
            let n = common_entries(entries, 0) - 1 - common_entries(entries, i);
            &&& entries[0] == Some(FrameEntry::Cie)
            &&& blocks.len() == common_entries(entries, 0)
            &&& entries[i] is Some && entries[i]->Some_0 is Fde && (forall|k: int|
                i < k < entries.len() ==> !(#[trigger] entries[k] is Some
                    && entries[k]->Some_0 is Fde && entries[k]->Some_0->Fde_0
                    == entries[i]->Some_0->Fde_0)) ==> {
                let start = entries[i]->Some_0->Fde_0;
                &&& 0 <= n < blocks.len()
                &&& blocks[n].contains_key(start)
                &&& blocks[n][start].start == start
                &&& blocks[n][start].len == entries[i]->Some_0->Fde_1
                &&& steps_from(lists[i], 0, entries[i]->Some_0->Fde_2, Seq::empty()) == Ok::<
                    Seq<EhFrameInstruction>,
                    Error,
                >(blocks[n][start].instructions)
            }
        }),
{
    lemma_closed_blocks_stay(entries, lists, 1, Seq::empty(), Map::empty(), 0);
    if entries[i] is Some && entries[i]->Some_0 is Fde && (forall|k: int|
        i < k < entries.len() ==> !(#[trigger] entries[k] is Some && entries[k]->Some_0 is Fde
            && entries[k]->Some_0->Fde_0 == entries[i]->Some_0->Fde_0)) {
        lemma_frame_in_block(entries, lists, 1, Seq::empty(), Map::empty(), i);
    }
}

/// The frames are read where the header of the unwinding table says. Pointers may be relative to the
/// header, the code, the `.got` section and the frames themselves.
pub proof fn law_frames_are_read_from_their_section(
    memory: Seq<u8>,
    module: Module,
    text_offset: usize,
    sections: Map<u64, SectionType>,
    got: int,
    got_end: int,
    hdr: u64,
)
    requires
        hdr == module.header_offset + module.ex_info_start_offset,
        eh_frame_of(memory, hdr, module, text_offset, sections) is Ok,
        section_map::is_whole(sections, got, got_end, SectionType::Got),
        got_end <= u64::MAX,
    ensures
        ({
            let (frames, size) = eh_frame_of(memory, hdr, module, text_offset, sections)->Ok_0;
            let table = memory.subrange(hdr as int, memory.len() as int);
            let bases = Bases {
                eh_frame_hdr: hdr,
                text: text_offset as u64,
                got: got as u64,
                eh_frame: 0,
            };
            let place = eh_frame_pointer(table, bases)->Some_0;
            let own = Bases {
                eh_frame_hdr: hdr,
                text: text_offset as u64,
                got: got as u64,
                eh_frame: place,
            };
            let section = memory.subrange(place as int, memory.len() as int);
            &&& hdr <= memory.len()
            &&& eh_frame_pointer(table, bases) is Some
            &&& place <= memory.len()
            &&& header_size(table, hdr) == Ok::<int, Error>(size)
            &&& frames_of(frame_entries(section, own), frame_instructions(section, own)) == Ok::<
                Seq<Map<u64, FrameView>>,
                Error,
            >(frames)
        }),
{
    section_map::lemma_whole_section(sections, got, got_end, SectionType::Got);
}

/// General registers are `w0` to `w30`, and those for fractions are `d0` to `d31`. There are no others.
pub proof fn law_registers_are_named_by_their_number(register: u16)
    ensures
        register < 31 ==> register_name(register) == Ok::<Seq<char>, Error>(
            seq!['w'] + fmt::decimal(register as int),
        ),
        64 <= register < 96 ==> register_name(register) == Ok::<Seq<char>, Error>(
            seq!['d'] + fmt::decimal(register - 64),
        ),
        register_name(register) is Ok <==> register < 31 || (64 <= register < 96),
{
    reveal_strlit("w");
    reveal_strlit("d");
    assert("w"@ =~= seq!['w']);
    assert("d"@ =~= seq!['d']);
}

/// Each step is written as the directive for it, register first. A step that only advances is not
/// written.
pub proof fn law_steps_are_written_in_full(register: u16, size: u64, offset: i64, delta: u32)
    requires
        register_name(register) is Ok,
    ensures
        ({
            let name = register_name(register)->Ok_0;
            let cfa = step_line(EhFrameInstruction::DefCfa { register, offset: size });
            let cfa_offset = step_line(EhFrameInstruction::DefCfaOffset { offset: size });
            let saved = step_line(EhFrameInstruction::Offset { register, offset });
            let nothing = step_line(EhFrameInstruction::Nop);
            &&& cfa is Ok && cfa->Ok_0 == Some(
                ".cfi_def_cfa "@ + name + seq![',', ' '] + fmt::decimal(size as int),
            )
            &&& cfa_offset is Ok && cfa_offset->Ok_0 == Some(
                ".cfi_def_cfa_offset "@ + fmt::decimal(size as int),
            )
            &&& saved is Ok && saved->Ok_0 == Some(
                ".cfi_offset "@ + name + seq![',', ' '] + fmt::decimal(offset as int),
            )
            &&& nothing is Ok && nothing->Ok_0 == Some(".cfi_escape 0x00"@)
            &&& step_line(EhFrameInstruction::AdvanceLoc { delta }) == Ok::<
                Option<Seq<char>>,
                Error,
            >(None)
        }),
{
    reveal_strlit(", ");
    assert(", "@ =~= seq![',', ' ']);
}

/// A directive is put at the address that all steps before it have advanced to, behind what is there.
/// Only steps that advance change the address.
pub proof fn law_directives_are_put_where_they_apply(
    steps: Seq<EhFrameInstruction>,
    from: int,
    address: u64,
    lines: Map<u64, Seq<Seq<char>>>,
)
    requires
        0 <= from < steps.len(),
        step_line(steps[from]) is Ok,
    ensures
        ({
            let all = step_lines(steps, from, address, lines);
            let here = if lines.contains_key(address) {
                lines[address]
            } else {
                Seq::empty()
            };
            &&& steps[from] is AdvanceLoc && address + steps[from]->AdvanceLoc_delta <= u64::MAX
                ==> all == step_lines(
                steps,
                from + 1,
                (address + steps[from]->AdvanceLoc_delta) as u64,
                lines,
            )
            &&& steps[from] !is AdvanceLoc ==> all == step_lines(
                steps,
                from + 1,
                address,
                lines.insert(address, here.push(step_line(steps[from])->Ok_0->Some_0)),
            )
            &&& step_lines(steps, steps.len() as int, address, lines) == Ok::<
                Map<u64, Seq<Seq<char>>>,
                Error,
            >(lines)
        }),
{
    if steps[from] is AdvanceLoc {
        bytes::law_addresses_wrap_around(address + steps[from]->AdvanceLoc_delta);
    }
}

/// A frame starts behind all that is known at its first address, and ends before all that is known at
/// the address behind it, so that a frame ends before the next one starts.
pub proof fn law_frames_end_before_the_next_starts(
    frame: FrameView,
    lines: Map<u64, Seq<Seq<char>>>,
)
    requires
        frame.len > 0,
        frame.start + frame.len <= u64::MAX,
    ensures
        ({
            let end = (frame.start + frame.len) as u64;
            let first = lines_at(lines, frame.start).push(".cfi_startproc"@);
            let last = seq![".cfi_endproc"@] + lines_at(lines, end);
            frame_lines(frame, lines) == step_lines(
                frame.instructions,
                0,
                frame.start,
                lines.insert(frame.start, first).insert(end, last),
            )
        }),
{
}

} // verus!
