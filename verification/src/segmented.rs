//! A binary that is kept as separate segments, for its global offset table alone.

use std::collections::{BTreeMap, HashMap};

use vstd::prelude::*;
use vstd::slice::*;
use vstd::utf8::*;

use crate::bytes::{self, read_u32, read_u64, to_u64};
use crate::error::Error;
use crate::lines::{self, make_offset_name, put_global_label, put_line, put_line_of_two};
use crate::nso::export;
use crate::nso::lookup::{self, index_relocations};
use crate::nso::nso::{self, count_jump_slots};
use crate::nso::nso_file::{self, NsoFile};
use crate::nso::nso_header::{self, HeaderView, NsoHeader, NsoSegment};
use crate::nso::sections::{self, put_quad_entry, start_section};
use crate::nso::string_tables::{self, parse_dynamic_string_table};
use crate::nso::tables::{
    self, find_reloc_table, get_dynamic_tag_value, parse_dynamic_symbols, read_relocation,
    DynamicSymbol, DynamicTagType, Module, Relocation, RelocationType,
};

verus! {

/// `String::from_utf8`: the text of bytes that are valid UTF-8, and nothing for others.
#[verifier::external_body]
fn decode_strict(data: &[u8]) -> (r: Option<String>)
    ensures
        match r {
            Some(text) => valid_utf8(data@) && text@ == decode_utf8(data@),
            None => !valid_utf8(data@),
        },
{
    String::from_utf8(data.to_vec()).ok()
}

/// The text that says what built a binary.
#[derive(Debug)]
pub struct BuildStr {
    pub build_str: String,
}

/// The build text at the start of the read-only data: its length stands behind four other bytes.
pub open spec fn build_text(rodata: Seq<u8>) -> Result<Seq<char>, Error> {
    match bytes::le_read(rodata, 4, 4) {
        Err(e) => Err(e),
        Ok(length) => if 8 + length > rodata.len() {
            Err(Error::UnexpectedEnd)
        } else if !valid_utf8(rodata.subrange(8, 8 + length)) {
            Err(Error::BadBuildString)
        } else {
            Ok(decode_utf8(rodata.subrange(8, 8 + length)))
        },
    }
}

impl BuildStr {
    pub fn new(rodata_segment: &[u8]) -> (r: Result<Self, Error>)
        ensures
            match r {
                Ok(built) => build_text(rodata_segment@) == Ok::<Seq<char>, Error>(
                    built.build_str@,
                ),
                Err(e) => build_text(rodata_segment@) == Err::<Seq<char>, Error>(e),
            },
    {
        let total: usize = rodata_segment.len();
        let length: u64 = read_u32(rodata_segment, 4)? as u64;
        if 8 + length > total as u64 {
            return Err(Error::UnexpectedEnd);
        }
        let data = slice_subrange(rodata_segment, 8, (8 + length) as usize);
        match decode_strict(data) {
            Some(build_str) => Ok(BuildStr { build_str }),
            None => Err(Error::BadBuildString),
        }
    }
}

/// Where the global offset table starts, and how many entries it has.
#[derive(Clone, Copy, Debug)]
pub struct GotMetadata {
    pub start_offset: u64,
    pub count: u64,
}

/// A binary by its segments.
pub struct NSO {
    pub header: NsoHeader,
    pub text_segment: Vec<u8>,
    pub rodata_segment: Vec<u8>,
    pub data_segment: Vec<u8>,
    pub build_str: BuildStr,
    pub symbol_table: Vec<DynamicSymbol>,
    pub module: Module,
    pub dynamic_segment: Vec<(DynamicTagType, u64)>,
    pub reloc_dyn_table: Vec<Relocation>,
    pub reloc_plt_table: Vec<Relocation>,
    pub dynstr_table: BTreeMap<u64, String>,
    pub global_plt: Vec<u64>,
    pub got_metadata: GotMetadata,
}

/// What an [`NSO`] says.
pub struct SegmentedView {
    pub header: HeaderView,
    pub text_segment: Seq<u8>,
    pub rodata_segment: Seq<u8>,
    pub data_segment: Seq<u8>,
    pub build_str: Seq<char>,
    pub symbols: Seq<DynamicSymbol>,
    pub module: Module,
    pub dynamic: Seq<(DynamicTagType, u64)>,
    pub reloc_dyn: Seq<Relocation>,
    pub reloc_plt: Seq<Relocation>,
    pub strings: Map<u64, Seq<char>>,
    pub global_plt: Seq<u64>,
    pub got: GotMetadata,
}

impl View for NSO {
    type V = SegmentedView;

    open spec fn view(&self) -> SegmentedView {
        SegmentedView {
            header: self.header@,
            text_segment: self.text_segment@,
            rodata_segment: self.rodata_segment@,
            data_segment: self.data_segment@,
            build_str: self.build_str.build_str@,
            symbols: self.symbol_table@,
            module: self.module,
            dynamic: self.dynamic_segment@,
            reloc_dyn: self.reloc_dyn_table@,
            reloc_plt: self.reloc_plt_table@,
            strings: tables::string_views(self.dynstr_table@),
            global_plt: self.global_plt@,
            got: self.got_metadata,
        }
    }
}

/// The header and the three segments of a file. Its version and its reserved fields are not looked at.
pub open spec fn segments_of(data: Seq<u8>) -> Result<
    (HeaderView, Seq<u8>, Seq<u8>, Seq<u8>),
    Error,
> {
    let header = nso_header::header_of(data);
    match (
        nso_header::any_header_check(data),
        nso_file::segment_contents(data, header, NsoSegment::Text),
        nso_file::segment_contents(data, header, NsoSegment::Rodata),
        nso_file::segment_contents(data, header, NsoSegment::Data),
    ) {
        (Err(e), _, _, _) => Err(e),
        (Ok(()), Err(e), _, _) => Err(e),
        (Ok(()), Ok(_), Err(e), _) => Err(e),
        (Ok(()), Ok(_), Ok(_), Err(e)) => Err(e),
        (Ok(()), Ok(text), Ok(rodata), Ok(data)) => Ok((header, text, rodata, data)),
    }
}

/// Where the `.dynamic` section starts in the data segment.
pub open spec fn dynamic_start(module: Module, header: HeaderView) -> Result<u32, Error> {
    let sum = module.header_offset + module.dyn_offset;
    let offset = header.segment(NsoSegment::Data).mem_offset;
    if sum > u32::MAX || sum < offset {
        Err(Error::Overflow)
    } else {
        Ok((sum - offset) as u32)
    }
}

/// The kinds of entries of the `.dynamic` section that may be there, by their number. Flags of the
/// second kind may not.
pub open spec fn decoded_tag(value: u64) -> Result<DynamicTagType, Error> {
    match DynamicTagType::decoded(value) {
        Ok(DynamicTagType::DT_FLAGS_1) => Err(Error::BadDynamicTag),
        r => r,
    }
}

/// `entries` with the entries of the `.dynamic` section that follow at `pos`, up to the one that
/// ends it.
pub open spec fn dynamic_entries(
    data: Seq<u8>,
    pos: int,
    entries: Seq<(DynamicTagType, u64)>,
) -> Result<Seq<(DynamicTagType, u64)>, Error>
    decreases data.len() - pos,
{
    if pos + 16 > data.len() {
        Err(Error::UnexpectedEnd)
    } else if tables::u64_at(data, pos) == 0 {
        Ok(entries)
    } else {
        match decoded_tag(tables::u64_at(data, pos)) {
            Err(e) => Err(e),
            Ok(tag) => dynamic_entries(
                data,
                pos + 16,
                entries.push((tag, tables::u64_at(data, pos + 8))),
            ),
        }
    }
}

/// The relocation at `pos`, which has to be of a known type.
pub open spec fn relocation_at(data: Seq<u8>, pos: int) -> Result<Relocation, Error> {
    match tables::relocation_at(data, pos) {
        Err(e) => Err(e),
        Ok(relocation) => if relocation.reloc_type == RelocationType::R_TYPE_UNKNOWN {
            Err(Error::BadRelocationType)
        } else {
            Ok(relocation)
        },
    }
}

/// `relocations` with `count` more that follow at `pos`.
pub open spec fn relocations_at(
    data: Seq<u8>,
    pos: int,
    count: int,
    relocations: Seq<Relocation>,
) -> Result<Seq<Relocation>, Error>
    decreases count,
{
    if count <= 0 {
        Ok(relocations)
    } else if pos + tables::RELOCATION_SIZE > data.len() {
        Err(Error::OutOfBounds)
    } else {
        match relocation_at(data, pos) {
            Err(e) => Err(e),
            Ok(relocation) => relocations_at(
                data,
                pos + tables::RELOCATION_SIZE,
                count - 1,
                relocations.push(relocation),
            ),
        }
    }
}

/// The relocation table whose place and size two entries of the `.dynamic` section give. It is in
/// the rodata segment.
pub open spec fn relocation_table(
    rodata: Seq<u8>,
    dynamic: Seq<(DynamicTagType, u64)>,
    off_tag: DynamicTagType,
    size_tag: DynamicTagType,
    header: HeaderView,
) -> Result<Seq<Relocation>, Error> {
    match tables::relocation_place(dynamic, off_tag, size_tag, header) {
        Err(e) => Err(e),
        Ok((start, count)) => relocations_at(rodata, start as int, count as int, Seq::empty()),
    }
}

/// `count` numbers of `data`, from `pos` on.
pub open spec fn plt_entries(data: Seq<u8>, pos: int, count: nat, known: Seq<u64>) -> Result<
    Seq<u64>,
    Error,
>
    decreases count,
{
    if count == 0 {
        Ok(known)
    } else {
        match bytes::le_read(data, pos, 8) {
            Err(e) => Err(e),
            Ok(value) => plt_entries(data, pos + 8, (count - 1) as nat, known.push(value as u64)),
        }
    }
}

/// The entries of the `.got.plt` section at `start`, behind three for the loader.
pub open spec fn global_plt_at(data: Seq<u8>, start: int, count: nat) -> Result<Seq<u64>, Error> {
    if start + 0x18 > data.len() {
        Err(Error::OutOfBounds)
    } else {
        plt_entries(data, start + 0x18, count, Seq::empty())
    }
}

/// Where the global offset table is: from behind `.got.plt` to the init array.
pub open spec fn got_of(
    dynamic: Seq<(DynamicTagType, u64)>,
    dynamic_offset: int,
    plt_count: int,
    header: HeaderView,
) -> Result<GotMetadata, Error> {
    let start = dynamic_offset + dynamic.len() * 0x10 + 0x10 + 0x18 + plt_count * 8 + header.offset(
        NsoSegment::Data,
    );
    match tables::tag_value(dynamic, DynamicTagType::DT_INIT_ARRAY) {
        Err(e) => Err(e),
        Ok(end) => if end < start {
            Err(Error::Overflow)
        } else {
            Ok(GotMetadata { start_offset: start as u64, count: ((end - start) / 8) as u64 })
        },
    }
}

/// All that can be read out of the segments.
pub open spec fn segmented_of(
    header: HeaderView,
    text: Seq<u8>,
    rodata: Seq<u8>,
    data: Seq<u8>,
) -> Result<SegmentedView, Error> {
    match build_text(rodata) {
        Err(e) => Err(e),
        Ok(build_str) => match tables::symbols_at(
            rodata,
            header.dynsym_offset as u64,
            header.dynsym_size as u64,
        ) {
            Err(e) => Err(e),
            Ok(symbols) => match tables::module_of(text) {
                Err(e) => Err(e),
                Ok(module) => match dynamic_start(module, header) {
                    Err(e) => Err(e),
                    Ok(start) => if start > data.len() {
                        Err(Error::OutOfBounds)
                    } else {
                        match dynamic_entries(data.skip(start as int), 0, Seq::empty()) {
                            Err(e) => Err(e),
                            Ok(dynamic) => linked(
                                header,
                                text,
                                rodata,
                                data,
                                build_str,
                                symbols,
                                module,
                                start as int,
                                dynamic,
                            ),
                        }
                    },
                },
            },
        },
    }
}

/// The same, once the `.dynamic` section is known.
pub open spec fn linked(
    header: HeaderView,
    text: Seq<u8>,
    rodata: Seq<u8>,
    data: Seq<u8>,
    build_str: Seq<char>,
    symbols: Seq<DynamicSymbol>,
    module: Module,
    start: int,
    dynamic: Seq<(DynamicTagType, u64)>,
) -> Result<SegmentedView, Error> {
    match relocation_table(
        rodata,
        dynamic,
        DynamicTagType::DT_RELA,
        DynamicTagType::DT_RELASZ,
        header,
    ) {
        Err(e) => Err(e),
        Ok(reloc_dyn) => match relocation_table(
            rodata,
            dynamic,
            DynamicTagType::DT_JMPREL,
            DynamicTagType::DT_PLTRELSZ,
            header,
        ) {
            Err(e) => Err(e),
            Ok(reloc_plt) => match string_tables::string_table(
                rodata,
                header.dynstr_offset,
                header.dynstr_size,
            ) {
                Err(e) => Err(e),
                Ok(strings) => match global_plt_at(
                    data,
                    start + dynamic.len() * 0x18,
                    nso::jump_slots(reloc_plt, reloc_plt.len() as int) as nat,
                ) {
                    Err(e) => Err(e),
                    Ok(global_plt) => match got_of(
                        dynamic,
                        start,
                        global_plt.len() as int,
                        header,
                    ) {
                        Err(e) => Err(e),
                        Ok(got) => Ok(
                            SegmentedView {
                                header,
                                text_segment: text,
                                rodata_segment: rodata,
                                data_segment: data,
                                build_str,
                                symbols,
                                module,
                                dynamic,
                                reloc_dyn,
                                reloc_plt,
                                strings,
                                global_plt,
                                got,
                            },
                        ),
                    },
                },
            },
        },
    }
}

/// All that can be read out of a file.
pub open spec fn segmented_nso(data: Seq<u8>) -> Result<SegmentedView, Error> {
    match segments_of(data) {
        Err(e) => Err(e),
        Ok((header, text, rodata, data)) => segmented_of(header, text, rodata, data),
    }
}

/// Reads the `.dynamic` section that `data` begins with.
pub fn parse_dynamic_section(data: &[u8]) -> (r: Result<Vec<(DynamicTagType, u64)>, Error>)
    ensures
        match r {
            Ok(tags) => dynamic_entries(data@, 0, Seq::empty()) == Ok::<
                Seq<(DynamicTagType, u64)>,
                Error,
            >(tags@),
            Err(e) => dynamic_entries(data@, 0, Seq::empty()) == Err::<
                Seq<(DynamicTagType, u64)>,
                Error,
            >(e),
        },
{
    let length: usize = data.len();
    let mut tags: Vec<(DynamicTagType, u64)> = Vec::new();
    let mut pos: usize = 0;
    assert(tags@ =~= Seq::empty());
    loop
        invariant
            length == data@.len(),
            pos <= length,
            dynamic_entries(data@, 0, Seq::empty()) == dynamic_entries(data@, pos as int, tags@),
        decreases length - pos,
    {
        if length - pos < 16 {
            return Err(Error::UnexpectedEnd);
        }
        let number: u64 = read_u64(data, pos)?;
        let value: u64 = read_u64(data, pos + 8)?;
        if number == 0 {
            return Ok(tags);
        }
        let tag = DynamicTagType::decode(number)?;
        if tag == DynamicTagType::DT_FLAGS_1 {
            return Err(Error::BadDynamicTag);
        }
        tags.push((tag, value));
        pos = pos + 16;
    }
}

/// Reads the relocation table whose place and size two entries of the `.dynamic` section give.
pub fn parse_reloc_table(
    rodata_segment: &[u8],
    dynamic_segment: &Vec<(DynamicTagType, u64)>,
    off_tag: DynamicTagType,
    size_tag: DynamicTagType,
    header: &NsoHeader,
) -> (r: Result<Vec<Relocation>, Error>)
    ensures
        ({
            let wanted = relocation_table(
                rodata_segment@,
                dynamic_segment@,
                off_tag,
                size_tag,
                header@,
            );
            match r {
                Ok(table) => wanted == Ok::<Seq<Relocation>, Error>(table@),
                Err(e) => wanted == Err::<Seq<Relocation>, Error>(e),
            }
        }),
{
    let (start, count): (u64, u64) = find_reloc_table(
        dynamic_segment,
        off_tag,
        size_tag,
        header,
    )?;
    let length: u64 = rodata_segment.len() as u64;
    let ghost all = relocations_at(rodata_segment@, start as int, count as int, Seq::empty());
    let mut relocations: Vec<Relocation> = Vec::new();
    assert(relocations@ =~= Seq::empty());
    let mut pos: u64 = start;
    let mut i: u64 = 0;
    while i < count
        invariant
            i <= count,
            pos == start || pos <= length,
            length == rodata_segment@.len() <= usize::MAX,
            all == relocations_at(rodata_segment@, pos as int, count - i, relocations@),
            relocation_table(
                rodata_segment@,
                dynamic_segment@,
                off_tag,
                size_tag,
                header@,
            ) == all,
        decreases count - i,
    {
        if pos > length || length - pos < tables::RELOCATION_SIZE {
            return Err(Error::OutOfBounds);
        }
        let relocation = read_relocation(rodata_segment, pos as usize)?;
        if relocation.reloc_type == RelocationType::R_TYPE_UNKNOWN {
            return Err(Error::BadRelocationType);
        }
        relocations.push(relocation);
        pos = pos + tables::RELOCATION_SIZE;
        i = i + 1;
    }
    Ok(relocations)
}

/// Reads the entries of the `.got.plt` section at `start`, behind three for the loader.
pub fn parse_global_plt(data: &[u8], start: usize, num_entries: u64) -> (r: Result<Vec<u64>, Error>)
    ensures
        match r {
            Ok(entries) => global_plt_at(data@, start as int, num_entries as nat) == Ok::<
                Seq<u64>,
                Error,
            >(entries@) && entries@.len() == num_entries,
            Err(e) => global_plt_at(data@, start as int, num_entries as nat) == Err::<
                Seq<u64>,
                Error,
            >(e),
        },
{
    let total: usize = data.len();
    if start > total || total - start < 0x18 {
        return Err(Error::OutOfBounds);
    }
    let ghost wanted = global_plt_at(data@, start as int, num_entries as nat);
    let mut entries: Vec<u64> = Vec::new();
    let mut pos: usize = start + 0x18;
    let mut i: u64 = 0;
    while i < num_entries
        invariant
            i <= num_entries,
            total == data@.len(),
            pos <= total,
            entries@.len() == i,
            wanted == global_plt_at(data@, start as int, num_entries as nat),
            wanted == plt_entries(data@, pos as int, (num_entries - i) as nat, entries@),
        decreases num_entries - i,
    {
        let value: u64 = read_u64(data, pos)?;
        entries.push(value);
        pos = pos + 8;
        i = i + 1;
    }
    Ok(entries)
}

impl NSO {
    /// Reads a binary from a file.
    pub fn new(file: &[u8]) -> (r: Result<Self, Error>)
        ensures
            match r {
                Ok(nso) => segmented_nso(file@) == Ok::<SegmentedView, Error>(nso@),
                Err(e) => segmented_nso(file@) == Err::<SegmentedView, Error>(e),
            },
    {
        let header = NsoHeader::read_any(file)?;
        let text_segment = NsoFile::read_segment(&NsoSegment::Text, file, &header)?;
        let rodata_segment = NsoFile::read_segment(&NsoSegment::Rodata, file, &header)?;
        let data_segment = NsoFile::read_segment(&NsoSegment::Data, file, &header)?;
        NSO::from_segments(header, text_segment, rodata_segment, data_segment)
    }

    /// Reads a binary from its segments.
    pub fn from_segments(
        header: NsoHeader,
        text_segment: Vec<u8>,
        rodata_segment: Vec<u8>,
        data_segment: Vec<u8>,
    ) -> (r: Result<Self, Error>)
        ensures
            ({
                let wanted = segmented_of(
                    header@,
                    text_segment@,
                    rodata_segment@,
                    data_segment@,
                );
                match r {
                    Ok(nso) => wanted == Ok::<SegmentedView, Error>(nso@),
                    Err(e) => wanted == Err::<SegmentedView, Error>(e),
                }
            }),
    {
        let build_str = BuildStr::new(rodata_segment.as_slice())?;
        let (_, symbol_table) = parse_dynamic_symbols(
            rodata_segment.as_slice(),
            header.dynsym_offset as u64,
            header.dynsym_size as u64,
        )?;
        let module = Module::read(text_segment.as_slice())?;
        let sum: u64 = module.header_offset as u64 + module.dyn_offset as u64;
        let data_offset: u64 = header.get_segment_mem_offset(&NsoSegment::Data) as u64;
        if sum > u32::MAX as u64 || sum < data_offset {
            return Err(Error::Overflow);
        }
        let start: u64 = sum - data_offset;
        let total: usize = data_segment.len();
        if start > total as u64 {
            return Err(Error::OutOfBounds);
        }
        let behind = slice_subrange(data_segment.as_slice(), start as usize, total);
        assert(behind@ =~= data_segment@.skip(start as int));
        let dynamic_segment = parse_dynamic_section(behind)?;
        let reloc_dyn_table = parse_reloc_table(
            rodata_segment.as_slice(),
            &dynamic_segment,
            DynamicTagType::DT_RELA,
            DynamicTagType::DT_RELASZ,
            &header,
        )?;
        let reloc_plt_table = parse_reloc_table(
            rodata_segment.as_slice(),
            &dynamic_segment,
            DynamicTagType::DT_JMPREL,
            DynamicTagType::DT_PLTRELSZ,
            &header,
        )?;
        let dynstr_table = parse_dynamic_string_table(
            rodata_segment.as_slice(),
            header.dynstr_offset,
            header.dynstr_size,
        )?;
        let slots: u64 = count_jump_slots(&reloc_plt_table);
        let plt_start: u128 = start as u128 + dynamic_segment.len() as u128 * 0x18;
        if plt_start > total as u128 {
            return Err(Error::OutOfBounds);
        }
        let global_plt = parse_global_plt(data_segment.as_slice(), plt_start as usize, slots)?;
        let got_metadata = get_got(
            &dynamic_segment,
            start,
            global_plt.len() as u64,
            data_offset,
            &header,
        )?;
        Ok(
            NSO {
                header,
                text_segment,
                rodata_segment,
                data_segment,
                build_str,
                symbol_table,
                module,
                dynamic_segment,
                reloc_dyn_table,
                reloc_plt_table,
                dynstr_table,
                global_plt,
                got_metadata,
            },
        )
    }
}

fn get_got(
    dynamic: &Vec<(DynamicTagType, u64)>,
    dynamic_offset: u64,
    plt_count: u64,
    data_offset: u64,
    header: &NsoHeader,
) -> (r: Result<GotMetadata, Error>)
    requires
        dynamic_offset <= u32::MAX,
        data_offset == header@.offset(NsoSegment::Data),
    ensures
        r == got_of(dynamic@, dynamic_offset as int, plt_count as int, header@),
{
    let start: u128 = dynamic_offset as u128 + dynamic.len() as u128 * 0x10 + 0x28 + plt_count
        as u128 * 8 + data_offset as u128;
    let end: u64 = get_dynamic_tag_value(dynamic, DynamicTagType::DT_INIT_ARRAY)?;
    if (end as u128) < start {
        return Err(Error::Overflow);
    }
    let start: u64 = start as u64;
    Ok(GotMetadata { start_offset: start, count: (end - start) / 8 })
}

/// Where the relocations and symbols of a binary are found in its tables.
pub struct NsoLookupHelper {
    reloc_dyn_addr_to_idx: HashMap<u64, usize>,
    symbol_table_value_to_idx: HashMap<u64, usize>,
}

/// What an [`NsoLookupHelper`] knows.
#[verifier::ext_equal]
pub struct IndexView {
    /// The index of the relocation of each address.
    pub relocations: Map<u64, usize>,
    /// The index of the last symbol of each address.
    pub symbols: Map<u64, usize>,
}

impl View for NsoLookupHelper {
    type V = IndexView;

    closed spec fn view(&self) -> IndexView {
        IndexView {
            relocations: self.reloc_dyn_addr_to_idx@,
            symbols: self.symbol_table_value_to_idx@,
        }
    }
}

impl IndexView {
    /// All indices point into the tables.
    pub open spec fn fits(self, nso: SegmentedView) -> bool {
        &&& forall|a: u64| #[trigger]
            self.relocations.contains_key(a) ==> self.relocations[a] < nso.reloc_dyn.len()
        &&& forall|a: u64| #[trigger]
            self.symbols.contains_key(a) ==> self.symbols[a] < nso.symbols.len()
    }
}

/// The index of the last of the first `count` symbols of each address.
pub open spec fn last_symbols(symbols: Seq<DynamicSymbol>, count: nat) -> Map<u64, usize>
    decreases count,
{
    if count == 0 {
        Map::empty()
    } else {
        last_symbols(symbols, (count - 1) as nat).insert(
            symbols[count - 1].value,
            (count - 1) as usize,
        )
    }
}

/// Where the relocations and symbols of a binary are found. Of several symbols of an address the
/// last one is.
pub open spec fn index_of(nso: SegmentedView) -> Result<IndexView, Error> {
    if lookup::has_duplicates(nso.reloc_dyn) {
        Err(Error::DuplicateRelocation)
    } else {
        Ok(
            IndexView {
                relocations: lookup::relocation_indices(nso.reloc_dyn, nso.reloc_dyn.len()),
                symbols: last_symbols(nso.symbols, nso.symbols.len()),
            },
        )
    }
}

impl NsoLookupHelper {
    /// Finds all relocations and symbols of a binary. No two relocations of `.rela.dyn` may be
    /// about the same address.
    pub fn new(nso: &NSO) -> (r: Result<Self, Error>)
        ensures
            match r {
                Ok(helper) => index_of(nso@) == Ok::<IndexView, Error>(helper@)
                    && helper@.fits(nso@),
                Err(e) => index_of(nso@) == Err::<IndexView, Error>(e),
            },
    {
        let reloc_dyn_addr_to_idx = index_relocations(&nso.reloc_dyn_table)?;
        let mut symbol_table_value_to_idx: HashMap<u64, usize> = HashMap::new();
        let mut i: usize = 0;
        while i < nso.symbol_table.len()
            invariant
                i <= nso.symbol_table@.len(),
                symbol_table_value_to_idx@ == last_symbols(nso.symbol_table@, i as nat),
                forall|a: u64| #[trigger]
                    symbol_table_value_to_idx@.contains_key(a) ==> symbol_table_value_to_idx@[a]
                        < i,
            decreases nso.symbol_table@.len() - i,
        {
            symbol_table_value_to_idx.insert(nso.symbol_table[i].value, i);
            i = i + 1;
        }
        Ok(NsoLookupHelper { reloc_dyn_addr_to_idx, symbol_table_value_to_idx })
    }
}

/// The name of the symbol of a table.
pub open spec fn symbol_name(nso: SegmentedView, index: int) -> Result<Seq<char>, Error> {
    if index >= nso.symbols.len() {
        Err(Error::SymbolMissing)
    } else {
        nso.symbols[index].name(nso.strings)
    }
}

/// `text` with the slots of `.got.plt` from `from` on. The first slot is at `start`.
pub open spec fn slot_lines(
    nso: SegmentedView,
    text: Seq<char>,
    start: int,
    from: int,
) -> Result<Seq<char>, Error>
    decreases nso.global_plt.len() - from,
{
    if from < 0 || from >= nso.global_plt.len() {
        Ok(text)
    } else if start + from * 8 > u64::MAX {
        Err(Error::Overflow)
    } else if from >= nso.reloc_plt.len() {
        Err(Error::OutOfBounds)
    } else {
        match symbol_name(nso, nso.reloc_plt[from].sym_idx as int) {
            Err(e) => Err(e),
            Ok(name) => slot_lines(
                nso,
                sections::quad_entry(text, (start + from * 8) as u64, name),
                start,
                from + 1,
            ),
        }
    }
}

/// The `.got.plt` section: three entries for the loader, and the name of each function.
pub open spec fn got_plt_text(nso: SegmentedView) -> Result<Seq<char>, Error> {
    match tables::tag_value(nso.dynamic, DynamicTagType::DT_PLTGOT) {
        Err(e) => Err(e),
        Ok(start) => if start + 24 > u64::MAX {
            Err(Error::Overflow)
        } else {
            let a = sections::quad_entry(
                sections::section_start(".section \".got.plt\""@),
                start,
                "0"@,
            );
            let b = sections::quad_entry(a, (start + 8) as u64, "0"@);
            let c = sections::quad_entry(b, (start + 16) as u64, "0"@);
            slot_lines(nso, c, start + 24, 0)
        },
    }
}

/// The name of what a relocation of the global offset table points to.
pub open spec fn relocated_name(nso: SegmentedView, index: IndexView, relocation: Relocation) -> Result<
    Seq<char>,
    Error,
> {
    match relocation.reloc_type {
        RelocationType::R_AARCH64_GLOB_DAT | RelocationType::R_AARCH64_ABS64 => symbol_name(
            nso,
            relocation.sym_idx as int,
        ),
        RelocationType::R_AARCH64_RELATIVE => {
            let address = bytes::wrap64(relocation.addend as int);
            if index.symbols.contains_key(address) {
                symbol_name(nso, index.symbols[address] as int)
            } else {
                Ok(lines::offset_name(address))
            }
        },
        _ => Err(Error::UnsupportedRelocation),
    }
}

/// `text` with the entries of the global offset table from `from` on.
pub open spec fn got_lines(
    nso: SegmentedView,
    index: IndexView,
    text: Seq<char>,
    from: int,
) -> Result<Seq<char>, Error>
    decreases nso.got.count - from,
{
    let address = nso.got.start_offset + from * 8;
    if from >= nso.got.count {
        Ok(text)
    } else if address > u64::MAX {
        Err(Error::Overflow)
    } else {
        let labelled = lines::global_label(text, lines::offset_name(address as u64));
        if !index.relocations.contains_key(address as u64) {
            got_lines(nso, index, lines::line(labelled, ""@), from + 1)
        } else {
            match relocated_name(
                nso,
                index,
                nso.reloc_dyn[index.relocations[address as u64] as int],
            ) {
                Err(e) => Err(e),
                Ok(name) => got_lines(
                    nso,
                    index,
                    lines::line(lines::line_of_two(labelled, "\t.quad "@, name), ""@),
                    from + 1,
                ),
            }
        }
    }
}

/// The `.got` section.
pub open spec fn got_text(nso: SegmentedView, index: IndexView) -> Result<Seq<char>, Error> {
    got_lines(nso, index, sections::section_start(".section \".got\""@), 0)
}

/// The files of a binary: their names and what is in them.
pub open spec fn exported(nso: SegmentedView) -> Result<Seq<(Seq<char>, Seq<char>)>, Error> {
    match index_of(nso) {
        Err(e) => Err(e),
        Ok(index) => match (got_plt_text(nso), got_text(nso, index)) {
            (Err(e), _) => Err(e),
            (Ok(_), Err(e)) => Err(e),
            (Ok(got_plt), Ok(got)) => Ok(
                seq![("got.plt.s"@, got_plt), ("got.s"@, got)],
            ),
        },
    }
}

impl NSO {
    fn get_symbol_name(&self, index: u64) -> (r: Result<String, Error>)
        ensures
            match r {
                Ok(name) => symbol_name(self@, index as int) == Ok::<Seq<char>, Error>(name@),
                Err(e) => symbol_name(self@, index as int) == Err::<Seq<char>, Error>(e),
            },
    {
        if index >= self.symbol_table.len() as u64 {
            return Err(Error::SymbolMissing);
        }
        let name = self.symbol_table[index as usize].get_name(&self.dynstr_table)?;
        Ok(name.clone())
    }

    /// Writes the `.got.plt` section.
    pub fn export_got_plt(&self) -> (r: Result<String, Error>)
        ensures
            match r {
                Ok(text) => got_plt_text(self@) == Ok::<Seq<char>, Error>(text@),
                Err(e) => got_plt_text(self@) == Err::<Seq<char>, Error>(e),
            },
    {
        let start: u64 = get_dynamic_tag_value(&self.dynamic_segment, DynamicTagType::DT_PLTGOT)?;
        if start > u64::MAX - 24 {
            return Err(Error::Overflow);
        }
        let mut out = start_section(".section \".got.plt\"");
        put_quad_entry(&mut out, start, "0");
        put_quad_entry(&mut out, start + 8, "0");
        put_quad_entry(&mut out, start + 16, "0");
        let first: u64 = start + 24;
        let mut i: usize = 0;
        while i < self.global_plt.len()
            invariant
                i <= self.global_plt@.len(),
                slot_lines(self@, out@, first as int, i as int) == got_plt_text(self@),
            decreases self.global_plt@.len() - i,
        {
            if i as u64 > (u64::MAX - first) / 8 {
                return Err(Error::Overflow);
            }
            if i >= self.reloc_plt_table.len() {
                return Err(Error::OutOfBounds);
            }
            let name = self.get_symbol_name(self.reloc_plt_table[i].sym_idx as u64)?;
            put_quad_entry(&mut out, first + i as u64 * 8, name.as_str());
            i = i + 1;
        }
        Ok(out)
    }

    fn get_relocated_name(&self, relocation: &Relocation, helper: &NsoLookupHelper) -> (r: Result<
        String,
        Error,
    >)
        ensures
            match r {
                Ok(name) => relocated_name(self@, helper@, *relocation) == Ok::<Seq<char>, Error>(
                    name@,
                ),
                Err(e) => relocated_name(self@, helper@, *relocation) == Err::<Seq<char>, Error>(
                    e,
                ),
            },
    {
        match relocation.reloc_type {
            RelocationType::R_AARCH64_GLOB_DAT
            | RelocationType::R_AARCH64_ABS64 => self.get_symbol_name(relocation.sym_idx as u64),
            RelocationType::R_AARCH64_RELATIVE => {
                let address: u64 = to_u64(relocation.addend);
                match helper.symbol_table_value_to_idx.get(&address) {
                    Some(index) => self.get_symbol_name(*index as u64),
                    None => Ok(make_offset_name(address)),
                }
            },
            _ => Err(Error::UnsupportedRelocation),
        }
    }

    /// Writes the `.got` section.
    pub fn export_got(&self, helper: &NsoLookupHelper) -> (r: Result<String, Error>)
        requires
            helper@.fits(self@),
        ensures
            match r {
                Ok(text) => got_text(self@, helper@) == Ok::<Seq<char>, Error>(text@),
                Err(e) => got_text(self@, helper@) == Err::<Seq<char>, Error>(e),
            },
    {
        let mut out = start_section(".section \".got\"");
        let start: u64 = self.got_metadata.start_offset;
        let mut i: u64 = 0;
        while i < self.got_metadata.count
            invariant
                i <= self.got_metadata.count,
                start == self.got_metadata.start_offset,
                helper@.fits(self@),
                got_lines(self@, helper@, out@, i as int) == got_text(self@, helper@),
            decreases self.got_metadata.count - i,
        {
            if i > (u64::MAX - start) / 8 {
                return Err(Error::Overflow);
            }
            let address: u64 = start + i * 8;
            let name = make_offset_name(address);
            put_global_label(&mut out, name.as_str());
            match helper.reloc_dyn_addr_to_idx.get(&address) {
                None => {},
                Some(index) => {
                    assert(helper@.relocations.contains_key(address));
                    let name = self.get_relocated_name(&self.reloc_dyn_table[*index], helper)?;
                    put_line_of_two(&mut out, "\t.quad ", name.as_str());
                },
            }
            put_line(&mut out, "");
            i = i + 1;
        }
        Ok(out)
    }

    /// Writes the global offset tables.
    pub fn export_all(&self) -> (r: Result<Vec<(String, String)>, Error>)
        ensures
            match r {
                Ok(files) => exported(self@) == Ok::<Seq<(Seq<char>, Seq<char>)>, Error>(
                    export::file_views(files@),
                ),
                Err(e) => exported(self@) == Err::<Seq<(Seq<char>, Seq<char>)>, Error>(e),
            },
    {
        let helper = NsoLookupHelper::new(self)?;
        let got_plt = self.export_got_plt()?;
        let got = self.export_got(&helper)?;
        let mut files: Vec<(String, String)> = Vec::new();
        files.push((String::from_str("got.plt.s"), got_plt));
        files.push((String::from_str("got.s"), got));
        assert(export::file_views(files@) =~= seq![
            ("got.plt.s"@, got_plt@),
            ("got.s"@, got@),
        ]);
        Ok(files)
    }
}

/// The build text stands at the start of the read-only data, behind four bytes and its length.
pub proof fn law_build_texts_have_their_length(rodata: Seq<u8>)
    ensures
        ({
            let length = bytes::le_value(rodata, 4, 4);
            let text = rodata.subrange(8, 8 + length);
            &&& build_text(rodata) is Ok <==> rodata.len() >= 8 && 8 + length <= rodata.len()
                && valid_utf8(text)
            &&& build_text(rodata) is Ok ==> build_text(rodata)->Ok_0 == decode_utf8(text)
        }),
{
}

/// The three segments are those that the header describes.
pub proof fn law_segments_are_those_of_the_header(data: Seq<u8>)
    ensures
        segments_of(data) matches Ok((header, text, rodata, rest)) ==> header
            == nso_header::header_of(data) && nso_header::any_header_check(data) is Ok
            && nso_file::segment_contents(data, header, NsoSegment::Text) == Ok::<Seq<u8>, Error>(
            text,
        ) && nso_file::segment_contents(data, header, NsoSegment::Rodata) == Ok::<Seq<u8>, Error>(
            rodata,
        ) && nso_file::segment_contents(data, header, NsoSegment::Data) == Ok::<Seq<u8>, Error>(
            rest,
        ),
{
}

/// The `.dynamic` section is where the module description says, which counts from the description.
pub proof fn law_dynamic_sections_are_in_the_data(module: Module, header: HeaderView)
    ensures
        dynamic_start(module, header) matches Ok(start) ==> header.data_segment.mem_offset + start
            == module.header_offset + module.dyn_offset,
        module.header_offset + module.dyn_offset <= u32::MAX && header.data_segment.mem_offset
            <= module.header_offset + module.dyn_offset ==> dynamic_start(module, header) is Ok,
{
}

/// No entry is of the kind that may not be there.
pub open spec fn has_no_second_flags(entries: Seq<(DynamicTagType, u64)>, from: int) -> bool {
    forall|k: int| from <= k < entries.len() ==> (#[trigger] entries[k]).0 !is DT_FLAGS_1
}

proof fn lemma_entries_grow(data: Seq<u8>, pos: int, known: Seq<(DynamicTagType, u64)>)
    requires
        tables::dynamic_entries(data, pos, known) is Ok,
    ensures
        ({
            let all = tables::dynamic_entries(data, pos, known)->Ok_0;
            &&& all.len() >= known.len()
            &&& forall|k: int| 0 <= k < known.len() ==> #[trigger] all[k] == known[k]
        }),
    decreases data.len() - pos,
{
    if tables::u64_at(data, pos) != 0 {
        let tag = DynamicTagType::decoded(tables::u64_at(data, pos))->Ok_0;
        let more = known.push((tag, tables::u64_at(data, pos + 8)));
        lemma_entries_grow(data, pos + 16, more);
        let all = tables::dynamic_entries(data, pos, known)->Ok_0;
        assert forall|k: int| 0 <= k < known.len() implies #[trigger] all[k] == known[k] by {
            assert(all[k] == more[k]);
        }
    }
}

/// The entries of the `.dynamic` section are the same as in memory, where none of them is of the kind
/// that may not be there.
pub proof fn law_entries_are_those_in_memory(
    data: Seq<u8>,
    pos: int,
    known: Seq<(DynamicTagType, u64)>,
)
    ensures
        ({
            let own = dynamic_entries(data, pos, known);
            let other = tables::dynamic_entries(data, pos, known);
            &&& own is Ok <==> other is Ok && has_no_second_flags(
                other->Ok_0,
                known.len() as int,
            )
            &&& own is Ok ==> own->Ok_0 == other->Ok_0
        }),
    decreases data.len() - pos,
{
    if pos + 16 <= data.len() && tables::u64_at(data, pos) != 0 {
        if let Ok(tag) = DynamicTagType::decoded(tables::u64_at(data, pos)) {
            let more = known.push((tag, tables::u64_at(data, pos + 8)));
            law_entries_are_those_in_memory(data, pos + 16, more);
            if let Ok(all) = tables::dynamic_entries(data, pos, known) {
                lemma_entries_grow(data, pos + 16, more);
                assert(all[known.len() as int] == more[known.len() as int]);
                assert forall|k: int|
                    known.len() <= k < all.len() && has_no_second_flags(
                        all,
                        more.len() as int,
                    ) && tag !is DT_FLAGS_1 implies (#[trigger] all[k]).0 !is DT_FLAGS_1 by {}
            }
        }
    }
}

/// Relocations are the same as in memory, where all of them are of a known type.
pub proof fn law_relocations_are_those_in_memory(data: Seq<u8>, pos: int)
    ensures
        relocation_at(data, pos) is Ok <==> tables::relocation_at(data, pos) is Ok
            && tables::relocation_at(data, pos)->Ok_0.reloc_type !is R_TYPE_UNKNOWN,
        relocation_at(data, pos) is Ok ==> relocation_at(data, pos) == tables::relocation_at(
            data,
            pos,
        ),
{
}

proof fn lemma_relocations(data: Seq<u8>, pos: int, count: int, known: Seq<Relocation>, k: int)
    requires
        relocations_at(data, pos, count, known) is Ok,
        count >= 0,
    ensures
        ({
            let all = relocations_at(data, pos, count, known)->Ok_0;
            &&& all.len() == known.len() + count
            &&& 0 <= k < known.len() ==> all[k] == known[k]
            &&& known.len() <= k < all.len() ==> relocation_at(
                data,
                pos + 24 * (k - known.len()),
            ) == Ok::<Relocation, Error>(all[k])
        }),
    decreases count,
{
    if count > 0 {
        let next = known.push(relocation_at(data, pos)->Ok_0);
        lemma_relocations(data, pos + 24, count - 1, next, k);
        lemma_relocations(data, pos + 24, count - 1, next, known.len() as int);
        assert(pos + 24 + 24 * (k - next.len()) == pos + 24 * (k - known.len()));
    }
}

/// A relocation table is where one entry of the `.dynamic` section says and as long as the other one
/// says, with 24 bytes for each relocation.
pub proof fn law_relocation_tables_are_in_the_constants(
    rodata: Seq<u8>,
    entries: Seq<(DynamicTagType, u64)>,
    off_tag: DynamicTagType,
    size_tag: DynamicTagType,
    header: HeaderView,
    k: int,
)
    requires
        relocation_table(rodata, entries, off_tag, size_tag, header) is Ok,
    ensures
        ({
            let all = relocation_table(rodata, entries, off_tag, size_tag, header)->Ok_0;
            let at = tables::tag_value(entries, off_tag)->Ok_0;
            let base = header.rodata_segment.mem_offset;
            &&& tables::tag_value(entries, off_tag) is Ok
            &&& tables::tag_value(entries, size_tag) is Ok
            &&& at >= base
            &&& all.len() == tables::tag_value(entries, size_tag)->Ok_0 / 24
            &&& 0 <= k < all.len() ==> relocation_at(rodata, at - base + 24 * k) == Ok::<
                Relocation,
                Error,
            >(all[k])
        }),
{
    let (start, count) = tables::relocation_place(entries, off_tag, size_tag, header)->Ok_0;
    lemma_relocations(rodata, start as int, count as int, Seq::empty(), k);
}

proof fn lemma_plt_entries(data: Seq<u8>, pos: int, count: nat, known: Seq<u64>, k: int)
    requires
        plt_entries(data, pos, count, known) is Ok,
    ensures
        ({
            let all = plt_entries(data, pos, count, known)->Ok_0;
            &&& all.len() == known.len() + count
            &&& 0 <= k < known.len() ==> all[k] == known[k]
            &&& known.len() <= k < all.len() ==> all[k] == bytes::le_value(
                data,
                pos + 8 * (k - known.len()),
                8,
            )
        }),
    decreases count,
{
    if count > 0 {
        bytes::law_lowest_byte_comes_first(data, pos, 8);
        let next = known.push(bytes::le_value(data, pos, 8) as u64);
        lemma_plt_entries(data, pos + 8, (count - 1) as nat, next, k);
        lemma_plt_entries(data, pos + 8, (count - 1) as nat, next, known.len() as int);
        assert(pos + 8 + 8 * (k - next.len()) == pos + 8 * (k - known.len()));
    }
}

/// The slots for functions are the numbers behind the three of the loader, one behind the other.
pub proof fn law_slots_follow_those_of_the_loader(data: Seq<u8>, start: int, count: nat, k: int)
    requires
        global_plt_at(data, start, count) is Ok,
    ensures
        global_plt_at(data, start, count)->Ok_0.len() == count,
        0 <= k < count ==> global_plt_at(data, start, count)->Ok_0[k] == bytes::le_value(
            data,
            start + 24 + 8 * k,
            8,
        ),
{
    lemma_plt_entries(data, start + 24, count, Seq::empty(), k);
}

/// The global offset table follows the `.dynamic` section, with the entry that ends it, and the slots
/// with those of the loader. It goes to the init array, eight bytes for each entry.
pub proof fn law_got_goes_to_the_init_array(
    dynamic: Seq<(DynamicTagType, u64)>,
    dynamic_offset: int,
    plt_count: int,
    header: HeaderView,
    array: u64,
)
    requires
        dynamic_offset >= 0,
        plt_count >= 0,
        tables::tag_value(dynamic, DynamicTagType::DT_INIT_ARRAY) == Ok::<u64, Error>(array),
    ensures
        ({
            let start = header.data_segment.mem_offset + dynamic_offset + 16 * (dynamic.len() + 1)
                + 8 * (plt_count + 3);
            let r = got_of(dynamic, dynamic_offset, plt_count, header);
            &&& start > array ==> r is Err
            &&& start <= array ==> r is Ok && r->Ok_0.start_offset == start && r->Ok_0.count == (
            array - start) / 8
        }),
{
}

/// The tables are read from the segments at the places that the header, the module description and the
/// `.dynamic` section name.
pub proof fn law_tables_are_read_from_the_segments(
    header: HeaderView,
    text: Seq<u8>,
    rodata: Seq<u8>,
    data: Seq<u8>,
)
    requires
        segmented_of(header, text, rodata, data) is Ok,
    ensures
        ({
            let nso = segmented_of(header, text, rodata, data)->Ok_0;
            let start = nso.module.header_offset + nso.module.dyn_offset
                - header.data_segment.mem_offset;
            let slots = nso::jump_slots(nso.reloc_plt, nso.reloc_plt.len() as int);
            &&& nso.header == header
            &&& nso.text_segment == text
            &&& nso.rodata_segment == rodata
            &&& nso.data_segment == data
            &&& build_text(rodata) == Ok::<Seq<char>, Error>(nso.build_str)
            &&& tables::symbols_at(
                rodata,
                header.dynsym_offset as u64,
                header.dynsym_size as u64,
            ) == Ok::<Seq<DynamicSymbol>, Error>(nso.symbols)
            &&& tables::module_of(text) == Ok::<Module, Error>(nso.module)
            &&& dynamic_entries(data.skip(start), 0, Seq::empty()) == Ok::<
                Seq<(DynamicTagType, u64)>,
                Error,
            >(nso.dynamic)
            &&& relocation_table(
                rodata,
                nso.dynamic,
                DynamicTagType::DT_RELA,
                DynamicTagType::DT_RELASZ,
                header,
            ) == Ok::<Seq<Relocation>, Error>(nso.reloc_dyn)
            &&& relocation_table(
                rodata,
                nso.dynamic,
                DynamicTagType::DT_JMPREL,
                DynamicTagType::DT_PLTRELSZ,
                header,
            ) == Ok::<Seq<Relocation>, Error>(nso.reloc_plt)
            &&& string_tables::string_table(rodata, header.dynstr_offset, header.dynstr_size)
                == Ok::<Map<u64, Seq<char>>, Error>(nso.strings)
            &&& global_plt_at(data, start + 24 * nso.dynamic.len(), slots as nat) == Ok::<
                Seq<u64>,
                Error,
            >(nso.global_plt)
            &&& got_of(nso.dynamic, start, nso.global_plt.len() as int, header) == Ok::<
                GotMetadata,
                Error,
            >(nso.got)
        }),
{
    let start = dynamic_start(tables::module_of(text)->Ok_0, header)->Ok_0;
    let dynamic = dynamic_entries(data.skip(start as int), 0, Seq::empty())->Ok_0;
    assert(start + dynamic.len() * 0x18 == start + 24 * dynamic.len());
}

/// The symbol that is found for an address is the last one of that value.
pub proof fn law_last_symbol_is_found(symbols: Seq<DynamicSymbol>, count: nat, address: u64, k: int)
    requires
        count <= symbols.len(),
        symbols.len() <= usize::MAX,
    ensures
        ({
            let found = last_symbols(symbols, count);
            &&& 0 <= k < count && symbols[k].value == address ==> found.contains_key(address)
                && found[address] >= k
            &&& found.contains_key(address) ==> found[address] < count
                && symbols[found[address] as int].value == address
        }),
    decreases count,
{
    if count > 0 {
        law_last_symbol_is_found(symbols, (count - 1) as nat, address, k);
    }
}

/// A slot of the `.got.plt` section is written with the name of the symbol of its relocation.
pub proof fn law_slots_are_written_by_name(
    nso: SegmentedView,
    text: Seq<char>,
    first: int,
    i: int,
    start: u64,
)
    requires
        0 <= i,
        0 <= first,
        first + 8 * i <= u64::MAX,
        start + 24 <= u64::MAX,
        tables::tag_value(nso.dynamic, DynamicTagType::DT_PLTGOT) == Ok::<u64, Error>(start),
    ensures
        ({
            let symbol = nso.symbols[nso.reloc_plt[i].sym_idx as int];
            let place = symbol.str_table_offset as u64;
            &&& i >= nso.global_plt.len() ==> slot_lines(nso, text, first, i) == Ok::<
                Seq<char>,
                Error,
            >(text)
            &&& i < nso.global_plt.len() && i < nso.reloc_plt.len() && nso.reloc_plt[i].sym_idx
                < nso.symbols.len() && nso.strings.contains_key(place) ==> slot_lines(
                nso,
                text,
                first,
                i,
            ) == slot_lines(
                nso,
                sections::quad_entry(text, (first + 8 * i) as u64, nso.strings[place]),
                first,
                i + 1,
            )
            &&& i < nso.global_plt.len() && (i >= nso.reloc_plt.len() || nso.reloc_plt[i].sym_idx
                >= nso.symbols.len()) ==> slot_lines(nso, text, first, i) is Err
            &&& got_plt_text(nso) == slot_lines(
                nso,
                sections::quad_entry(
                    sections::quad_entry(
                        sections::quad_entry(
                            ".section \".got.plt\""@ + seq!['\n', '\n'],
                            start,
                            "0"@,
                        ),
                        (start + 8) as u64,
                        "0"@,
                    ),
                    (start + 16) as u64,
                    "0"@,
                ),
                start + 24,
                0,
            )
        }),
{
    sections::law_sections_start_with_their_name(".section \".got.plt\""@);
}

/// An entry of the global offset table points to the symbol of its relocation. Where that is relative,
/// it points to the last symbol of the address, or to a name made of the address if there is none.
pub proof fn law_relocations_are_named_by_their_target(
    nso: SegmentedView,
    index: IndexView,
    relocation: Relocation,
)
    ensures
        ({
            let kind = relocation.reloc_type;
            let address = relocation.addend as u64;
            let name = relocated_name(nso, index, relocation);
            let symbol = nso.symbols[relocation.sym_idx as int];
            &&& (kind is R_AARCH64_GLOB_DAT || kind is R_AARCH64_ABS64) && relocation.sym_idx
                < nso.symbols.len() ==> name == symbol.name(nso.strings)
            &&& (kind is R_AARCH64_GLOB_DAT || kind is R_AARCH64_ABS64) && relocation.sym_idx
                >= nso.symbols.len() ==> name is Err
            &&& kind is R_AARCH64_RELATIVE && relocation.addend >= 0 && index.symbols.contains_key(
                address,
            ) && index.symbols[address] < nso.symbols.len() ==> name
                == nso.symbols[index.symbols[address] as int].name(nso.strings)
            &&& kind is R_AARCH64_RELATIVE && relocation.addend >= 0 && !index.symbols.contains_key(
                address,
            ) ==> name == Ok::<Seq<char>, Error>(lines::offset_name(address))
            &&& !(kind is R_AARCH64_GLOB_DAT || kind is R_AARCH64_ABS64
                || kind is R_AARCH64_RELATIVE) ==> name is Err
        }),
{
    if relocation.addend >= 0 {
        bytes::law_addresses_wrap_around(relocation.addend as int);
    }
}

/// The entries of the global offset table come eight bytes one behind the other, each under its own
/// name. One without a relocation is only labelled.
pub proof fn law_got_entries_are_written_in_order(
    nso: SegmentedView,
    index: IndexView,
    text: Seq<char>,
    i: int,
)
    requires
        0 <= i,
        nso.got.start_offset + 8 * i <= u64::MAX,
    ensures
        ({
            let address = (nso.got.start_offset + 8 * i) as u64;
            let name = lines::offset_name(address);
            let labelled = text + ".global "@ + name + "\n"@ + name + ":"@ + "\n"@;
            let target = relocated_name(
                nso,
                index,
                nso.reloc_dyn[index.relocations[address] as int],
            );
            let all = got_lines(nso, index, text, i);
            &&& i >= nso.got.count ==> all == Ok::<Seq<char>, Error>(text)
            &&& i < nso.got.count && !index.relocations.contains_key(address) ==> all == got_lines(
                nso,
                index,
                labelled + "\n"@,
                i + 1,
            )
            &&& i < nso.got.count && index.relocations.contains_key(address) && target is Ok ==> all
                == got_lines(
                nso,
                index,
                labelled + "\t.quad "@ + target->Ok_0 + "\n"@ + "\n"@,
                i + 1,
            )
            &&& i < nso.got.count && index.relocations.contains_key(address) && target is Err ==> all
                is Err
            &&& got_text(nso, index) == got_lines(
                nso,
                index,
                ".section \".got\""@ + seq!['\n', '\n'],
                0,
            )
        }),
{
    sections::law_sections_start_with_their_name(".section \".got\""@);
    reveal_strlit("");
    let address = (nso.got.start_offset + 8 * i) as u64;
    let name = lines::offset_name(address);
    let labelled = text + ".global "@ + name + "\n"@ + name + ":"@ + "\n"@;
    assert(labelled + ""@ =~= labelled);
    let target = relocated_name(nso, index, nso.reloc_dyn[index.relocations[address] as int]);
    let quad = labelled + "\t.quad "@ + target->Ok_0 + "\n"@;
    assert(quad + ""@ =~= quad);
}

/// Two files are written: the `.got.plt` section and the `.got` section.
pub proof fn law_both_tables_are_written(nso: SegmentedView, index: IndexView)
    requires
        index_of(nso) == Ok::<IndexView, Error>(index),
        got_plt_text(nso) is Ok,
        got_text(nso, index) is Ok,
    ensures
        exported(nso) is Ok,
        exported(nso)->Ok_0.len() == 2,
        exported(nso)->Ok_0[0] == ("got.plt.s"@, got_plt_text(nso)->Ok_0),
        exported(nso)->Ok_0[1] == ("got.s"@, got_text(nso, index)->Ok_0),
{
}

/// The `.dynamic` section has to start in the data segment.
pub proof fn law_dynamic_sections_out_of_the_data_are_refused(
    header: HeaderView,
    text: Seq<u8>,
    rodata: Seq<u8>,
    data: Seq<u8>,
)
    requires
        build_text(rodata) is Ok,
        tables::symbols_at(rodata, header.dynsym_offset as u64, header.dynsym_size as u64) is Ok,
        tables::module_of(text) is Ok,
    ensures
        ({
            let module = tables::module_of(text)->Ok_0;
            let at = module.header_offset + module.dyn_offset - header.data_segment.mem_offset;
            let r = segmented_of(header, text, rodata, data);
            &&& 0 <= at <= u32::MAX && at > data.len() && module.header_offset + module.dyn_offset
                <= u32::MAX ==> r == Err::<SegmentedView, Error>(Error::OutOfBounds)
            &&& at == data.len() && module.header_offset + module.dyn_offset <= u32::MAX ==> r
                == Err::<SegmentedView, Error>(Error::UnexpectedEnd)
            &&& at < 0 ==> r == Err::<SegmentedView, Error>(Error::Overflow)
        }),
{
}

} // verus!
