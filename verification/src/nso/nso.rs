//! A binary with all that can be read out of it.

use std::collections::BTreeMap;
use std::ops::Range;

use vstd::prelude::*;
use vstd::slice::*;

use crate::error::Error;
use crate::nso::eh_frame::{self, EhFrame, FrameView};
use crate::nso::nso_file::{FileView, NsoFile};
use crate::nso::nso_header::NsoSegment;
use crate::nso::section_map::{self, SectionMap, SectionType};
use crate::nso::string_tables::{
    self, parse_buildstr, parse_dynamic_string_table, parse_embed, parse_gnu_hash_table,
    parse_hash_table, parse_init_array,
};
use crate::nso::tables::{
    self, get_dynamic_tag_value, parse_dynamic_section, parse_dynamic_symbols, parse_reloc_table,
    DynamicSymbol, DynamicTagType, GnuHashTable, GnuHashTableView, HashTable, HashTableView, Module,
    Relocation, RelocationType, MODULE_SIZE,
};
use crate::nso::text::{self, TextSection, TextView};

verus! {

/// A binary and its tables.
pub struct NSO {
    pub file: NsoFile,
    pub sections: SectionMap,
    pub module: Module,
    pub text: TextSection,
    pub build_str: String,
    /// Address and entries.
    pub symbol_table: (u64, Vec<DynamicSymbol>),
    pub dynamic_segment: Vec<(DynamicTagType, u64)>,
    pub reloc_dyn_table: Vec<Relocation>,
    pub reloc_plt_table: Vec<Relocation>,
    pub dynstr_table: BTreeMap<u64, String>,
    /// Address and entries.
    pub init_array: (u64, Vec<u64>),
    pub hash_table: HashTable,
    pub gnu_hash_table: GnuHashTable,
    /// Addresses and contents.
    pub embed: Vec<(u64, String)>,
    pub eh_frame: EhFrame,
}

/// What an [`NSO`] says.
pub struct NsoView {
    pub file: FileView,
    pub sections: Map<u64, SectionType>,
    pub module: Module,
    pub text: TextView,
    pub build_str: Seq<char>,
    pub symbol_offset: u64,
    pub symbols: Seq<DynamicSymbol>,
    pub dynamic: Seq<(DynamicTagType, u64)>,
    pub reloc_dyn: Seq<Relocation>,
    pub reloc_plt: Seq<Relocation>,
    pub strings: Map<u64, Seq<char>>,
    pub init_array_offset: u64,
    pub init_array: Seq<u64>,
    pub hash_table: HashTableView,
    pub gnu_hash_table: GnuHashTableView,
    pub embed: Seq<(u64, Seq<char>)>,
    pub frames: Seq<Map<u64, FrameView>>,
}

impl View for NSO {
    type V = NsoView;

    open spec fn view(&self) -> NsoView {
        NsoView {
            file: self.file@,
            sections: self.sections@,
            module: self.module,
            text: self.text@,
            build_str: self.build_str@,
            symbol_offset: self.symbol_table.0,
            symbols: self.symbol_table.1@,
            dynamic: self.dynamic_segment@,
            reloc_dyn: self.reloc_dyn_table@,
            reloc_plt: self.reloc_plt_table@,
            strings: tables::string_views(self.dynstr_table@),
            init_array_offset: self.init_array.0,
            init_array: self.init_array.1@,
            hash_table: self.hash_table@,
            gnu_hash_table: self.gnu_hash_table@,
            embed: string_tables::embedded_views(self.embed@),
            frames: self.eh_frame@,
        }
    }
}

/// The sections with one more from `start` to `end`.
pub open spec fn ranged(m: Map<u64, SectionType>, start: u64, end: u64, t: SectionType) -> Result<
    Map<u64, SectionType>,
    Error,
> {
    if start >= end {
        Err(Error::EmptySection)
    } else {
        section_map::inserted(m, start, end, t)
    }
}

/// The sections with one more of `size` bytes.
pub open spec fn sized(m: Map<u64, SectionType>, start: int, size: int, t: SectionType) -> Result<
    Map<u64, SectionType>,
    Error,
> {
    if start + size > u64::MAX {
        Err(Error::Overflow)
    } else {
        ranged(m, start as u64, (start + size) as u64, t)
    }
}

/// The first section of a type, which has to be there.
pub open spec fn needed(m: Map<u64, SectionType>, t: SectionType) -> Result<(u64, u64), Error> {
    match section_map::section_range(m, t) {
        Some(range) => Ok(range),
        None => Err(Error::SectionMissing),
    }
}

fn add_range(sections: &mut SectionMap, start: u64, end: u64, t: SectionType) -> (r: Result<
    (),
    Error,
>)
    ensures
        match r {
            Ok(()) => ranged(old(sections)@, start, end, t) == Ok::<Map<u64, SectionType>, Error>(
                final(sections)@,
            ),
            Err(e) => ranged(old(sections)@, start, end, t) == Err::<
                Map<u64, SectionType>,
                Error,
            >(e),
        },
{
    if start >= end {
        return Err(Error::EmptySection);
    }
    sections.insert(start, end, t)
}

fn add_size(sections: &mut SectionMap, start: u64, size: u64, t: SectionType) -> (r: Result<
    (),
    Error,
>)
    ensures
        match r {
            Ok(()) => sized(old(sections)@, start as int, size as int, t) == Ok::<
                Map<u64, SectionType>,
                Error,
            >(final(sections)@),
            Err(e) => sized(old(sections)@, start as int, size as int, t) == Err::<
                Map<u64, SectionType>,
                Error,
            >(e),
        },
{
    if size > u64::MAX - start {
        return Err(Error::Overflow);
    }
    if size == 0 {
        return Err(Error::EmptySection);
    }
    sections.insert_size(start, size, t)
}

fn need(sections: &SectionMap, t: SectionType) -> (r: Result<Range<u64>, Error>)
    ensures
        match r {
            Ok(range) => needed(sections@, t) == Ok::<(u64, u64), Error>((range.start, range.end)),
            Err(e) => needed(sections@, t) == Err::<(u64, u64), Error>(e),
        },
{
    match sections.get_range(&t) {
        Some(range) => Ok(range),
        None => Err(Error::SectionMissing),
    }
}

/// `memory` from `start` to `end`.
pub open spec fn part(memory: Seq<u8>, start: int, end: int) -> Result<Seq<u8>, Error> {
    if 0 <= start <= end <= memory.len() {
        Ok(memory.subrange(start, end))
    } else {
        Err(Error::OutOfBounds)
    }
}

/// A segment of a binary.
pub open spec fn segment(file: FileView, segment: NsoSegment) -> Result<Seq<u8>, Error> {
    part(file.memory, file.header.offset(segment), file.header.end(segment))
}

fn get_segment<'a>(file: &'a NsoFile, which: &NsoSegment) -> (r: Result<&'a [u8], Error>)
    ensures
        match r {
            Ok(data) => segment(file@, *which) == Ok::<Seq<u8>, Error>(data@),
            Err(e) => segment(file@, *which) == Err::<Seq<u8>, Error>(e),
        },
{
    let start: u64 = file.header.get_segment_mem_offset(which) as u64;
    let end: u64 = start + file.header.get_segment_mem_size(which) as u64;
    if end > file.memory.len() as u64 {
        return Err(Error::OutOfBounds);
    }
    Ok(slice_subrange(file.memory.as_slice(), start as usize, end as usize))
}

/// The module, the `.dynamic` section, and the sections known then.
pub open spec fn first_tables(file: FileView) -> Result<
    (Module, Seq<(DynamicTagType, u64)>, Map<u64, SectionType>),
    Error,
> {
    match (
        segment(file, NsoSegment::Text),
        segment(file, NsoSegment::Rodata),
        segment(file, NsoSegment::Data),
    ) {
        (Ok(text), Ok(_), Ok(_)) => if !section_map::are_placed(file.header) {
            Err(Error::EmptySection)
        } else {
            let start = section_map::initial_sections(file.header);
            match tables::module_of(text) {
                Err(e) => Err(e),
                Ok(module) => match sized(
                    start,
                    file.header.offset(NsoSegment::Text),
                    MODULE_SIZE as int,
                    SectionType::Crt0,
                ) {
                    Err(e) => Err(e),
                    Ok(with_crt0) => first_dynamic(file, module, with_crt0),
                },
            }
        },
        _ => Err(Error::OutOfBounds),
    }
}

/// The same, once the module is known.
pub open spec fn first_dynamic(
    file: FileView,
    module: Module,
    sections: Map<u64, SectionType>,
) -> Result<(Module, Seq<(DynamicTagType, u64)>, Map<u64, SectionType>), Error> {
    let offset = module.header_offset + module.dyn_offset;
    if offset > u32::MAX {
        Err(Error::Overflow)
    } else {
        match part(file.memory, offset, file.memory.len() as int) {
            Err(e) => Err(e),
            Ok(data) => match tables::dynamic_entries(data, 0, Seq::empty()) {
                Err(e) => Err(e),
                Ok(dynamic) => match sized(
                    sections,
                    offset,
                    (dynamic.len() as int + 1) * 16,
                    SectionType::Dynamic,
                ) {
                    Err(e) => Err(e),
                    Ok(with_dynamic) => Ok((module, dynamic, with_dynamic)),
                },
            },
        }
    }
}

fn read_first_tables(file: &NsoFile) -> (r: Result<
    (Module, Vec<(DynamicTagType, u64)>, SectionMap),
    Error,
>)
    ensures
        match r {
            Ok((module, dynamic, sections)) => first_tables(file@) == Ok::<
                (Module, Seq<(DynamicTagType, u64)>, Map<u64, SectionType>),
                Error,
            >((module, dynamic@, sections@)),
            Err(e) => first_tables(file@) == Err::<
                (Module, Seq<(DynamicTagType, u64)>, Map<u64, SectionType>),
                Error,
            >(e),
        },
{
    let text_segment = get_segment(file, &NsoSegment::Text)?;
    let _rodata_segment = get_segment(file, &NsoSegment::Rodata)?;
    let _data_segment = get_segment(file, &NsoSegment::Data)?;
    if !has_place(file, &NsoSegment::Text) || !has_place(file, &NsoSegment::Rodata) || !has_place(
        file,
        &NsoSegment::Data,
    ) {
        return Err(Error::EmptySection);
    }
    let mut sections = SectionMap::new(&file.header)?;
    let module = Module::read(text_segment)?;
    let text_offset: u64 = file.header.get_segment_mem_offset(&NsoSegment::Text) as u64;
    add_size(&mut sections, text_offset, MODULE_SIZE as u64, SectionType::Crt0)?;
    let dynamic_offset: u64 = module.header_offset as u64 + module.dyn_offset as u64;
    if dynamic_offset > u32::MAX as u64 {
        return Err(Error::Overflow);
    }
    if dynamic_offset > file.memory.len() as u64 {
        return Err(Error::OutOfBounds);
    }
    let data = slice_subrange(
        file.memory.as_slice(),
        dynamic_offset as usize,
        file.memory.len(),
    );
    let dynamic = parse_dynamic_section(data)?;
    let count: u64 = dynamic.len() as u64;
    if count >= 0x0FFF_FFFF_FFFF_FFFF {
        assert(sized(
            sections@,
            dynamic_offset as int,
            (dynamic@.len() as int + 1) * 16,
            SectionType::Dynamic,
        ) == Err::<Map<u64, SectionType>, Error>(Error::Overflow));
        return Err(Error::Overflow);
    }
    add_size(&mut sections, dynamic_offset, (count + 1) * 16, SectionType::Dynamic)?;
    Ok((module, dynamic, sections))
}

fn has_place(file: &NsoFile, which: &NsoSegment) -> (r: bool)
    ensures
        r == section_map::is_placed(file@.header, *which),
{
    let start: u64 = file.header.get_segment_mem_offset(which) as u64;
    let size: u64 = file.header.get_segment_mem_size(which) as u64;
    size > 0 && start + size <= u32::MAX as u64
}

/// The relocations of function calls among the first `n`.
pub open spec fn jump_slots(relocations: Seq<Relocation>, n: int) -> int
    decreases n,
{
    if n <= 0 {
        0
    } else if relocations[n - 1].reloc_type == RelocationType::R_AARCH64_JUMP_SLOT {
        jump_slots(relocations, n - 1) + 1
    } else {
        jump_slots(relocations, n - 1)
    }
}

pub(crate) fn count_jump_slots(relocations: &Vec<Relocation>) -> (r: u64)
    ensures
        r == jump_slots(relocations@, relocations@.len() as int),
        r <= relocations@.len(),
{
    let mut count: u64 = 0;
    let mut i: usize = 0;
    while i < relocations.len()
        invariant
            i <= relocations@.len(),
            count == jump_slots(relocations@, i as int),
            count <= i,
        decreases relocations@.len() - i,
    {
        if relocations[i].reloc_type == RelocationType::R_AARCH64_JUMP_SLOT {
            count = count + 1;
        }
        i = i + 1;
    }
    count
}

/// A section whose place and size two entries of the `.dynamic` section give.
pub open spec fn tagged(
    m: Map<u64, SectionType>,
    dynamic: Seq<(DynamicTagType, u64)>,
    off_tag: DynamicTagType,
    size_tag: DynamicTagType,
    t: SectionType,
) -> Result<Map<u64, SectionType>, Error> {
    match tables::tag_value(dynamic, off_tag) {
        Err(e) => Err(e),
        Ok(offset) => match tables::tag_value(dynamic, size_tag) {
            Err(e) => Err(e),
            Ok(size) => sized(m, offset as int, size as int, t),
        },
    }
}

fn add_tagged(
    sections: &mut SectionMap,
    dynamic: &Vec<(DynamicTagType, u64)>,
    off_tag: DynamicTagType,
    size_tag: DynamicTagType,
    t: SectionType,
) -> (r: Result<(), Error>)
    ensures
        match r {
            Ok(()) => tagged(old(sections)@, dynamic@, off_tag, size_tag, t) == Ok::<
                Map<u64, SectionType>,
                Error,
            >(final(sections)@),
            Err(e) => tagged(old(sections)@, dynamic@, off_tag, size_tag, t) == Err::<
                Map<u64, SectionType>,
                Error,
            >(e),
        },
{
    let offset: u64 = get_dynamic_tag_value(dynamic, off_tag)?;
    let size: u64 = get_dynamic_tag_value(dynamic, size_tag)?;
    add_size(sections, offset, size, t)
}

/// The `.rela.plt` table, the code, and the sections known then.
pub open spec fn code_tables(
    file: FileView,
    dynamic: Seq<(DynamicTagType, u64)>,
    sections: Map<u64, SectionType>,
) -> Result<(Seq<Relocation>, TextView, Map<u64, SectionType>), Error> {
    let rodata = segment(file, NsoSegment::Rodata)->Ok_0;
    match tables::relocation_table(
        rodata,
        dynamic,
        DynamicTagType::DT_JMPREL,
        DynamicTagType::DT_PLTRELSZ,
        file.header,
    ) {
        Err(e) => Err(e),
        Ok(reloc_plt) => match tagged(
            sections,
            dynamic,
            DynamicTagType::DT_JMPREL,
            DynamicTagType::DT_PLTRELSZ,
            SectionType::RelaPlt,
        ) {
            Err(e) => Err(e),
            Ok(with_rela_plt) => match tables::tag_value(dynamic, DynamicTagType::DT_PLTGOT) {
                Err(e) => Err(e),
                Ok(got_plt) => match sized(
                    with_rela_plt,
                    got_plt as int,
                    jump_slots(reloc_plt, reloc_plt.len() as int) * 8 + 0x18,
                    SectionType::GotPlt,
                ) {
                    Err(e) => Err(e),
                    Ok(with_got_plt) => text_tables(file, reloc_plt, with_got_plt),
                },
            },
        },
    }
}

/// The same, once the `.got.plt` section is known.
pub open spec fn text_tables(
    file: FileView,
    reloc_plt: Seq<Relocation>,
    sections: Map<u64, SectionType>,
) -> Result<(Seq<Relocation>, TextView, Map<u64, SectionType>), Error> {
    let start = file.header.offset(NsoSegment::Text) + MODULE_SIZE;
    match needed(sections, SectionType::GotPlt) {
        Err(e) => Err(e),
        Ok((got_plt_start, got_plt_end)) => match text::text_section(
            segment(file, NsoSegment::Text)->Ok_0,
            MODULE_SIZE,
            got_plt_start,
            got_plt_end,
        ) {
            Err(e) => Err(e),
            Ok(text) => match sized(
                sections,
                start,
                text.section.len() as int,
                SectionType::Text,
            ) {
                Err(e) => Err(e),
                Ok(with_text) => match sized(
                    with_text,
                    start + text.section.len(),
                    jump_slots(reloc_plt, reloc_plt.len() as int) * 16 + 32,
                    SectionType::Plt,
                ) {
                    Err(e) => Err(e),
                    Ok(with_plt) => Ok((reloc_plt, text, with_plt)),
                },
            },
        },
    }
}

/// Nothing goes wrong before the code is disassembled.
pub open spec fn reaches_code(
    file: FileView,
    dynamic: Seq<(DynamicTagType, u64)>,
    sections: Map<u64, SectionType>,
) -> bool {
    &&& tables::relocation_table(
        segment(file, NsoSegment::Rodata)->Ok_0,
        dynamic,
        DynamicTagType::DT_JMPREL,
        DynamicTagType::DT_PLTRELSZ,
        file.header,
    ) matches Ok(reloc_plt) && tagged(
        sections,
        dynamic,
        DynamicTagType::DT_JMPREL,
        DynamicTagType::DT_PLTRELSZ,
        SectionType::RelaPlt,
    ) matches Ok(with_rela_plt) && tables::tag_value(
        dynamic,
        DynamicTagType::DT_PLTGOT,
    ) matches Ok(got_plt) && sized(
        with_rela_plt,
        got_plt as int,
        jump_slots(reloc_plt, reloc_plt.len() as int) * 8 + 0x18,
        SectionType::GotPlt,
    ) matches Ok(with_got_plt) && needed(with_got_plt, SectionType::GotPlt) is Ok
    &&& segment(file, NsoSegment::Text)->Ok_0.len() >= 16
}

/// The code of a binary is disassembled.
pub open spec fn disassembles(file: FileView) -> bool {
    first_tables(file) matches Ok((_, dynamic, sections)) && reaches_code(file, dynamic, sections)
}

fn read_code_tables(
    file: &NsoFile,
    dynamic: &Vec<(DynamicTagType, u64)>,
    sections: &mut SectionMap,
) -> (r: Result<(Vec<Relocation>, TextSection), Error>)
    requires
        segment(file@, NsoSegment::Text) is Ok,
        segment(file@, NsoSegment::Rodata) is Ok,
    ensures
        match r {
            Ok((reloc_plt, text)) => code_tables(file@, dynamic@, old(sections)@) == Ok::<
                (Seq<Relocation>, TextView, Map<u64, SectionType>),
                Error,
            >((reloc_plt@, text@, final(sections)@)),
            Err(e) => (e == Error::Disassembler && reaches_code(
                file@,
                dynamic@,
                old(sections)@,
            )) || code_tables(file@, dynamic@, old(sections)@) == Err::<
                (Seq<Relocation>, TextView, Map<u64, SectionType>),
                Error,
            >(e),
        },
{
    let text_segment = get_segment(file, &NsoSegment::Text)?;
    let rodata_segment = get_segment(file, &NsoSegment::Rodata)?;
    let reloc_plt = parse_reloc_table(
        rodata_segment,
        dynamic,
        DynamicTagType::DT_JMPREL,
        DynamicTagType::DT_PLTRELSZ,
        &file.header,
    )?;
    add_tagged(
        sections,
        dynamic,
        DynamicTagType::DT_JMPREL,
        DynamicTagType::DT_PLTRELSZ,
        SectionType::RelaPlt,
    )?;
    let entries: u64 = count_jump_slots(&reloc_plt);
    let got_plt: u64 = get_dynamic_tag_value(dynamic, DynamicTagType::DT_PLTGOT)?;
    if entries > (u64::MAX - 0x18) / 8 {
        return Err(Error::Overflow);
    }
    add_size(sections, got_plt, entries * 8 + 0x18, SectionType::GotPlt)?;
    let range = need(sections, SectionType::GotPlt)?;
    proof {
        lemma_needed_is_not_empty(sections@, SectionType::GotPlt);
    }
    let text = TextSection::from_data(text_segment, MODULE_SIZE, range)?;
    let start: u64 = file.header.get_segment_mem_offset(&NsoSegment::Text) as u64
        + MODULE_SIZE as u64;
    let size: u64 = text.section.len() as u64;
    add_size(sections, start, size, SectionType::Text)?;
    if entries > (u64::MAX - 32) / 16 {
        return Err(Error::Overflow);
    }
    add_size(sections, start + size, entries * 16 + 32, SectionType::Plt)?;
    Ok((reloc_plt, text))
}

proof fn lemma_needed_is_not_empty(m: Map<u64, SectionType>, t: SectionType)
    requires
        needed(m, t) is Ok,
    ensures
        needed(m, t)->Ok_0.0 < needed(m, t)->Ok_0.1,
{
    let range = choose|range: (u64, u64)| section_map::is_first_section(m, t, range);
    assert(section_map::is_first_section(m, t, range));
}

/// The sections, filled up to a multiple of eight.
pub open spec fn filled(m: Map<u64, SectionType>, start: int) -> Result<
    Map<u64, SectionType>,
    Error,
> {
    if start + 7 > u64::MAX {
        Err(Error::Overflow)
    } else {
        section_map::align_inserted(m, start as u64, 8)
    }
}

fn fill(sections: &mut SectionMap, start: u64) -> (r: Result<(), Error>)
    ensures
        match r {
            Ok(()) => filled(old(sections)@, start as int) == Ok::<Map<u64, SectionType>, Error>(
                final(sections)@,
            ),
            Err(e) => filled(old(sections)@, start as int) == Err::<Map<u64, SectionType>, Error>(
                e,
            ),
        },
{
    if start > u64::MAX - 7 {
        return Err(Error::Overflow);
    }
    sections.insert_align(start, 8)
}

/// The build string, the symbols, and the sections known then.
pub open spec fn name_tables(file: FileView, sections: Map<u64, SectionType>) -> Result<
    (Seq<char>, Seq<DynamicSymbol>, Map<u64, SectionType>),
    Error,
> {
    let rodata_offset = file.header.offset(NsoSegment::Rodata);
    match string_tables::build_string(segment(file, NsoSegment::Rodata)->Ok_0) {
        Err(e) => Err(e),
        Ok(string) => match sized(
            sections,
            rodata_offset,
            string.len() as int + 9,
            SectionType::ModuleName,
        ) {
            Err(e) => Err(e),
            Ok(with_name) => match filled(with_name, rodata_offset + string.len() + 9) {
                Err(e) => Err(e),
                Ok(with_filling) => {
                    let offset = file.header.dynsym_offset + rodata_offset;
                    match tables::symbols_at(
                        file.memory,
                        offset as u64,
                        file.header.dynsym_size as u64,
                    ) {
                        Err(e) => Err(e),
                        Ok(symbols) => match sized(
                            with_filling,
                            offset,
                            file.header.dynsym_size as int,
                            SectionType::Dynsym,
                        ) {
                            Err(e) => Err(e),
                            Ok(with_dynsym) => Ok(
                                (string_tables::lossy_text(string), symbols, with_dynsym),
                            ),
                        },
                    }
                },
            },
        },
    }
}

fn read_name_tables(file: &NsoFile, sections: &mut SectionMap) -> (r: Result<
    (String, (u64, Vec<DynamicSymbol>)),
    Error,
>)
    requires
        segment(file@, NsoSegment::Rodata) is Ok,
    ensures
        match r {
            Ok((build_str, symbols)) => name_tables(file@, old(sections)@) == Ok::<
                (Seq<char>, Seq<DynamicSymbol>, Map<u64, SectionType>),
                Error,
            >((build_str@, symbols.1@, final(sections)@)) && symbols.0
                == file@.header.dynsym_offset + file@.header.offset(NsoSegment::Rodata),
            Err(e) => name_tables(file@, old(sections)@) == Err::<
                (Seq<char>, Seq<DynamicSymbol>, Map<u64, SectionType>),
                Error,
            >(e),
        },
{
    let rodata_segment = get_segment(file, &NsoSegment::Rodata)?;
    let rodata_offset: u64 = file.header.get_segment_mem_offset(&NsoSegment::Rodata) as u64;
    let (build_str, size): (String, usize) = parse_buildstr(rodata_segment)?;
    add_size(sections, rodata_offset, size as u64, SectionType::ModuleName)?;
    fill(sections, rodata_offset + size as u64)?;
    let dynsym_offset: u64 = file.header.dynsym_offset as u64 + rodata_offset;
    let dynsym_size: u64 = file.header.dynsym_size as u64;
    let symbols = parse_dynamic_symbols(file.memory.as_slice(), dynsym_offset, dynsym_size)?;
    add_size(sections, dynsym_offset, dynsym_size, SectionType::Dynsym)?;
    Ok((build_str, symbols))
}

/// The lowest 32 bits of a number.
pub open spec fn low32(value: u64) -> u32 {
    (value % 0x1_0000_0000) as u32
}

/// The two hash tables and the sections known then.
pub open spec fn hash_tables(
    file: FileView,
    dynamic: Seq<(DynamicTagType, u64)>,
    sections: Map<u64, SectionType>,
) -> Result<(HashTableView, GnuHashTableView, Map<u64, SectionType>), Error> {
    match tables::tag_value(dynamic, DynamicTagType::DT_HASH) {
        Err(e) => Err(e),
        Ok(offset) => match string_tables::hash_table_at(file.memory, low32(offset)) {
            Err(e) => Err(e),
            Ok(hash_table) => {
                let size = 8 + (hash_table.nbucket + hash_table.nchain) * 4;
                if size > u32::MAX {
                    Err(Error::Overflow)
                } else {
                    match sized(sections, offset as int, size, SectionType::Hash) {
                        Err(e) => Err(e),
                        Ok(with_hash) => gnu_hash_tables(file, dynamic, with_hash, hash_table),
                    }
                }
            },
        },
    }
}

/// The same, once the first of the tables is known.
pub open spec fn gnu_hash_tables(
    file: FileView,
    dynamic: Seq<(DynamicTagType, u64)>,
    sections: Map<u64, SectionType>,
    hash_table: HashTableView,
) -> Result<(HashTableView, GnuHashTableView, Map<u64, SectionType>), Error> {
    match tables::tag_value(dynamic, DynamicTagType::DT_GNU_HASH) {
        Err(e) => Err(e),
        Ok(offset) => match string_tables::gnu_hash_table_at(file.memory, low32(offset)) {
            Err(e) => Err(e),
            Ok(gnu) => {
                let size = 16 + gnu.mask * 8 + gnu.nbuckets * 4 + gnu.chains.len() * 4;
                if size > u32::MAX {
                    Err(Error::Overflow)
                } else {
                    match sized(sections, offset as int, size, SectionType::GnuHash) {
                        Err(e) => Err(e),
                        Ok(with_gnu_hash) => match needed(with_gnu_hash, SectionType::GnuHash) {
                            Err(e) => Err(e),
                            Ok((_, end)) => match filled(with_gnu_hash, end as int) {
                                Err(e) => Err(e),
                                Ok(with_filling) => Ok((hash_table, gnu, with_filling)),
                            },
                        },
                    }
                }
            },
        },
    }
}

fn read_hash_tables(
    file: &NsoFile,
    dynamic: &Vec<(DynamicTagType, u64)>,
    sections: &mut SectionMap,
) -> (r: Result<(HashTable, GnuHashTable), Error>)
    ensures
        match r {
            Ok((hash_table, gnu_hash_table)) => hash_tables(file@, dynamic@, old(sections)@)
                == Ok::<(HashTableView, GnuHashTableView, Map<u64, SectionType>), Error>(
                (hash_table@, gnu_hash_table@, final(sections)@),
            ),
            Err(e) => hash_tables(file@, dynamic@, old(sections)@) == Err::<
                (HashTableView, GnuHashTableView, Map<u64, SectionType>),
                Error,
            >(e),
        },
{
    let offset: u64 = get_dynamic_tag_value(dynamic, DynamicTagType::DT_HASH)?;
    let hash_table = parse_hash_table(
        file.memory.as_slice(),
        (offset % 0x1_0000_0000) as u32,
    )?;
    let size: u64 = 8 + (hash_table.nbucket as u64 + hash_table.nchain as u64) * 4;
    if size > u32::MAX as u64 {
        return Err(Error::Overflow);
    }
    add_size(sections, offset, size, SectionType::Hash)?;
    let gnu_offset: u64 = get_dynamic_tag_value(dynamic, DynamicTagType::DT_GNU_HASH)?;
    let gnu = parse_gnu_hash_table(
        file.memory.as_slice(),
        (gnu_offset % 0x1_0000_0000) as u32,
    )?;
    let chains: u64 = gnu.chains.len() as u64;
    if chains > u32::MAX as u64 {
        return Err(Error::Overflow);
    }
    let gnu_size: u64 = 16 + gnu.mask as u64 * 8 + gnu.nbuckets as u64 * 4 + chains * 4;
    if gnu_size > u32::MAX as u64 {
        return Err(Error::Overflow);
    }
    add_size(sections, gnu_offset, gnu_size, SectionType::GnuHash)?;
    let range = need(sections, SectionType::GnuHash)?;
    fill(sections, range.end)?;
    Ok((hash_table, gnu))
}

/// The tables for linking: `.rela.dyn`, the strings, the init array, the embedded strings.
pub struct LinkView {
    pub reloc_dyn: Seq<Relocation>,
    pub strings: Map<u64, Seq<char>>,
    pub init_array_offset: u64,
    pub init_array: Seq<u64>,
    pub embed: Seq<(u64, Seq<char>)>,
}

struct LinkTables {
    reloc_dyn: Vec<Relocation>,
    strings: BTreeMap<u64, String>,
    init_array: (u64, Vec<u64>),
    embed: Vec<(u64, String)>,
}

impl View for LinkTables {
    type V = LinkView;

    closed spec fn view(&self) -> LinkView {
        LinkView {
            reloc_dyn: self.reloc_dyn@,
            strings: tables::string_views(self.strings@),
            init_array_offset: self.init_array.0,
            init_array: self.init_array.1@,
            embed: string_tables::embedded_views(self.embed@),
        }
    }
}

/// The tables for linking and the sections known then.
pub open spec fn link_tables(
    file: FileView,
    dynamic: Seq<(DynamicTagType, u64)>,
    sections: Map<u64, SectionType>,
) -> Result<(LinkView, Map<u64, SectionType>), Error> {
    let rodata = segment(file, NsoSegment::Rodata)->Ok_0;
    let rodata_offset = file.header.offset(NsoSegment::Rodata);
    match tables::relocation_table(
        rodata,
        dynamic,
        DynamicTagType::DT_RELA,
        DynamicTagType::DT_RELASZ,
        file.header,
    ) {
        Err(e) => Err(e),
        Ok(reloc_dyn) => match tagged(
            sections,
            dynamic,
            DynamicTagType::DT_RELA,
            DynamicTagType::DT_RELASZ,
            SectionType::RelaDyn,
        ) {
            Err(e) => Err(e),
            Ok(with_rela_dyn) => match string_tables::string_table(
                rodata,
                file.header.dynstr_offset,
                file.header.dynstr_size,
            ) {
                Err(e) => Err(e),
                Ok(strings) => match sized(
                    with_rela_dyn,
                    file.header.dynstr_offset + rodata_offset,
                    file.header.dynstr_size as int,
                    SectionType::Dynstr,
                ) {
                    Err(e) => Err(e),
                    Ok(with_dynstr) => array_tables(
                        file,
                        dynamic,
                        with_dynstr,
                        reloc_dyn,
                        strings,
                    ),
                },
            },
        },
    }
}

/// The same, once the strings are known.
pub open spec fn array_tables(
    file: FileView,
    dynamic: Seq<(DynamicTagType, u64)>,
    sections: Map<u64, SectionType>,
    reloc_dyn: Seq<Relocation>,
    strings: Map<u64, Seq<char>>,
) -> Result<(LinkView, Map<u64, SectionType>), Error> {
    let embed_offset = file.header.embed_offset + file.header.offset(NsoSegment::Rodata);
    match (
        needed(sections, SectionType::GotPlt),
        tables::tag_value(dynamic, DynamicTagType::DT_INIT_ARRAY),
    ) {
        (Err(e), _) => Err(e),
        (Ok(_), Err(e)) => Err(e),
        (Ok((_, got_start)), Ok(init_array_offset)) => match ranged(
            sections,
            got_start,
            init_array_offset,
            SectionType::Got,
        ) {
            Err(e) => Err(e),
            Ok(with_got) => match tables::tag_value(dynamic, DynamicTagType::DT_INIT_ARRAYSZ) {
                Err(e) => Err(e),
                Ok(init_array_size) => match string_tables::init_array_at(
                    file.memory,
                    init_array_offset,
                    (init_array_size / 8) as u64,
                ) {
                    Err(e) => Err(e),
                    Ok(init_array) => match sized(
                        with_got,
                        init_array_offset as int,
                        (init_array.len() * 8) as int,
                        SectionType::InitArray,
                    ) {
                        Err(e) => Err(e),
                        Ok(with_init_array) => match string_tables::embedded_strings(
                            file.memory,
                            embed_offset as u64,
                            file.header.embed_size as u64,
                        ) {
                            Err(e) => Err(e),
                            Ok(embed) => match sized(
                                with_init_array,
                                embed_offset,
                                file.header.embed_size as int,
                                SectionType::Embed,
                            ) {
                                Err(e) => Err(e),
                                Ok(with_embed) => Ok(
                                    (
                                        LinkView {
                                            reloc_dyn,
                                            strings,
                                            init_array_offset,
                                            init_array,
                                            embed,
                                        },
                                        with_embed,
                                    ),
                                ),
                            },
                        },
                    },
                },
            },
        },
    }
}

fn read_link_tables(
    file: &NsoFile,
    dynamic: &Vec<(DynamicTagType, u64)>,
    sections: &mut SectionMap,
) -> (r: Result<LinkTables, Error>)
    requires
        segment(file@, NsoSegment::Rodata) is Ok,
    ensures
        match r {
            Ok(link) => link_tables(file@, dynamic@, old(sections)@) == Ok::<
                (LinkView, Map<u64, SectionType>),
                Error,
            >((link@, final(sections)@)),
            Err(e) => link_tables(file@, dynamic@, old(sections)@) == Err::<
                (LinkView, Map<u64, SectionType>),
                Error,
            >(e),
        },
{
    let rodata_segment = get_segment(file, &NsoSegment::Rodata)?;
    let rodata_offset: u64 = file.header.get_segment_mem_offset(&NsoSegment::Rodata) as u64;
    let reloc_dyn = parse_reloc_table(
        rodata_segment,
        dynamic,
        DynamicTagType::DT_RELA,
        DynamicTagType::DT_RELASZ,
        &file.header,
    )?;
    add_tagged(
        sections,
        dynamic,
        DynamicTagType::DT_RELA,
        DynamicTagType::DT_RELASZ,
        SectionType::RelaDyn,
    )?;
    let strings = parse_dynamic_string_table(
        rodata_segment,
        file.header.dynstr_offset,
        file.header.dynstr_size,
    )?;
    add_size(
        sections,
        file.header.dynstr_offset as u64 + rodata_offset,
        file.header.dynstr_size as u64,
        SectionType::Dynstr,
    )?;
    let got_plt = need(sections, SectionType::GotPlt)?;
    let init_array_offset: u64 = get_dynamic_tag_value(dynamic, DynamicTagType::DT_INIT_ARRAY)?;
    add_range(sections, got_plt.end, init_array_offset, SectionType::Got)?;
    let count: u64 = get_dynamic_tag_value(dynamic, DynamicTagType::DT_INIT_ARRAYSZ)? / 8;
    let init_array = parse_init_array(file.memory.as_slice(), init_array_offset, count)?;
    add_size(sections, init_array_offset, init_array.len() as u64 * 8, SectionType::InitArray)?;
    let embed_offset: u64 = file.header.embed_offset as u64 + rodata_offset;
    let embed = parse_embed(
        file.memory.as_slice(),
        embed_offset,
        file.header.embed_size as u64,
    )?;
    add_size(sections, embed_offset, file.header.embed_size as u64, SectionType::Embed)?;
    Ok(LinkTables { reloc_dyn, strings, init_array: (init_array_offset, init_array), embed })
}

/// The frames, and the sections when all are known.
pub open spec fn frame_tables(
    file: FileView,
    module: Module,
    text_offset: usize,
    sections: Map<u64, SectionType>,
) -> Result<(Seq<Map<u64, FrameView>>, Map<u64, SectionType>), Error> {
    let hdr = module.ex_info_start_offset + module.header_offset;
    match eh_frame::eh_frame_of(file.memory, hdr as u64, module, text_offset, sections) {
        Err(e) => Err(e),
        Ok((frames, size)) => match sized(sections, hdr, size, SectionType::EhFrameHdr) {
            Err(e) => Err(e),
            Ok(with_hdr) => if size != module.ex_info_end_offset - module.ex_info_start_offset {
                Err(Error::BadEhFrameHdrSize)
            } else {
                match ranged(
                    with_hdr,
                    (module.ex_info_end_offset + module.header_offset) as u64,
                    (file.header.embed_offset + file.header.offset(NsoSegment::Rodata)) as u64,
                    SectionType::EhFrame,
                ) {
                    Err(e) => Err(e),
                    Ok(with_frames) => match remaining_sections(file, module, with_frames) {
                        Err(e) => Err(e),
                        Ok(all) => Ok((frames, all)),
                    },
                }
            },
        },
    }
}

/// The section between two others.
pub open spec fn between(
    m: Map<u64, SectionType>,
    before: SectionType,
    behind: SectionType,
    t: SectionType,
) -> Result<Map<u64, SectionType>, Error> {
    match (needed(m, before), needed(m, behind)) {
        (Err(e), _) => Err(e),
        (Ok(_), Err(e)) => Err(e),
        (Ok((_, start)), Ok((end, _))) => ranged(m, start, end, t),
    }
}

/// The sections that are bounded by others.
pub open spec fn remaining_sections(
    file: FileView,
    module: Module,
    sections: Map<u64, SectionType>,
) -> Result<Map<u64, SectionType>, Error> {
    match between(
        sections,
        SectionType::Dynstr,
        SectionType::EhFrameHdr,
        SectionType::Rodata,
    ) {
        Err(e) => Err(e),
        Ok(with_rodata) => match needed(with_rodata, SectionType::Dynamic) {
            Err(e) => Err(e),
            Ok((dynamic_start, _)) => match ranged(
                with_rodata,
                file.header.segment(NsoSegment::Data).mem_offset as u64,
                dynamic_start,
                SectionType::Data,
            ) {
                Err(e) => Err(e),
                Ok(with_data) => match between(
                    with_data,
                    SectionType::Dynamic,
                    SectionType::GotPlt,
                    SectionType::UnknownData,
                ) {
                    Err(e) => Err(e),
                    Ok(with_unknown) => last_sections(module, with_unknown),
                },
            },
        },
    }
}

/// The last two sections. Then none may be unknown.
pub open spec fn last_sections(module: Module, sections: Map<u64, SectionType>) -> Result<
    Map<u64, SectionType>,
    Error,
> {
    let bss_start = module.bss_start + module.header_offset;
    let bss_end = module.bss_end + module.header_offset;
    if bss_start > u32::MAX || bss_end > u32::MAX {
        Err(Error::Overflow)
    } else {
        match ranged(sections, bss_start as u64, bss_end as u64, SectionType::Bss) {
            Err(e) => Err(e),
            Ok(with_bss) => match needed(with_bss, SectionType::InitArray) {
                Err(e) => Err(e),
                Ok((_, end)) => match sized(with_bss, end as int, 8, SectionType::Tbss) {
                    Err(e) => Err(e),
                    Ok(all) => if section_map::has_type(all, SectionType::Unknown) {
                        Err(Error::SectionUnknown)
                    } else {
                        Ok(all)
                    },
                },
            },
        }
    }
}

fn add_between(
    sections: &mut SectionMap,
    before: SectionType,
    behind: SectionType,
    t: SectionType,
) -> (r: Result<(), Error>)
    ensures
        match r {
            Ok(()) => between(old(sections)@, before, behind, t) == Ok::<
                Map<u64, SectionType>,
                Error,
            >(final(sections)@),
            Err(e) => between(old(sections)@, before, behind, t) == Err::<
                Map<u64, SectionType>,
                Error,
            >(e),
        },
{
    let start = need(sections, before)?;
    let end = need(sections, behind)?;
    add_range(sections, start.end, end.start, t)
}

fn read_remaining_sections(file: &NsoFile, module: &Module, sections: &mut SectionMap) -> (r: Result<
    (),
    Error,
>)
    ensures
        match r {
            Ok(()) => remaining_sections(file@, *module, old(sections)@) == Ok::<
                Map<u64, SectionType>,
                Error,
            >(final(sections)@),
            Err(e) => remaining_sections(file@, *module, old(sections)@) == Err::<
                Map<u64, SectionType>,
                Error,
            >(e),
        },
{
    add_between(
        sections,
        SectionType::Dynstr,
        SectionType::EhFrameHdr,
        SectionType::Rodata,
    )?;
    let dynamic = need(sections, SectionType::Dynamic)?;
    let data_offset: u64 = file.header.get_segment_mem_offset(&NsoSegment::Data) as u64;
    add_range(sections, data_offset, dynamic.start, SectionType::Data)?;
    add_between(
        sections,
        SectionType::Dynamic,
        SectionType::GotPlt,
        SectionType::UnknownData,
    )?;
    let bss_start: u64 = module.bss_start as u64 + module.header_offset as u64;
    let bss_end: u64 = module.bss_end as u64 + module.header_offset as u64;
    if bss_start > u32::MAX as u64 || bss_end > u32::MAX as u64 {
        return Err(Error::Overflow);
    }
    add_range(sections, bss_start, bss_end, SectionType::Bss)?;
    let init_array = need(sections, SectionType::InitArray)?;
    add_size(sections, init_array.end, 8, SectionType::Tbss)?;
    sections.final_check()
}

fn read_frame_tables(
    file: &NsoFile,
    module: &Module,
    text: &TextSection,
    sections: &mut SectionMap,
) -> (r: Result<EhFrame, Error>)
    ensures
        match r {
            Ok(frames) => frame_tables(file@, *module, text.section_offset, old(sections)@)
                == Ok::<(Seq<Map<u64, FrameView>>, Map<u64, SectionType>), Error>(
                (frames@, final(sections)@),
            ),
            Err(e) => frame_tables(file@, *module, text.section_offset, old(sections)@) == Err::<
                (Seq<Map<u64, FrameView>>, Map<u64, SectionType>),
                Error,
            >(e),
        },
{
    let hdr: u64 = module.ex_info_start_offset as u64 + module.header_offset as u64;
    let (frames, size): (EhFrame, u64) = EhFrame::parse_eh_frame_hdr(
        file.memory.as_slice(),
        hdr,
        module,
        text,
        sections,
    )?;
    add_size(sections, hdr, size, SectionType::EhFrameHdr)?;
    if module.ex_info_end_offset < module.ex_info_start_offset || size != (
    module.ex_info_end_offset - module.ex_info_start_offset) as u64 {
        return Err(Error::BadEhFrameHdrSize);
    }
    let rodata_offset: u64 = file.header.get_segment_mem_offset(&NsoSegment::Rodata) as u64;
    add_range(
        sections,
        module.ex_info_end_offset as u64 + module.header_offset as u64,
        file.header.embed_offset as u64 + rodata_offset,
        SectionType::EhFrame,
    )?;
    read_remaining_sections(file, module, sections)?;
    Ok(frames)
}

/// All that can be read out of a binary.
pub open spec fn nso_of(file: FileView) -> Result<NsoView, Error> {
    match first_tables(file) {
        Err(e) => Err(e),
        Ok((module, dynamic, with_dynamic)) => match code_tables(file, dynamic, with_dynamic) {
            Err(e) => Err(e),
            Ok((reloc_plt, text, with_plt)) => match name_tables(file, with_plt) {
                Err(e) => Err(e),
                Ok((build_str, symbols, with_dynsym)) => match hash_tables(
                    file,
                    dynamic,
                    with_dynsym,
                ) {
                    Err(e) => Err(e),
                    Ok((hash_table, gnu_hash_table, with_hashes)) => match link_tables(
                        file,
                        dynamic,
                        with_hashes,
                    ) {
                        Err(e) => Err(e),
                        Ok((link, with_embed)) => match frame_tables(
                            file,
                            module,
                            text.section_offset,
                            with_embed,
                        ) {
                            Err(e) => Err(e),
                            Ok((frames, sections)) => Ok(
                                NsoView {
                                    file,
                                    sections,
                                    module,
                                    text,
                                    build_str,
                                    symbol_offset: (file.header.dynsym_offset + file.header.offset(
                                        NsoSegment::Rodata,
                                    )) as u64,
                                    symbols,
                                    dynamic,
                                    reloc_dyn: link.reloc_dyn,
                                    reloc_plt,
                                    strings: link.strings,
                                    init_array_offset: link.init_array_offset,
                                    init_array: link.init_array,
                                    hash_table,
                                    gnu_hash_table,
                                    embed: link.embed,
                                    frames,
                                },
                            ),
                        },
                    },
                },
            },
        },
    }
}

impl NSO {
    /// Reads all tables of a binary and finds out what each part of it is.
    pub fn new(file: NsoFile) -> (r: Result<Self, Error>)
        ensures
            match r {
                Ok(nso) => nso_of(file@) == Ok::<NsoView, Error>(nso@),
                Err(e) => (e == Error::Disassembler && disassembles(file@)) || nso_of(file@)
                    == Err::<NsoView, Error>(e),
            },
    {
        let (module, dynamic_segment, mut sections) = read_first_tables(&file)?;
        let (reloc_plt_table, text) = read_code_tables(&file, &dynamic_segment, &mut sections)?;
        let (build_str, symbol_table) = read_name_tables(&file, &mut sections)?;
        let (hash_table, gnu_hash_table) = read_hash_tables(
            &file,
            &dynamic_segment,
            &mut sections,
        )?;
        let link = read_link_tables(&file, &dynamic_segment, &mut sections)?;
        let eh_frame = read_frame_tables(&file, &module, &text, &mut sections)?;
        Ok(
            NSO {
                file,
                sections,
                module,
                text,
                build_str,
                symbol_table,
                dynamic_segment,
                reloc_dyn_table: link.reloc_dyn,
                reloc_plt_table,
                dynstr_table: link.strings,
                init_array: link.init_array,
                hash_table,
                gnu_hash_table,
                embed: link.embed,
                eh_frame,
            },
        )
    }
}

/// Every type that may not repeat has at most one section, and none reaches the last address.
pub open spec fn are_sound(m: Map<u64, SectionType>) -> bool {
    section_map::has_single_sections(m) && !m.contains_key(u64::MAX)
}

/// `after` covers all that `m` does.
pub open spec fn covers(after: Map<u64, SectionType>, m: Map<u64, SectionType>) -> bool {
    forall|a: u64| #[trigger] m.contains_key(a) ==> after.contains_key(a)
}

/// The sections of `m` have the same addresses in `after`.
pub open spec fn keeps(after: Map<u64, SectionType>, m: Map<u64, SectionType>) -> bool {
    forall|s: int, e: int, t: SectionType| #[trigger]
        section_map::is_whole(m, s, e, t) && e <= u64::MAX && !t.may_repeat()
            ==> section_map::is_whole(after, s, e, t)
}

proof fn lemma_ranged(m: Map<u64, SectionType>, start: u64, end: u64, t: SectionType)
    requires
        are_sound(m),
    ensures
        ranged(m, start, end, t) matches Ok(after) ==> are_sound(after) && covers(after, m)
            && keeps(after, m) && (!t.may_repeat() ==> section_map::is_whole(
            after,
            start as int,
            end as int,
            t,
        )),
{
    if let Ok(after) = ranged(m, start, end, t) {
        section_map::law_sections_stay_single(m, start, end, t);
        section_map::law_sections_keep_their_addresses(m, start, end, t, 0, 0, t);
        assert forall|s: int, e: int, known: SectionType| #[trigger]
            section_map::is_whole(m, s, e, known) && e <= u64::MAX
                && !known.may_repeat() implies section_map::is_whole(after, s, e, known) by {
            section_map::law_sections_keep_their_addresses(m, start, end, t, s, e, known);
        }
    }
}

proof fn lemma_sized(m: Map<u64, SectionType>, start: int, size: int, t: SectionType)
    requires
        are_sound(m),
    ensures
        sized(m, start, size, t) matches Ok(after) ==> are_sound(after) && covers(after, m)
            && keeps(after, m) && (0 <= start && 0 <= size && !t.may_repeat() ==> section_map::is_whole(
            after,
            start,
            start + size,
            t,
        )),
{
    if start + size <= u64::MAX {
        lemma_ranged(m, start as u64, (start + size) as u64, t);
    }
}

proof fn lemma_filled(m: Map<u64, SectionType>, start: int)
    requires
        are_sound(m),
        start >= 0,
    ensures
        filled(m, start) matches Ok(after) ==> are_sound(after) && covers(after, m) && keeps(
            after,
            m,
        ),
{
    if start + 7 <= u64::MAX {
        let end = section_map::aligned(start as u64 as int, 8);
        if end > start as u64 && filled(m, start) is Ok {
            section_map::law_sections_stay_single(
                m,
                start as u64,
                end as u64,
                SectionType::Align,
            );
            let after = filled(m, start)->Ok_0;
            assert forall|s: int, e: int, known: SectionType| #[trigger]
                section_map::is_whole(m, s, e, known) && e <= u64::MAX
                    && !known.may_repeat() implies section_map::is_whole(after, s, e, known) by {
                section_map::law_sections_keep_their_addresses(
                    m,
                    start as u64,
                    end as u64,
                    SectionType::Align,
                    s,
                    e,
                    known,
                );
            }
        }
    }
}

proof fn lemma_first_tables(file: FileView)
    ensures
        first_tables(file) matches Ok((module, dynamic, after)) ==> {
            let code = file.header.text_segment.mem_offset as int;
            let entries = module.header_offset + module.dyn_offset;
            &&& are_sound(after)
            &&& covers(after, section_map::initial_sections(file.header))
            &&& section_map::is_whole(after, code, code + 36, SectionType::Crt0)
            &&& section_map::is_whole(
                after,
                entries,
                entries + 16 * dynamic.len() + 16,
                SectionType::Dynamic,
            )
        },
{
    if let Ok((module, dynamic, after)) = first_tables(file) {
        let start = section_map::initial_sections(file.header);
        assert(are_sound(start)) by {
            assert forall|a: u64, b: u64, c: u64|
                #![trigger start.contains_key(a), start.contains_key(b), start.contains_key(c)]
                a <= b <= c && start.contains_key(a) && start.contains_key(c) && start[a]
                    == start[c] && !start[a].may_repeat() implies start.contains_key(b)
                && start[b] == start[a] by {}
        }
        let offset = file.header.offset(NsoSegment::Text);
        lemma_sized(start, offset, MODULE_SIZE as int, SectionType::Crt0);
        let with_crt0 = sized(start, offset, MODULE_SIZE as int, SectionType::Crt0)->Ok_0;
        lemma_sized(
            with_crt0,
            module.header_offset + module.dyn_offset,
            (dynamic.len() as int + 1) * 16,
            SectionType::Dynamic,
        );
    }
}

proof fn lemma_tagged(
    m: Map<u64, SectionType>,
    dynamic: Seq<(DynamicTagType, u64)>,
    off_tag: DynamicTagType,
    size_tag: DynamicTagType,
    t: SectionType,
)
    requires
        are_sound(m),
    ensures
        tagged(m, dynamic, off_tag, size_tag, t) matches Ok(after) ==> are_sound(after) && covers(
            after,
            m,
        ) && keeps(after, m) && (!t.may_repeat() ==> section_map::is_whole(
            after,
            tables::tag_value(dynamic, off_tag)->Ok_0 as int,
            tables::tag_value(dynamic, off_tag)->Ok_0 + tables::tag_value(
                dynamic,
                size_tag,
            )->Ok_0,
            t,
        )),
{
    if let Ok(offset) = tables::tag_value(dynamic, off_tag) {
        if let Ok(size) = tables::tag_value(dynamic, size_tag) {
            lemma_sized(m, offset as int, size as int, t);
        }
    }
}

/// The relocations of function calls are counted one by one.
pub proof fn law_jump_slots_are_counted(relocations: Seq<Relocation>, n: int)
    requires
        0 <= n <= relocations.len(),
    ensures
        jump_slots(relocations, n) == relocations.take(n).filter(
            |r: Relocation| r.reloc_type == RelocationType::R_AARCH64_JUMP_SLOT,
        ).len(),
        0 <= jump_slots(relocations, n) <= n,
    decreases n,
{
    reveal(Seq::filter);
    if n > 0 {
        law_jump_slots_are_counted(relocations, n - 1);
        assert(relocations.take(n).drop_last() =~= relocations.take(n - 1));
    }
}

proof fn lemma_code_tables(
    file: FileView,
    dynamic: Seq<(DynamicTagType, u64)>,
    m: Map<u64, SectionType>,
)
    requires
        are_sound(m),
    ensures
        code_tables(file, dynamic, m) matches Ok((calls, text, after)) ==> {
            let code = file.header.text_segment.mem_offset + 36;
            let stubs = code + text.section.len();
            let slots = jump_slots(calls, calls.len() as int);
            let jumps = tables::tag_value(dynamic, DynamicTagType::DT_JMPREL)->Ok_0;
            let got = tables::tag_value(dynamic, DynamicTagType::DT_PLTGOT)->Ok_0;
            let size = tables::tag_value(dynamic, DynamicTagType::DT_PLTRELSZ)->Ok_0;
            &&& are_sound(after)
            &&& covers(after, m)
            &&& keeps(after, m)
            &&& section_map::is_whole(after, jumps as int, jumps + size, SectionType::RelaPlt)
            &&& section_map::is_whole(after, got as int, got + 24 + 8 * slots, SectionType::GotPlt)
            &&& section_map::is_whole(after, code, stubs, SectionType::Text)
            &&& section_map::is_whole(after, stubs, stubs + 32 + 16 * slots, SectionType::Plt)
        },
{
    if let Ok((reloc_plt, text, after)) = code_tables(file, dynamic, m) {
        let entries = jump_slots(reloc_plt, reloc_plt.len() as int);
        law_jump_slots_are_counted(reloc_plt, reloc_plt.len() as int);
        lemma_tagged(
            m,
            dynamic,
            DynamicTagType::DT_JMPREL,
            DynamicTagType::DT_PLTRELSZ,
            SectionType::RelaPlt,
        );
        let a = tagged(
            m,
            dynamic,
            DynamicTagType::DT_JMPREL,
            DynamicTagType::DT_PLTRELSZ,
            SectionType::RelaPlt,
        )->Ok_0;
        let got_plt = tables::tag_value(dynamic, DynamicTagType::DT_PLTGOT)->Ok_0 as int;
        lemma_sized(a, got_plt, entries * 8 + 0x18, SectionType::GotPlt);
        let b = sized(a, got_plt, entries * 8 + 0x18, SectionType::GotPlt)->Ok_0;
        let start = file.header.offset(NsoSegment::Text) + MODULE_SIZE;
        lemma_sized(b, start, text.section.len() as int, SectionType::Text);
        let c = sized(b, start, text.section.len() as int, SectionType::Text)->Ok_0;
        lemma_sized(c, start + text.section.len(), entries * 16 + 32, SectionType::Plt);
    }
}

proof fn lemma_name_tables(file: FileView, m: Map<u64, SectionType>)
    requires
        are_sound(m),
    ensures
        name_tables(file, m) matches Ok((_, _, after)) ==> {
            let start = file.header.rodata_segment.mem_offset as int;
            let name = string_tables::build_string(segment(file, NsoSegment::Rodata)->Ok_0)->Ok_0;
            let symbols = start + file.header.dynsym_offset;
            &&& are_sound(after)
            &&& covers(after, m)
            &&& keeps(after, m)
            &&& section_map::is_whole(after, start, start + name.len() + 9, SectionType::ModuleName)
            &&& section_map::is_whole(
                after,
                symbols,
                symbols + file.header.dynsym_size,
                SectionType::Dynsym,
            )
        },
{
    if let Ok((_, _, after)) = name_tables(file, m) {
        let offset = file.header.offset(NsoSegment::Rodata);
        let string = string_tables::build_string(segment(file, NsoSegment::Rodata)->Ok_0)->Ok_0;
        lemma_sized(m, offset, string.len() as int + 9, SectionType::ModuleName);
        let a = sized(m, offset, string.len() as int + 9, SectionType::ModuleName)->Ok_0;
        lemma_filled(a, offset + string.len() + 9);
        let b = filled(a, offset + string.len() + 9)->Ok_0;
        lemma_sized(
            b,
            file.header.dynsym_offset + offset,
            file.header.dynsym_size as int,
            SectionType::Dynsym,
        );
    }
}

proof fn lemma_hash_tables(
    file: FileView,
    dynamic: Seq<(DynamicTagType, u64)>,
    m: Map<u64, SectionType>,
)
    requires
        are_sound(m),
    ensures
        hash_tables(file, dynamic, m) matches Ok((hash, gnu_hash, after)) ==> {
            let first = tables::tag_value(dynamic, DynamicTagType::DT_HASH)->Ok_0;
            let second = tables::tag_value(dynamic, DynamicTagType::DT_GNU_HASH)->Ok_0;
            &&& are_sound(after)
            &&& covers(after, m)
            &&& keeps(after, m)
            &&& section_map::is_whole(
                after,
                first as int,
                first + 8 + 4 * hash.nbucket + 4 * hash.nchain,
                SectionType::Hash,
            )
            &&& section_map::is_whole(
                after,
                second as int,
                second + 16 + 8 * gnu_hash.mask + 4 * gnu_hash.nbuckets + 4 * gnu_hash.chains.len(),
                SectionType::GnuHash,
            )
        },
{
    if let Ok((hash_table, gnu, after)) = hash_tables(file, dynamic, m) {
        let offset = tables::tag_value(dynamic, DynamicTagType::DT_HASH)->Ok_0 as int;
        let size = 8 + (hash_table.nbucket + hash_table.nchain) * 4;
        lemma_sized(m, offset, size, SectionType::Hash);
        let a = sized(m, offset, size, SectionType::Hash)->Ok_0;
        let gnu_offset = tables::tag_value(dynamic, DynamicTagType::DT_GNU_HASH)->Ok_0 as int;
        let gnu_size = 16 + gnu.mask * 8 + gnu.nbuckets * 4 + gnu.chains.len() * 4;
        lemma_sized(a, gnu_offset, gnu_size, SectionType::GnuHash);
        let b = sized(a, gnu_offset, gnu_size, SectionType::GnuHash)->Ok_0;
        let end = needed(b, SectionType::GnuHash)->Ok_0.1 as int;
        lemma_filled(b, end);
    }
}

proof fn lemma_link_tables(
    file: FileView,
    dynamic: Seq<(DynamicTagType, u64)>,
    m: Map<u64, SectionType>,
)
    requires
        are_sound(m),
    ensures
        link_tables(file, dynamic, m) matches Ok((link, after)) ==> {
            let start = file.header.rodata_segment.mem_offset as int;
            let data = tables::tag_value(dynamic, DynamicTagType::DT_RELA)->Ok_0;
            let size = tables::tag_value(dynamic, DynamicTagType::DT_RELASZ)->Ok_0;
            let strings = start + file.header.dynstr_offset;
            let array = link.init_array_offset as int;
            let embed = start + file.header.embed_offset;
            &&& are_sound(after)
            &&& covers(after, m)
            &&& keeps(after, m)
            &&& section_map::is_whole(after, data as int, data + size, SectionType::RelaDyn)
            &&& section_map::is_whole(
                after,
                strings,
                strings + file.header.dynstr_size,
                SectionType::Dynstr,
            )
            &&& forall|s: int, e: int| #[trigger]
                section_map::is_whole(m, s, e, SectionType::GotPlt) && e <= u64::MAX
                    ==> section_map::is_whole(after, e, array, SectionType::Got)
            &&& section_map::is_whole(
                after,
                array,
                array + 8 * link.init_array.len(),
                SectionType::InitArray,
            )
            &&& section_map::is_whole(
                after,
                embed,
                embed + file.header.embed_size,
                SectionType::Embed,
            )
        },
{
    if let Ok((link, after)) = link_tables(file, dynamic, m) {
        let rodata_offset = file.header.offset(NsoSegment::Rodata);
        lemma_tagged(
            m,
            dynamic,
            DynamicTagType::DT_RELA,
            DynamicTagType::DT_RELASZ,
            SectionType::RelaDyn,
        );
        let a = tagged(
            m,
            dynamic,
            DynamicTagType::DT_RELA,
            DynamicTagType::DT_RELASZ,
            SectionType::RelaDyn,
        )->Ok_0;
        let dynstr = file.header.dynstr_offset + rodata_offset;
        let dynstr_size = file.header.dynstr_size as int;
        lemma_sized(a, dynstr, dynstr_size, SectionType::Dynstr);
        let b = sized(a, dynstr, dynstr_size, SectionType::Dynstr)->Ok_0;
        let got = needed(b, SectionType::GotPlt)->Ok_0.1;
        assert forall|s: int, e: int| #[trigger]
            section_map::is_whole(m, s, e, SectionType::GotPlt) && e <= u64::MAX implies got == e by {
            assert(section_map::is_whole(a, s, e, SectionType::GotPlt));
            assert(section_map::is_whole(b, s, e, SectionType::GotPlt));
            section_map::lemma_whole_section(b, s, e, SectionType::GotPlt);
        }
        lemma_ranged(b, got, link.init_array_offset, SectionType::Got);
        let c = ranged(b, got, link.init_array_offset, SectionType::Got)->Ok_0;
        let size = (link.init_array.len() * 8) as int;
        lemma_sized(c, link.init_array_offset as int, size, SectionType::InitArray);
        let d = sized(c, link.init_array_offset as int, size, SectionType::InitArray)->Ok_0;
        lemma_sized(
            d,
            file.header.embed_offset + rodata_offset,
            file.header.embed_size as int,
            SectionType::Embed,
        );
    }
}

proof fn lemma_between(
    m: Map<u64, SectionType>,
    before: SectionType,
    behind: SectionType,
    t: SectionType,
)
    requires
        are_sound(m),
    ensures
        between(m, before, behind, t) matches Ok(after) ==> are_sound(after) && covers(after, m)
            && keeps(after, m) && (!t.may_repeat() ==> section_map::is_whole(
            after,
            needed(m, before)->Ok_0.1 as int,
            needed(m, behind)->Ok_0.0 as int,
            t,
        )),
{
    if between(m, before, behind, t) is Ok {
        lemma_ranged(m, needed(m, before)->Ok_0.1, needed(m, behind)->Ok_0.0, t);
    }
}

/// Where the sections are that others lie between.
pub struct SectionPlaces {
    pub dynstr: (int, int),
    pub eh_frame_hdr: (int, int),
    pub dynamic: (int, int),
    pub got_plt: (int, int),
    pub init_array: (int, int),
}

impl SectionPlaces {
    /// The sections are in these places.
    pub open spec fn are_in(self, m: Map<u64, SectionType>) -> bool {
        &&& self.dynstr.1 <= u64::MAX
        &&& self.eh_frame_hdr.1 <= u64::MAX
        &&& self.dynamic.1 <= u64::MAX
        &&& self.got_plt.1 <= u64::MAX
        &&& self.init_array.1 <= u64::MAX
        &&& section_map::is_whole(m, self.dynstr.0, self.dynstr.1, SectionType::Dynstr)
        &&& section_map::is_whole(
            m,
            self.eh_frame_hdr.0,
            self.eh_frame_hdr.1,
            SectionType::EhFrameHdr,
        )
        &&& section_map::is_whole(m, self.dynamic.0, self.dynamic.1, SectionType::Dynamic)
        &&& section_map::is_whole(m, self.got_plt.0, self.got_plt.1, SectionType::GotPlt)
        &&& section_map::is_whole(m, self.init_array.0, self.init_array.1, SectionType::InitArray)
    }

    /// The read-only data is between the strings and the unwinding table, the data before the
    /// `.dynamic` section, and what is unknown of the data between that and the `.got.plt` section. The
    /// thread-local data has eight bytes behind the init array.
    pub open spec fn are_bounds(self, data: int, m: Map<u64, SectionType>) -> bool {
        &&& section_map::is_whole(m, self.dynstr.1, self.eh_frame_hdr.0, SectionType::Rodata)
        &&& section_map::is_whole(m, data, self.dynamic.0, SectionType::Data)
        &&& section_map::is_whole(m, self.dynamic.1, self.got_plt.0, SectionType::UnknownData)
        &&& section_map::is_whole(m, self.init_array.1, self.init_array.1 + 8, SectionType::Tbss)
    }
}

proof fn lemma_places(m: Map<u64, SectionType>, p: SectionPlaces)
    requires
        p.are_in(m),
    ensures
        needed(m, SectionType::Dynstr)->Ok_0.1 == p.dynstr.1,
        needed(m, SectionType::EhFrameHdr)->Ok_0.0 == p.eh_frame_hdr.0,
        needed(m, SectionType::Dynamic)->Ok_0.0 == p.dynamic.0,
        needed(m, SectionType::Dynamic)->Ok_0.1 == p.dynamic.1,
        needed(m, SectionType::GotPlt)->Ok_0.0 == p.got_plt.0,
        needed(m, SectionType::InitArray)->Ok_0.1 == p.init_array.1,
{
    section_map::lemma_whole_section(m, p.dynstr.0, p.dynstr.1, SectionType::Dynstr);
    section_map::lemma_whole_section(
        m,
        p.eh_frame_hdr.0,
        p.eh_frame_hdr.1,
        SectionType::EhFrameHdr,
    );
    section_map::lemma_whole_section(m, p.dynamic.0, p.dynamic.1, SectionType::Dynamic);
    section_map::lemma_whole_section(m, p.got_plt.0, p.got_plt.1, SectionType::GotPlt);
    section_map::lemma_whole_section(m, p.init_array.0, p.init_array.1, SectionType::InitArray);
}

proof fn lemma_remaining_sections(file: FileView, module: Module, m: Map<u64, SectionType>)
    requires
        are_sound(m),
    ensures
        remaining_sections(file, module, m) matches Ok(after) ==> are_sound(after) && covers(
            after,
            m,
        ) && keeps(after, m) && !section_map::has_type(after, SectionType::Unknown)
            && section_map::is_whole(
            after,
            module.header_offset + module.bss_start,
            module.header_offset + module.bss_end,
            SectionType::Bss,
        ),
        remaining_sections(file, module, m) is Ok ==> forall|p: SectionPlaces| #[trigger]
            p.are_in(m) ==> p.are_bounds(
                file.header.data_segment.mem_offset as int,
                remaining_sections(file, module, m)->Ok_0,
            ),
{
    if let Ok(after) = remaining_sections(file, module, m) {
        lemma_between(m, SectionType::Dynstr, SectionType::EhFrameHdr, SectionType::Rodata);
        let a = between(
            m,
            SectionType::Dynstr,
            SectionType::EhFrameHdr,
            SectionType::Rodata,
        )->Ok_0;
        let offset = file.header.segment(NsoSegment::Data).mem_offset as u64;
        let dynamic_start = needed(a, SectionType::Dynamic)->Ok_0.0;
        lemma_ranged(a, offset, dynamic_start, SectionType::Data);
        let b = ranged(a, offset, dynamic_start, SectionType::Data)->Ok_0;
        lemma_between(b, SectionType::Dynamic, SectionType::GotPlt, SectionType::UnknownData);
        let c = between(
            b,
            SectionType::Dynamic,
            SectionType::GotPlt,
            SectionType::UnknownData,
        )->Ok_0;
        let bss_start = (module.bss_start + module.header_offset) as u64;
        let bss_end = (module.bss_end + module.header_offset) as u64;
        lemma_ranged(c, bss_start, bss_end, SectionType::Bss);
        let d = ranged(c, bss_start, bss_end, SectionType::Bss)->Ok_0;
        lemma_sized(d, needed(d, SectionType::InitArray)->Ok_0.1 as int, 8, SectionType::Tbss);
        assert forall|p: SectionPlaces| #[trigger] p.are_in(m) implies p.are_bounds(
            file.header.data_segment.mem_offset as int,
            after,
        ) by {
            assert(p.are_in(a));
            assert(p.are_in(b));
            assert(p.are_in(c));
            assert(p.are_in(d));
            lemma_places(m, p);
            lemma_places(a, p);
            lemma_places(b, p);
            lemma_places(d, p);
        }
    }
}

proof fn lemma_frame_tables(
    file: FileView,
    module: Module,
    text_offset: usize,
    m: Map<u64, SectionType>,
)
    requires
        are_sound(m),
    ensures
        frame_tables(file, module, text_offset, m) matches Ok((_, after)) ==> are_sound(after)
            && covers(after, m) && keeps(after, m) && !section_map::has_type(
            after,
            SectionType::Unknown,
        ) && section_map::is_whole(
            after,
            module.header_offset + module.ex_info_start_offset,
            module.header_offset + module.ex_info_end_offset,
            SectionType::EhFrameHdr,
        ) && section_map::is_whole(
            after,
            module.header_offset + module.ex_info_end_offset,
            file.header.rodata_segment.mem_offset + file.header.embed_offset,
            SectionType::EhFrame,
        ) && section_map::is_whole(
            after,
            module.header_offset + module.bss_start,
            module.header_offset + module.bss_end,
            SectionType::Bss,
        ),
        frame_tables(file, module, text_offset, m) matches Ok((_, after)) ==> forall|
            p: SectionPlaces,
        |
            p.eh_frame_hdr.0 == module.header_offset + module.ex_info_start_offset
                && p.eh_frame_hdr.1 == module.header_offset + module.ex_info_end_offset
                && section_map::is_whole(m, p.dynstr.0, p.dynstr.1, SectionType::Dynstr)
                && section_map::is_whole(m, p.dynamic.0, p.dynamic.1, SectionType::Dynamic)
                && section_map::is_whole(m, p.got_plt.0, p.got_plt.1, SectionType::GotPlt)
                && section_map::is_whole(m, p.init_array.0, p.init_array.1, SectionType::InitArray)
                && p.dynstr.1 <= u64::MAX && p.dynamic.1 <= u64::MAX && p.got_plt.1 <= u64::MAX
                && p.init_array.1 <= u64::MAX ==> #[trigger] p.are_bounds(
                file.header.data_segment.mem_offset as int,
                after,
            ),
{
    if let Ok((_, after)) = frame_tables(file, module, text_offset, m) {
        let hdr = module.ex_info_start_offset + module.header_offset;
        let (_, size) = eh_frame::eh_frame_of(
            file.memory,
            hdr as u64,
            module,
            text_offset,
            m,
        )->Ok_0;
        lemma_sized(m, hdr, size, SectionType::EhFrameHdr);
        let a = sized(m, hdr, size, SectionType::EhFrameHdr)->Ok_0;
        let start = (module.ex_info_end_offset + module.header_offset) as u64;
        let end = (file.header.embed_offset + file.header.offset(NsoSegment::Rodata)) as u64;
        lemma_ranged(a, start, end, SectionType::EhFrame);
        let b = ranged(a, start, end, SectionType::EhFrame)->Ok_0;
        lemma_remaining_sections(file, module, b);
        assert forall|p: SectionPlaces|
            p.eh_frame_hdr.0 == module.header_offset + module.ex_info_start_offset
                && p.eh_frame_hdr.1 == module.header_offset + module.ex_info_end_offset
                && section_map::is_whole(m, p.dynstr.0, p.dynstr.1, SectionType::Dynstr)
                && section_map::is_whole(m, p.dynamic.0, p.dynamic.1, SectionType::Dynamic)
                && section_map::is_whole(m, p.got_plt.0, p.got_plt.1, SectionType::GotPlt)
                && section_map::is_whole(m, p.init_array.0, p.init_array.1, SectionType::InitArray)
                && p.dynstr.1 <= u64::MAX && p.dynamic.1 <= u64::MAX && p.got_plt.1 <= u64::MAX
                && p.init_array.1 <= u64::MAX implies #[trigger] p.are_bounds(
            file.header.data_segment.mem_offset as int,
            after,
        ) by {
            assert(section_map::is_whole(a, p.dynstr.0, p.dynstr.1, SectionType::Dynstr));
            assert(section_map::is_whole(a, p.dynamic.0, p.dynamic.1, SectionType::Dynamic));
            assert(section_map::is_whole(a, p.got_plt.0, p.got_plt.1, SectionType::GotPlt));
            assert(section_map::is_whole(
                a,
                p.init_array.0,
                p.init_array.1,
                SectionType::InitArray,
            ));
            assert(p.are_in(b));
        }
    }
}

/// In a binary that can be read, each address of a segment belongs to a section of a known type,
/// and no type has two sections, apart from fillings and gaps.
pub proof fn law_binary_is_accounted_for(file: FileView)
    requires
        nso_of(file) is Ok,
    ensures
        section_map::has_single_sections(nso_of(file)->Ok_0.sections),
        forall|a: u64| #[trigger]
            section_map::is_in_segment(file.header, a) ==> nso_of(
                file,
            )->Ok_0.sections.contains_key(a) && nso_of(file)->Ok_0.sections[a]
                != SectionType::Unknown,
{
    lemma_first_tables(file);
    let (module, dynamic, a) = first_tables(file)->Ok_0;
    lemma_code_tables(file, dynamic, a);
    let (_, text, b) = code_tables(file, dynamic, a)->Ok_0;
    lemma_name_tables(file, b);
    let (_, _, c) = name_tables(file, b)->Ok_0;
    lemma_hash_tables(file, dynamic, c);
    let (_, _, d) = hash_tables(file, dynamic, c)->Ok_0;
    lemma_link_tables(file, dynamic, d);
    let (_, e) = link_tables(file, dynamic, d)->Ok_0;
    lemma_frame_tables(file, module, text.section_offset, e);
    let sections = nso_of(file)->Ok_0.sections;
    let start = section_map::initial_sections(file.header);
    assert forall|x: u64| #[trigger]
        section_map::is_in_segment(file.header, x) implies sections.contains_key(x) && sections[x]
        != SectionType::Unknown by {
        assert(start.contains_key(x)) by {
            let s = choose|s: NsoSegment|
                file.header.offset(s) <= x < #[trigger] file.header.end(s);
            assert(file.header.end(s) <= section_map::max_address(file.header));
        }
        assert(a.contains_key(x) && b.contains_key(x) && c.contains_key(x) && d.contains_key(x)
            && e.contains_key(x));
    }
}

/// Each section of a binary has the addresses that the header, the module description and the entries
/// of the `.dynamic` section give it, no more and no fewer. The rest of the segments is what lies
/// between them.
pub proof fn law_sections_are_where_the_tables_say(file: FileView)
    requires
        nso_of(file) is Ok,
    ensures
        ({
            let nso = nso_of(file)->Ok_0;
            let m = nso.sections;
            let module = nso.module;
            let base = module.header_offset as int;
            let code = file.header.text_segment.mem_offset + 36;
            let start = file.header.rodata_segment.mem_offset as int;
            let stubs = code + nso.text.section.len();
            let slots = jump_slots(nso.reloc_plt, nso.reloc_plt.len() as int);
            let jumps = tables::tag_value(nso.dynamic, DynamicTagType::DT_JMPREL)->Ok_0;
            let jumps_size = tables::tag_value(nso.dynamic, DynamicTagType::DT_PLTRELSZ)->Ok_0;
            let got_plt = tables::tag_value(nso.dynamic, DynamicTagType::DT_PLTGOT)->Ok_0;
            let got = got_plt + 24 + 8 * slots;
            let moved = tables::tag_value(nso.dynamic, DynamicTagType::DT_RELA)->Ok_0;
            let moved_size = tables::tag_value(nso.dynamic, DynamicTagType::DT_RELASZ)->Ok_0;
            let strings = start + file.header.dynstr_offset;
            let symbols = start + file.header.dynsym_offset;
            let embed = start + file.header.embed_offset;
            let array = nso.init_array_offset as int;
            let array_end = array + 8 * nso.init_array.len();
            let entries = base + module.dyn_offset;
            let entries_end = entries + 16 * nso.dynamic.len() + 16;
            &&& section_map::is_whole(m, code - 36, code, SectionType::Crt0)
            &&& section_map::is_whole(m, code, stubs, SectionType::Text)
            &&& section_map::is_whole(m, stubs, stubs + 32 + 16 * slots, SectionType::Plt)
            &&& section_map::is_whole(m, entries, entries_end, SectionType::Dynamic)
            &&& section_map::is_whole(m, jumps as int, jumps + jumps_size, SectionType::RelaPlt)
            &&& section_map::is_whole(m, moved as int, moved + moved_size, SectionType::RelaDyn)
            &&& section_map::is_whole(m, got_plt as int, got, SectionType::GotPlt)
            &&& section_map::is_whole(m, got, array, SectionType::Got)
            &&& section_map::is_whole(m, array, array_end, SectionType::InitArray)
            &&& section_map::is_whole(m, array_end, array_end + 8, SectionType::Tbss)
            &&& section_map::is_whole(
                m,
                symbols,
                symbols + file.header.dynsym_size,
                SectionType::Dynsym,
            )
            &&& section_map::is_whole(
                m,
                strings,
                strings + file.header.dynstr_size,
                SectionType::Dynstr,
            )
            &&& section_map::is_whole(
                m,
                strings + file.header.dynstr_size,
                base + module.ex_info_start_offset,
                SectionType::Rodata,
            )
            &&& section_map::is_whole(
                m,
                base + module.ex_info_start_offset,
                base + module.ex_info_end_offset,
                SectionType::EhFrameHdr,
            )
            &&& section_map::is_whole(
                m,
                base + module.ex_info_end_offset,
                embed,
                SectionType::EhFrame,
            )
            &&& section_map::is_whole(m, embed, embed + file.header.embed_size, SectionType::Embed)
            &&& section_map::is_whole(
                m,
                file.header.data_segment.mem_offset as int,
                entries,
                SectionType::Data,
            )
            &&& section_map::is_whole(m, entries_end, got_plt as int, SectionType::UnknownData)
            &&& section_map::is_whole(
                m,
                base + module.bss_start,
                base + module.bss_end,
                SectionType::Bss,
            )
        }),
{
    lemma_first_tables(file);
    let (module, dynamic, a) = first_tables(file)->Ok_0;
    lemma_code_tables(file, dynamic, a);
    let (calls, text, b) = code_tables(file, dynamic, a)->Ok_0;
    lemma_name_tables(file, b);
    let (_, _, c) = name_tables(file, b)->Ok_0;
    lemma_hash_tables(file, dynamic, c);
    let (_, _, d) = hash_tables(file, dynamic, c)->Ok_0;
    lemma_link_tables(file, dynamic, d);
    let (link, e) = link_tables(file, dynamic, d)->Ok_0;
    lemma_frame_tables(file, module, text.section_offset, e);
    let nso = nso_of(file)->Ok_0;
    let m = nso.sections;
    let base = module.header_offset as int;
    let start = file.header.rodata_segment.mem_offset as int;
    let got_plt = tables::tag_value(dynamic, DynamicTagType::DT_PLTGOT)->Ok_0;
    let strings = start + file.header.dynstr_offset;
    let entries = base + module.dyn_offset;
    let p = SectionPlaces {
        dynstr: (strings, strings + file.header.dynstr_size),
        eh_frame_hdr: (base + module.ex_info_start_offset, base + module.ex_info_end_offset),
        dynamic: (entries, entries + 16 * dynamic.len() + 16),
        got_plt: (got_plt as int, got_plt + 24 + 8 * jump_slots(calls, calls.len() as int)),
        init_array: (
            link.init_array_offset as int,
            link.init_array_offset + 8 * link.init_array.len(),
        ),
    };
    assert(p.are_bounds(file.header.data_segment.mem_offset as int, m));
}

/// The tables of a binary are read from the places that the header, the module description and the
/// entries of the `.dynamic` section name for them.
pub proof fn law_tables_are_read_from_their_places(file: FileView)
    requires
        nso_of(file) is Ok,
    ensures
        ({
            let nso = nso_of(file)->Ok_0;
            let code = segment(file, NsoSegment::Text)->Ok_0;
            let constants = segment(file, NsoSegment::Rodata)->Ok_0;
            let start = file.header.rodata_segment.mem_offset;
            let entries = nso.module.header_offset + nso.module.dyn_offset;
            let memory = file.memory;
            &&& nso.file == file
            &&& tables::module_of(code) == Ok::<Module, Error>(nso.module)
            &&& tables::dynamic_entries(
                memory.subrange(entries, memory.len() as int),
                0,
                Seq::empty(),
            ) == Ok::<Seq<(DynamicTagType, u64)>, Error>(nso.dynamic)
            &&& tables::relocation_table(
                constants,
                nso.dynamic,
                DynamicTagType::DT_JMPREL,
                DynamicTagType::DT_PLTRELSZ,
                file.header,
            ) == Ok::<Seq<Relocation>, Error>(nso.reloc_plt)
            &&& tables::relocation_table(
                constants,
                nso.dynamic,
                DynamicTagType::DT_RELA,
                DynamicTagType::DT_RELASZ,
                file.header,
            ) == Ok::<Seq<Relocation>, Error>(nso.reloc_dyn)
            &&& nso.symbol_offset == start + file.header.dynsym_offset
            &&& tables::symbols_at(memory, nso.symbol_offset, file.header.dynsym_size as u64)
                == Ok::<Seq<DynamicSymbol>, Error>(nso.symbols)
            &&& string_tables::string_table(
                constants,
                file.header.dynstr_offset,
                file.header.dynstr_size,
            ) == Ok::<Map<u64, Seq<char>>, Error>(nso.strings)
            &&& tables::tag_value(nso.dynamic, DynamicTagType::DT_INIT_ARRAY) == Ok::<u64, Error>(
                nso.init_array_offset,
            )
            &&& string_tables::init_array_at(
                memory,
                nso.init_array_offset,
                (tables::tag_value(nso.dynamic, DynamicTagType::DT_INIT_ARRAYSZ)->Ok_0 / 8) as u64,
            ) == Ok::<Seq<u64>, Error>(nso.init_array)
            &&& string_tables::embedded_strings(
                memory,
                (start + file.header.embed_offset) as u64,
                file.header.embed_size as u64,
            ) == Ok::<Seq<(u64, Seq<char>)>, Error>(nso.embed)
            &&& string_tables::build_string(constants) is Ok
            &&& nso.build_str == string_tables::lossy_text(
                string_tables::build_string(constants)->Ok_0,
            )
            &&& forall|at: u32| #[trigger]
                is_tag_value(nso.dynamic, DynamicTagType::DT_HASH, at)
                    ==> string_tables::hash_table_at(memory, at) == Ok::<HashTableView, Error>(
                    nso.hash_table,
                )
            &&& forall|at: u32| #[trigger]
                is_tag_value(nso.dynamic, DynamicTagType::DT_GNU_HASH, at)
                    ==> string_tables::gnu_hash_table_at(memory, at) == Ok::<
                    GnuHashTableView,
                    Error,
                >(nso.gnu_hash_table)
        }),
{
    let (module, dynamic, a) = first_tables(file)->Ok_0;
    let (calls, text, b) = code_tables(file, dynamic, a)->Ok_0;
    let (name, symbols, c) = name_tables(file, b)->Ok_0;
    let (hash, gnu, d) = hash_tables(file, dynamic, c)->Ok_0;
    let (link, e) = link_tables(file, dynamic, d)->Ok_0;
    lemma_stages(file);
    lemma_first_reads(file);
    lemma_code_reads(file, dynamic, a);
    lemma_name_reads(file, b);
    lemma_hash_reads(file, dynamic, c);
    lemma_link_reads(file, dynamic, d);
}

proof fn lemma_stages(file: FileView)
    requires
        nso_of(file) is Ok,
    ensures
        ({
            let nso = nso_of(file)->Ok_0;
            let (module, dynamic, a) = first_tables(file)->Ok_0;
            let (calls, text, b) = code_tables(file, dynamic, a)->Ok_0;
            let (name, symbols, c) = name_tables(file, b)->Ok_0;
            let (hash, gnu, d) = hash_tables(file, dynamic, c)->Ok_0;
            let (link, e) = link_tables(file, dynamic, d)->Ok_0;
            &&& first_tables(file) is Ok
            &&& code_tables(file, dynamic, a) is Ok
            &&& name_tables(file, b) is Ok
            &&& hash_tables(file, dynamic, c) is Ok
            &&& link_tables(file, dynamic, d) is Ok
            &&& nso.file == file
            &&& nso.module == module
            &&& nso.dynamic == dynamic
            &&& nso.reloc_plt == calls
            &&& nso.symbols == symbols
            &&& nso.build_str == name
            &&& nso.hash_table == hash
            &&& nso.gnu_hash_table == gnu
            &&& nso.reloc_dyn == link.reloc_dyn
            &&& nso.strings == link.strings
            &&& nso.init_array_offset == link.init_array_offset
            &&& nso.init_array == link.init_array
            &&& nso.embed == link.embed
            &&& nso.symbol_offset == file.header.rodata_segment.mem_offset
                + file.header.dynsym_offset
        }),
{
}

proof fn lemma_first_reads(file: FileView)
    requires
        first_tables(file) is Ok,
    ensures
        ({
            let (module, dynamic, _) = first_tables(file)->Ok_0;
            let entries = module.header_offset + module.dyn_offset;
            &&& tables::module_of(segment(file, NsoSegment::Text)->Ok_0) == Ok::<Module, Error>(
                module,
            )
            &&& tables::dynamic_entries(
                file.memory.subrange(entries, file.memory.len() as int),
                0,
                Seq::empty(),
            ) == Ok::<Seq<(DynamicTagType, u64)>, Error>(dynamic)
        }),
{
}

proof fn lemma_code_reads(
    file: FileView,
    dynamic: Seq<(DynamicTagType, u64)>,
    m: Map<u64, SectionType>,
)
    requires
        code_tables(file, dynamic, m) is Ok,
    ensures
        tables::relocation_table(
            segment(file, NsoSegment::Rodata)->Ok_0,
            dynamic,
            DynamicTagType::DT_JMPREL,
            DynamicTagType::DT_PLTRELSZ,
            file.header,
        ) == Ok::<Seq<Relocation>, Error>(code_tables(file, dynamic, m)->Ok_0.0),
{
}

proof fn lemma_name_reads(file: FileView, m: Map<u64, SectionType>)
    requires
        name_tables(file, m) is Ok,
    ensures
        ({
            let (name, symbols, _) = name_tables(file, m)->Ok_0;
            let constants = segment(file, NsoSegment::Rodata)->Ok_0;
            let at = file.header.rodata_segment.mem_offset + file.header.dynsym_offset;
            &&& string_tables::build_string(constants) is Ok
            &&& name == string_tables::lossy_text(string_tables::build_string(constants)->Ok_0)
            &&& tables::symbols_at(file.memory, at as u64, file.header.dynsym_size as u64) == Ok::<
                Seq<DynamicSymbol>,
                Error,
            >(symbols)
        }),
{
}

proof fn lemma_hash_reads(
    file: FileView,
    dynamic: Seq<(DynamicTagType, u64)>,
    m: Map<u64, SectionType>,
)
    requires
        hash_tables(file, dynamic, m) is Ok,
    ensures
        ({
            let (hash, gnu, _) = hash_tables(file, dynamic, m)->Ok_0;
            &&& forall|at: u32| #[trigger]
                is_tag_value(dynamic, DynamicTagType::DT_HASH, at)
                    ==> string_tables::hash_table_at(file.memory, at) == Ok::<
                    HashTableView,
                    Error,
                >(hash)
            &&& forall|at: u32| #[trigger]
                is_tag_value(dynamic, DynamicTagType::DT_GNU_HASH, at)
                    ==> string_tables::gnu_hash_table_at(file.memory, at) == Ok::<
                    GnuHashTableView,
                    Error,
                >(gnu)
        }),
{
}

proof fn lemma_link_reads(
    file: FileView,
    dynamic: Seq<(DynamicTagType, u64)>,
    m: Map<u64, SectionType>,
)
    requires
        link_tables(file, dynamic, m) is Ok,
    ensures
        ({
            let (link, _) = link_tables(file, dynamic, m)->Ok_0;
            let constants = segment(file, NsoSegment::Rodata)->Ok_0;
            let start = file.header.rodata_segment.mem_offset;
            &&& tables::relocation_table(
                constants,
                dynamic,
                DynamicTagType::DT_RELA,
                DynamicTagType::DT_RELASZ,
                file.header,
            ) == Ok::<Seq<Relocation>, Error>(link.reloc_dyn)
            &&& string_tables::string_table(
                constants,
                file.header.dynstr_offset,
                file.header.dynstr_size,
            ) == Ok::<Map<u64, Seq<char>>, Error>(link.strings)
            &&& tables::tag_value(dynamic, DynamicTagType::DT_INIT_ARRAY) == Ok::<u64, Error>(
                link.init_array_offset,
            )
            &&& string_tables::init_array_at(
                file.memory,
                link.init_array_offset,
                (tables::tag_value(dynamic, DynamicTagType::DT_INIT_ARRAYSZ)->Ok_0 / 8) as u64,
            ) == Ok::<Seq<u64>, Error>(link.init_array)
            &&& string_tables::embedded_strings(
                file.memory,
                (start + file.header.embed_offset) as u64,
                file.header.embed_size as u64,
            ) == Ok::<Seq<(u64, Seq<char>)>, Error>(link.embed)
        }),
{
}

/// The entry of this kind has this value.
pub open spec fn is_tag_value(
    dynamic: Seq<(DynamicTagType, u64)>,
    tag: DynamicTagType,
    value: u32,
) -> bool {
    tables::tag_value(dynamic, tag) == Ok::<u64, Error>(value as u64)
}

/// A section has at least one byte, and none of them is behind the last address. Where the place of a
/// section is needed, the section has to be there.
pub proof fn law_empty_sections_are_refused(
    m: Map<u64, SectionType>,
    start: u64,
    size: u64,
    t: SectionType,
)
    ensures
        size == 0 ==> sized(m, start as int, size as int, t) == Err::<
            Map<u64, SectionType>,
            Error,
        >(Error::EmptySection),
        start + size > u64::MAX ==> sized(m, start as int, size as int, t) == Err::<
            Map<u64, SectionType>,
            Error,
        >(Error::Overflow),
        size > 0 && start + size <= u64::MAX ==> sized(m, start as int, size as int, t)
            == section_map::inserted(m, start, (start + size) as u64, t),
        (forall|a: u64| #[trigger] m.contains_key(a) ==> m[a] != t) ==> needed(m, t) == Err::<
            (u64, u64),
            Error,
        >(Error::SectionMissing),
{
    if section_map::section_range(m, t) is Some {
        let range = choose|range: (u64, u64)| section_map::is_first_section(m, t, range);
        assert(section_map::is_first_section(m, t, range));
        assert(m.contains_key(range.0));
    }
}

/// A part of the memory is what stands between two places that are in order and in it.
pub proof fn law_parts_are_within_the_memory(memory: Seq<u8>, start: int, end: int, k: int)
    ensures
        part(memory, start, end) is Ok <==> 0 <= start && start <= end && end <= memory.len(),
        part(memory, start, end) matches Ok(found) ==> found.len() == end - start && (0 <= k < end
            - start ==> found[k] == memory[start + k]),
{
}

} // verus!
