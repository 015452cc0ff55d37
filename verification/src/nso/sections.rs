//! The sections of a binary as assembly.

use vstd::prelude::*;
use vstd::slice::*;

use crate::bytes::{self, read_u64};
use crate::error::Error;
use crate::fmt::{self, format_decimal, format_decimal_signed, format_hex};
use crate::lines::{
    self, escape_for_asm_string, make_offset_name, put_decimal, put_global_label,
    put_global_labels, put_line, put_line_of_three, put_line_of_two, put_quads, put_words,
};
use crate::nso::data::{self, ExportView, Exporter};
use crate::nso::floats::{FloatTexts, FloatView};
use crate::nso::lookup::{self, LookupView, NsoLookupHelper};
use crate::nso::nso::{self, NsoView, NSO};
use crate::nso::nso_header::NsoSegment;
use crate::nso::section_map::{self, SectionType};
use crate::nso::tables::{
    self, DynamicSymbol, DynamicSymbolBind, DynamicTagType, GnuHashTableView, HashTableView, Relocation,
};
use crate::ordered::{self, ordered_keys};
use crate::reference_tracker::References;

verus! {

/// The line that starts a section, and an empty one.
pub open spec fn section_start(header: Seq<char>) -> Seq<char> {
    lines::line(lines::line(""@, header), ""@)
}

pub(crate) fn start_section(header: &str) -> (r: String)
    ensures
        r@ == section_start(header@),
{
    let mut out = String::from_str("");
    put_line(&mut out, header);
    put_line(&mut out, "");
    out
}

/// `text` with the relocations from `from` on.
pub open spec fn relocation_lines(
    text: Seq<char>,
    table: Seq<Relocation>,
    from: int,
) -> Seq<char>
    decreases table.len() - from,
{
    if from < 0 || from >= table.len() {
        text
    } else {
        let r = table[from];
        let a = lines::line_of_two(text, ".quad "@, fmt::decimal(r.offset as int));
        let b = lines::line_of_two(a, ".word "@, fmt::decimal(r.reloc_type.value() as int));
        let c = lines::line_of_two(b, ".word "@, fmt::decimal(r.sym_idx as int));
        let d = lines::line_of_two(c, ".quad "@, fmt::decimal(r.addend as int));
        relocation_lines(d, table, from + 1)
    }
}

/// A table of relocations.
pub open spec fn relocation_text(name: Seq<char>, table: Seq<Relocation>) -> Seq<char> {
    relocation_lines(
        lines::line(lines::line_of_three(""@, ".section \""@, name, "\", \"a\""@), ""@),
        table,
        0,
    )
}

/// Writes a table of relocations.
pub fn export_relocations(name: &str, table: &Vec<Relocation>) -> (r: String)
    ensures
        r@ == relocation_text(name@, table@),
{
    let mut out = String::from_str("");
    put_line_of_three(&mut out, ".section \"", name, "\", \"a\"");
    put_line(&mut out, "");
    let mut i: usize = 0;
    while i < table.len()
        invariant
            i <= table@.len(),
            relocation_lines(out@, table@, i as int) == relocation_text(name@, table@),
        decreases table@.len() - i,
    {
        let relocation: &Relocation = &table[i];
        put_decimal(&mut out, ".quad ", relocation.offset);
        put_decimal(&mut out, ".word ", relocation.reloc_type.to_value() as u64);
        put_decimal(&mut out, ".word ", relocation.sym_idx as u64);
        put_line_of_two(&mut out, ".quad ", format_decimal_signed(relocation.addend).as_str());
        i = i + 1;
    }
    out
}

/// `text` with the entries from `from` on.
pub open spec fn dynamic_lines(
    text: Seq<char>,
    entries: Seq<(DynamicTagType, u64)>,
    from: int,
) -> Seq<char>
    decreases entries.len() - from,
{
    if from < 0 || from >= entries.len() {
        text
    } else {
        let (tag, value) = entries[from];
        let a = lines::line_of_two(text, ".quad "@, fmt::decimal(tag.value() as int));
        let b = lines::line_of_two(a, ".quad "@, fmt::decimal(value as int));
        dynamic_lines(b, entries, from + 1)
    }
}

/// The `.dynamic` section.
pub open spec fn dynamic_text(entries: Seq<(DynamicTagType, u64)>) -> Seq<char> {
    let text = dynamic_lines(section_start(".section \".dynamic\""@), entries, 0);
    lines::line(lines::line(text, ".quad DT_NULL"@), ".quad 0"@)
}

/// `text` with the symbols from `from` on.
pub open spec fn symbol_table_lines(
    text: Seq<char>,
    symbols: Seq<DynamicSymbol>,
    from: int,
) -> Seq<char>
    decreases symbols.len() - from,
{
    if from < 0 || from >= symbols.len() {
        text
    } else {
        let s = symbols[from];
        let a = lines::line_of_two(text, ".word "@, fmt::decimal(s.str_table_offset as int));
        let b = lines::line_of_two(a, ".byte "@, fmt::decimal(s.info as int));
        let c = lines::line_of_two(b, ".byte "@, fmt::decimal(s.other as int));
        let d = lines::line_of_two(c, ".short "@, fmt::decimal(s.section_idx as int));
        let e = lines::line_of_two(d, ".quad "@, fmt::decimal(s.value as int));
        let f = lines::line_of_two(e, ".quad "@, fmt::decimal(s.size as int));
        symbol_table_lines(f, symbols, from + 1)
    }
}

/// The `.dynsym` section.
pub open spec fn symbol_table_text(symbols: Seq<DynamicSymbol>) -> Seq<char> {
    symbol_table_lines(section_start(".section \".dynsym\""@), symbols, 0)
}

/// `text` with the strings from `from` on.
pub open spec fn string_lines(
    text: Seq<char>,
    strings: Seq<Seq<char>>,
    from: int,
) -> Seq<char>
    decreases strings.len() - from,
{
    if from < 0 || from >= strings.len() {
        text
    } else {
        string_lines(
            lines::line_of_three(text, ".string \""@, lines::escaped(strings[from]), "\""@),
            strings,
            from + 1,
        )
    }
}

/// The `.dynstr` section: all strings in the order of their places in it.
pub open spec fn string_table_text(strings: Map<u64, Seq<char>>) -> Seq<char> {
    string_lines(
        lines::line(""@, ".section \".dynstr\""@),
        ordered::values_from(strings, 0),
        0,
    )
}

/// The `.hash` section.
pub open spec fn hash_text(table: HashTableView) -> Seq<char> {
    let a = lines::line_of_two(
        section_start(".section \".hash\""@),
        ".word "@,
        fmt::decimal(table.nbucket as int),
    );
    let b = lines::line_of_two(a, ".word "@, fmt::decimal(table.nchain as int));
    lines::word_lines(lines::word_lines(b, table.buckets, 0), table.chains, 0)
}

/// The `.gnu.hash` section.
pub open spec fn gnu_hash_text(table: GnuHashTableView) -> Seq<char> {
    let a = lines::line_of_two(
        section_start(".section \".gnu.hash\""@),
        ".word "@,
        fmt::decimal(table.nbuckets as int),
    );
    let b = lines::line_of_two(a, ".word "@, fmt::decimal(table.sym_idx as int));
    let c = lines::line_of_two(b, ".word "@, fmt::decimal(table.mask as int));
    let d = lines::line_of_two(c, ".word "@, fmt::decimal(table.shift as int));
    let blooms = lines::quad_lines(d, table.bloom_filter, 0);
    let buckets = lines::word_lines(blooms, table.buckets, 0);
    lines::line(lines::word_lines(buckets, table.chains, 0), ".word 0"@)
}

/// The name of the module.
pub open spec fn module_name_text(build_str: Seq<char>) -> Seq<char> {
    let a = lines::line(
        lines::line(""@, ".section \".rodata.module_name\",\"a\""@),
        ".word 0"@,
    );
    let b = lines::line_of_two(
        a,
        ".word "@,
        fmt::decimal(vstd::utf8::encode_utf8(build_str).len() as int),
    );
    lines::line_of_three(b, ".string \""@, lines::escaped(build_str), "\""@)
}

/// The gap behind `.dynamic`.
pub open spec fn unknown_data_gap_text() -> Seq<char> {
    lines::line(section_start(".section \".unknown.data.gap\",\"aw\""@), "\t.skip 80"@)
}

/// `text` with the bytes of `data` from `from` on.
pub open spec fn raw_lines(text: Seq<char>, data: Seq<u8>, from: int) -> Seq<char>
    decreases data.len() - from,
{
    if from < 0 || from >= data.len() {
        text
    } else {
        raw_lines(
            lines::line_of_two(text, ".byte 0x"@, fmt::hex(data[from] as nat)),
            data,
            from + 1,
        )
    }
}

/// The first section of a type, byte by byte.
pub open spec fn raw_section(nso: NsoView, t: SectionType, header: Seq<char>) -> Result<
    Seq<char>,
    Error,
> {
    match nso::needed(nso.sections, t) {
        Err(e) => Err(e),
        Ok((start, end)) => match nso::part(nso.file.memory, start as int, end as int) {
            Err(e) => Err(e),
            Ok(data) => Ok(raw_lines(lines::line(""@, header), data, 0)),
        },
    }
}

/// `text` with the names of the symbols from `from` on, without the empty ones.
pub open spec fn symbol_list_lines(
    text: Seq<char>,
    symbols: Seq<DynamicSymbol>,
    strings: Map<u64, Seq<char>>,
    from: int,
) -> Result<Seq<char>, Error>
    decreases symbols.len() - from,
{
    if from < 0 || from >= symbols.len() {
        Ok(lines::line(text, "};"@))
    } else {
        match symbols[from].name(strings) {
            Err(e) => Err(e),
            Ok(name) => symbol_list_lines(
                if name.len() == 0 {
                    text
                } else {
                    lines::line_of_two(text, name, ";"@)
                },
                symbols,
                strings,
                from + 1,
            ),
        }
    }
}

/// The list of all symbols that have a name.
pub open spec fn symbol_list(nso: NsoView) -> Result<Seq<char>, Error> {
    symbol_list_lines(lines::line(""@, "{"@), nso.symbols, nso.strings, 0)
}

impl NSO {
    /// Writes the `.dynamic` section.
    pub fn export_dynamic(&self) -> (r: String)
        ensures
            r@ == dynamic_text(self@.dynamic),
    {
        let mut out = start_section(".section \".dynamic\"");
        let ghost first = out@;
        let ghost entries = self@.dynamic;
        let mut i: usize = 0;
        while i < self.dynamic_segment.len()
            invariant
                i <= self.dynamic_segment@.len(),
                entries == self.dynamic_segment@,
                dynamic_lines(out@, entries, i as int) == dynamic_lines(first, entries, 0),
            decreases self.dynamic_segment@.len() - i,
        {
            put_decimal(&mut out, ".quad ", self.dynamic_segment[i].0.to_value());
            put_decimal(&mut out, ".quad ", self.dynamic_segment[i].1);
            i = i + 1;
        }
        put_line(&mut out, ".quad DT_NULL");
        put_line(&mut out, ".quad 0");
        out
    }

    /// Writes the `.dynsym` section.
    pub fn export_dynsym(&self) -> (r: String)
        ensures
            r@ == symbol_table_text(self@.symbols),
    {
        let mut out = start_section(".section \".dynsym\"");
        let ghost symbols = self@.symbols;
        let mut i: usize = 0;
        while i < self.symbol_table.1.len()
            invariant
                i <= self.symbol_table.1@.len(),
                symbols == self.symbol_table.1@,
                symbol_table_lines(out@, symbols, i as int) == symbol_table_text(symbols),
            decreases self.symbol_table.1@.len() - i,
        {
            let symbol: &DynamicSymbol = &self.symbol_table.1[i];
            put_decimal(&mut out, ".word ", symbol.str_table_offset as u64);
            put_decimal(&mut out, ".byte ", symbol.info as u64);
            put_decimal(&mut out, ".byte ", symbol.other as u64);
            put_decimal(&mut out, ".short ", symbol.section_idx as u64);
            put_decimal(&mut out, ".quad ", symbol.value);
            put_decimal(&mut out, ".quad ", symbol.size);
            i = i + 1;
        }
        out
    }

    /// Writes the `.dynstr` section.
    pub fn export_dynstr(&self) -> (r: String)
        ensures
            r@ == string_table_text(self@.strings),
    {
        let keys = ordered_keys(&self.dynstr_table);
        let ghost strings = ordered::values_from(self@.strings, 0);
        proof {
            ordered::lemma_values_in_order(self@.strings, keys@);
        }
        let mut out = String::from_str("");
        put_line(&mut out, ".section \".dynstr\"");
        let mut i: usize = 0;
        while i < keys.len()
            invariant
                i <= keys@.len(),
                ordered::are_keys(self.dynstr_table@, keys@),
                strings == ordered::values_from(self@.strings, 0),
                strings == keys@.map_values(|k: u64| self@.strings[k]),
                string_lines(out@, strings, i as int) == string_table_text(self@.strings),
            decreases keys@.len() - i,
        {
            let key: u64 = keys[i];
            assert(self.dynstr_table@.contains_key(key));
            if let Some(value) = self.dynstr_table.get(&key) {
                assert(strings[i as int] == value@);
                let content = escape_for_asm_string(value.as_str());
                put_line_of_three(&mut out, ".string \"", content.as_str(), "\"");
            }
            i = i + 1;
        }
        out
    }

    /// Writes the `.hash` section.
    pub fn export_hash(&self) -> (r: String)
        ensures
            r@ == hash_text(self@.hash_table),
    {
        let mut out = start_section(".section \".hash\"");
        put_decimal(&mut out, ".word ", self.hash_table.nbucket as u64);
        put_decimal(&mut out, ".word ", self.hash_table.nchain as u64);
        put_words(&mut out, &self.hash_table.buckets);
        put_words(&mut out, &self.hash_table.chains);
        out
    }

    /// Writes the `.gnu.hash` section.
    pub fn export_gnu_hash(&self) -> (r: String)
        ensures
            r@ == gnu_hash_text(self@.gnu_hash_table),
    {
        let mut out = start_section(".section \".gnu.hash\"");
        put_decimal(&mut out, ".word ", self.gnu_hash_table.nbuckets as u64);
        put_decimal(&mut out, ".word ", self.gnu_hash_table.sym_idx as u64);
        put_decimal(&mut out, ".word ", self.gnu_hash_table.mask as u64);
        put_decimal(&mut out, ".word ", self.gnu_hash_table.shift as u64);
        put_quads(&mut out, &self.gnu_hash_table.bloom_filter);
        put_words(&mut out, &self.gnu_hash_table.buckets);
        put_words(&mut out, &self.gnu_hash_table.chains);
        put_line(&mut out, ".word 0");
        out
    }

    /// Writes the name of the module.
    pub fn export_module_name(&self) -> (r: String)
        ensures
            r@ == module_name_text(self@.build_str),
    {
        let mut out = String::from_str("");
        put_line(&mut out, ".section \".rodata.module_name\",\"a\"");
        put_line(&mut out, ".word 0");
        put_decimal(&mut out, ".word ", self.build_str.as_str().as_bytes().len() as u64);
        let content = escape_for_asm_string(self.build_str.as_str());
        put_line_of_three(&mut out, ".string \"", content.as_str(), "\"");
        out
    }

    /// Writes the gap behind `.dynamic`.
    pub fn export_unknown_data_gap(&self) -> (r: String)
        ensures
            r@ == unknown_data_gap_text(),
    {
        let mut out = start_section(".section \".unknown.data.gap\",\"aw\"");
        put_line(&mut out, "\t.skip 80");
        out
    }

    fn export_raw(&self, t: SectionType, header: &str) -> (r: Result<String, Error>)
        ensures
            match r {
                Ok(text) => raw_section(self@, t, header@) == Ok::<Seq<char>, Error>(text@),
                Err(e) => raw_section(self@, t, header@) == Err::<Seq<char>, Error>(e),
            },
    {
        let range = match self.sections.get_range(&t) {
            Some(range) => range,
            None => {
                return Err(Error::SectionMissing);
            },
        };
        let total: u64 = self.file.memory.len() as u64;
        if range.start > range.end || range.end > total {
            return Err(Error::OutOfBounds);
        }
        let data: &[u8] = slice_subrange(
            self.file.memory.as_slice(),
            range.start as usize,
            range.end as usize,
        );
        let mut out = String::from_str("");
        put_line(&mut out, header);
        let ghost first = out@;
        let mut i: usize = 0;
        while i < data.len()
            invariant
                i <= data@.len(),
                raw_lines(out@, data@, i as int) == raw_lines(first, data@, 0),
            decreases data@.len() - i,
        {
            put_line_of_two(&mut out, ".byte 0x", format_hex(data[i] as u64).as_str());
            i = i + 1;
        }
        Ok(out)
    }

    /// Writes the `.eh_frame_hdr` section.
    pub fn export_eh_frame_hdr(&self) -> (r: Result<String, Error>)
        ensures
            ({
                let wanted = raw_section(
                    self@,
                    SectionType::EhFrameHdr,
                    ".section \".eh_frame_hdr\", \"a\""@,
                );
                match r {
                    Ok(text) => wanted == Ok::<Seq<char>, Error>(text@),
                    Err(e) => wanted == Err::<Seq<char>, Error>(e),
                }
            }),
    {
        self.export_raw(SectionType::EhFrameHdr, ".section \".eh_frame_hdr\", \"a\"")
    }

    /// Writes the `.eh_frame` section.
    pub fn export_eh_frame(&self) -> (r: Result<String, Error>)
        ensures
            ({
                let wanted = raw_section(
                    self@,
                    SectionType::EhFrame,
                    ".section \".eh_frame\", \"a\""@,
                );
                match r {
                    Ok(text) => wanted == Ok::<Seq<char>, Error>(text@),
                    Err(e) => wanted == Err::<Seq<char>, Error>(e),
                }
            }),
    {
        self.export_raw(SectionType::EhFrame, ".section \".eh_frame\", \"a\"")
    }

    /// Writes the names of all symbols.
    pub fn export_symbol_list(&self) -> (r: Result<String, Error>)
        ensures
            match r {
                Ok(text) => symbol_list(self@) == Ok::<Seq<char>, Error>(text@),
                Err(e) => symbol_list(self@) == Err::<Seq<char>, Error>(e),
            },
    {
        let mut out = String::from_str("");
        put_line(&mut out, "{");
        let ghost symbols = self@.symbols;
        let ghost strings = self@.strings;
        let mut i: usize = 0;
        while i < self.symbol_table.1.len()
            invariant
                i <= self.symbol_table.1@.len(),
                symbols == self.symbol_table.1@,
                strings == self@.strings,
                symbol_list_lines(out@, symbols, strings, i as int) == symbol_list(self@),
            decreases self.symbol_table.1@.len() - i,
        {
            let name = self.symbol_table.1[i].get_name(&self.dynstr_table)?;
            if name.as_str().unicode_len() != 0 {
                put_line_of_two(&mut out, name.as_str(), ";");
            }
            i = i + 1;
        }
        put_line(&mut out, "};");
        Ok(out)
    }
}

/// `text` with a table entry of eight bytes under its own name, and an empty line.
pub open spec fn quad_entry(text: Seq<char>, address: u64, value: Seq<char>) -> Seq<char> {
    let labelled = lines::global_label(text, lines::offset_name(address));
    lines::line(lines::line_of_two(labelled, "\t.quad "@, value), ""@)
}

pub(crate) fn put_quad_entry(out: &mut String, address: u64, value: &str)
    ensures
        final(out)@ == quad_entry(old(out)@, address, value@),
{
    let name = make_offset_name(address);
    put_global_label(out, name.as_str());
    put_line_of_two(out, "\t.quad ", value);
    put_line(out, "");
}

/// The symbol of the `i`-th relocation of `.rela.plt` has a name.
pub open spec fn slot_check(nso: NsoView, i: int) -> Result<(), Error> {
    if i >= nso.reloc_plt.len() {
        Err(Error::OutOfBounds)
    } else if nso.reloc_plt[i].sym_idx >= nso.symbols.len() {
        Err(Error::SymbolMissing)
    } else {
        match nso.symbols[nso.reloc_plt[i].sym_idx as int].name(nso.strings) {
            Ok(_) => Ok(()),
            Err(e) => Err(e),
        }
    }
}

/// `text` with the slots of `.got.plt` from `from` on. The first slot is at `start`.
pub open spec fn slot_lines(
    nso: NsoView,
    text: Seq<char>,
    start: int,
    count: int,
    from: int,
) -> Result<Seq<char>, Error>
    decreases count - from,
{
    if from >= count {
        Ok(text)
    } else {
        match slot_check(nso, from) {
            Err(e) => Err(e),
            Ok(()) => slot_lines(
                nso,
                quad_entry(text, (start + from * 8) as u64, "12513320"@),
                start,
                count,
                from + 1,
            ),
        }
    }
}

/// The `.got.plt` section: three entries for the loader, and a slot for each function.
pub open spec fn got_plt_text(nso: NsoView) -> Result<Seq<char>, Error> {
    match nso::needed(nso.sections, SectionType::GotPlt) {
        Err(e) => Err(e),
        Ok((start, end)) => if end - start < 24 {
            Err(Error::Overflow)
        } else {
            let a = quad_entry(section_start(".section \".got.plt\""@), start, "0"@);
            let b = quad_entry(a, (start + 8) as u64, "0"@);
            let c = quad_entry(b, (start + 16) as u64, "0"@);
            slot_lines(nso, c, start + 24, (end - start) / 8 - 3, 0)
        },
    }
}

/// `text` with the entries of `.got` from `from` on.
pub open spec fn got_lines(
    memory: Seq<u8>,
    text: Seq<char>,
    start: int,
    count: int,
    from: int,
) -> Result<Seq<char>, Error>
    decreases count - from,
{
    if from >= count {
        Ok(text)
    } else {
        match bytes::le_read(memory, start + from * 8, 8) {
            Err(_) => Err(Error::OutOfBounds),
            Ok(value) => got_lines(
                memory,
                quad_entry(text, (start + from * 8) as u64, fmt::decimal(value)),
                start,
                count,
                from + 1,
            ),
        }
    }
}

/// The `.got` section.
pub open spec fn got_text(nso: NsoView) -> Result<Seq<char>, Error> {
    match nso::needed(nso.sections, SectionType::Got) {
        Err(e) => Err(e),
        Ok((start, end)) => got_lines(
            nso.file.memory,
            section_start(".section \".got\""@),
            start as int,
            (end - start) / 8,
            0,
        ),
    }
}

/// `text` with the entries of the init array from `from` on.
pub open spec fn init_array_lines(e: ExportView, text: Seq<char>, from: int) -> Result<
    Seq<char>,
    Error,
>
    decreases e.nso.init_array.len() - from,
{
    let offset = e.nso.init_array_offset;
    if from < 0 || from >= e.nso.init_array.len() {
        Ok(text)
    } else if offset + from * 8 > u64::MAX {
        Err(Error::Overflow)
    } else if from != 0 && e.refs.types.contains_key((offset + from * 8) as u64) {
        Err(Error::UnexpectedReference { address: (offset + from * 8) as u64 })
    } else if e.lookup.symbols.contains_key(e.nso.init_array[from]) {
        Err(Error::UnexpectedSymbol { address: e.nso.init_array[from] })
    } else {
        match e.name(e.nso.init_array[from]) {
            Err(error) => Err(error),
            Ok(name) => init_array_lines(
                e,
                lines::line_of_two(text, "\t.quad "@, name),
                from + 1,
            ),
        }
    }
}

/// The `.init_array` section. Something has to refer to its start and nothing to the rest.
pub open spec fn init_array_text(e: ExportView) -> Result<Seq<char>, Error> {
    let offset = e.nso.init_array_offset;
    if !e.refs.types.contains_key(offset) {
        Err(Error::Unreferenced { address: offset })
    } else {
        init_array_lines(
            e,
            lines::global_label(
                section_start(".section \".init_array\",\"aw\""@),
                lines::offset_name(offset),
            ),
            0,
        )
    }
}

/// `text` with `.skip`, unless there is nothing to be skipped.
pub open spec fn skipped(text: Seq<char>, size: int) -> Seq<char> {
    if size == 0 {
        text
    } else {
        lines::line_of_two(text, "\t.skip "@, fmt::decimal(size))
    }
}

/// `text` with the variables of `.bss` from `from` on. All before `last` has been written.
pub open spec fn bss_lines(
    e: ExportView,
    text: Seq<char>,
    start: int,
    size: int,
    last: int,
    from: int,
) -> Seq<char>
    decreases size - from,
{
    if from >= size {
        skipped(text, size - last)
    } else if e.refs.types.contains_key((start + from) as u64) {
        let labelled = lines::global_labels(
            skipped(text, from - last),
            e.names((start + from) as u64),
            0,
        );
        bss_lines(e, labelled, start, size, from, from + 1)
    } else {
        bss_lines(e, text, start, size, last, from + 1)
    }
}

/// The `.bss` section.
pub open spec fn bss_text(e: ExportView) -> Result<Seq<char>, Error> {
    let module = e.nso.module;
    if module.bss_end < module.bss_start {
        Err(Error::Overflow)
    } else {
        Ok(
            bss_lines(
                e,
                section_start(".section \".bssdisas\",\"aw\",@nobits"@),
                module.bss_start + module.header_offset,
                module.bss_end - module.bss_start,
                0,
                0,
            ),
        )
    }
}

/// The `.data` section: the start of the data segment, up to `.dynamic`.
pub open spec fn data_text(e: ExportView, floats: FloatView) -> Result<Seq<char>, Error> {
    let offset = e.nso.file.header.offset(NsoSegment::Data);
    let size = e.nso.module.header_offset + e.nso.module.dyn_offset - offset;
    if size < 0 {
        Err(Error::Overflow)
    } else {
        data::data_section(e, floats, ".section \".data\",\"aw\""@, size as u64, offset as u64)
    }
}

/// The `.rodata` section: from the end of `.dynstr` to `.eh_frame_hdr`.
pub open spec fn rodata_text(e: ExportView, floats: FloatView) -> Result<Seq<char>, Error> {
    let header = e.nso.file.header;
    let offset = header.offset(NsoSegment::Rodata) + header.dynstr_offset + header.dynstr_size;
    let size = e.nso.module.ex_info_start_offset + e.nso.module.header_offset - offset;
    if size < 0 {
        Err(Error::Overflow)
    } else {
        data::data_section(e, floats, ".section \".rodata\",\"a\""@, size as u64, offset as u64)
    }
}

/// `text` with the embedded strings from `from` on.
pub open spec fn embed_lines(
    nso: NsoView,
    lookup: LookupView,
    text: Seq<char>,
    from: int,
) -> Seq<char>
    decreases nso.embed.len() - from,
{
    if from < 0 || from >= nso.embed.len() {
        text
    } else {
        let (address, content) = nso.embed[from];
        let labelled = lines::global_labels(text, lookup::all_names(nso, lookup, address), 0);
        embed_lines(
            nso,
            lookup,
            lines::line_of_three(labelled, "\t.string \""@, lines::escaped(content), "\""@),
            from + 1,
        )
    }
}

/// The `.embed` section.
pub open spec fn embed_text(nso: NsoView, lookup: LookupView) -> Seq<char> {
    embed_lines(nso, lookup, lines::line(""@, ".section \".embed\", \"a\""@), 0)
}

/// `text` with the labels of the symbols from `from` on.
pub open spec fn symbol_label_lines(
    text: Seq<char>,
    symbols: Seq<DynamicSymbol>,
    strings: Map<u64, Seq<char>>,
    address: u64,
    from: int,
) -> Result<Seq<char>, Error>
    decreases symbols.len() - from,
{
    if from < 0 || from >= symbols.len() {
        Ok(text)
    } else {
        match (symbols[from].name(strings), symbols[from].bind()) {
            (Err(e), _) => Err(e),
            (Ok(_), Err(e)) => Err(e),
            (Ok(_), Ok(DynamicSymbolBind::STB_LOCAL)) => Err(Error::UnsupportedSymbol),
            (Ok(name), Ok(bind)) => {
                let directive = if bind == DynamicSymbolBind::STB_WEAK {
                    ".weak "@
                } else {
                    ".global "@
                };
                let a = lines::line_of_three(text, "# 0x"@, fmt::hex(address as nat), ":"@);
                let b = lines::line_of_two(a, directive, name);
                symbol_label_lines(
                    lines::line_of_two(b, name, ":"@),
                    symbols,
                    strings,
                    address,
                    from + 1,
                )
            },
        }
    }
}

/// The labels of an address. Without a symbol the label is local, unless `non_local`.
pub open spec fn symbol_labels(
    nso: NsoView,
    lookup: LookupView,
    address: u64,
    non_local: bool,
) -> Result<Seq<char>, Error> {
    let symbols = lookup::symbols_of(nso, lookup, address);
    if symbols.len() > 0 {
        symbol_label_lines(""@, symbols, nso.strings, address, 0)
    } else if non_local {
        Ok(lines::global_label(""@, lookup::fallback_name(nso, address)))
    } else {
        Ok(lines::line_of_three(""@, ".L"@, lookup::fallback_name(nso, address), ":"@))
    }
}

impl NSO {
    /// Writes the labels of an address, a local one where there is no symbol.
    pub fn export_symbols_force(&self, address: u64, helper: &NsoLookupHelper) -> (r: Result<
        String,
        Error,
    >)
        requires
            helper@.fits(self@.symbols.len()),
        ensures
            match r {
                Ok(text) => symbol_labels(self@, helper@, address, false) == Ok::<
                    Seq<char>,
                    Error,
                >(text@),
                Err(e) => symbol_labels(self@, helper@, address, false) == Err::<Seq<char>, Error>(
                    e,
                ),
            },
    {
        self.export_symbols_force_nonlocal(address, false, helper)
    }

    /// Writes the labels of an address.
    pub fn export_symbols_force_nonlocal(
        &self,
        address: u64,
        non_local: bool,
        helper: &NsoLookupHelper,
    ) -> (r: Result<String, Error>)
        requires
            helper@.fits(self@.symbols.len()),
        ensures
            match r {
                Ok(text) => symbol_labels(self@, helper@, address, non_local) == Ok::<
                    Seq<char>,
                    Error,
                >(text@),
                Err(e) => symbol_labels(self@, helper@, address, non_local) == Err::<
                    Seq<char>,
                    Error,
                >(e),
            },
    {
        let symbols = self.get_symbols(address, helper);
        let ghost found = lookup::symbols_of(self@, helper@, address);
        let ghost strings = self@.strings;
        assert(symbols@.len() == found.len());
        let mut out = String::from_str("");
        if symbols.len() == 0 {
            let name = self.get_fallback_symbol(address);
            if non_local {
                put_global_label(&mut out, name.as_str());
            } else {
                put_line_of_three(&mut out, ".L", name.as_str(), ":");
            }
            return Ok(out);
        }
        let mut i: usize = 0;
        while i < symbols.len()
            invariant
                i <= symbols@.len(),
                found == lookup::symbol_views(symbols@),
                strings == self@.strings,
                symbol_label_lines(out@, found, strings, address, i as int) == symbol_labels(
                    self@,
                    helper@,
                    address,
                    non_local,
                ),
            decreases symbols@.len() - i,
        {
            assert(found[i as int] == *symbols@[i as int]);
            let name = symbols[i].get_name(&self.dynstr_table)?;
            let bind = symbols[i].get_bind()?;
            let digits = format_hex(address);
            put_line_of_three(&mut out, "# 0x", digits.as_str(), ":");
            match bind {
                DynamicSymbolBind::STB_WEAK => {
                    put_line_of_two(&mut out, ".weak ", name.as_str());
                },
                DynamicSymbolBind::STB_GLOBAL => {
                    put_line_of_two(&mut out, ".global ", name.as_str());
                },
                DynamicSymbolBind::STB_LOCAL => {
                    return Err(Error::UnsupportedSymbol);
                },
            }
            put_line_of_two(&mut out, name.as_str(), ":");
            i = i + 1;
        }
        Ok(out)
    }

    fn check_slot(&self, i: u64) -> (r: Result<(), Error>)
        ensures
            r == slot_check(self@, i as int),
    {
        if i >= self.reloc_plt_table.len() as u64 {
            return Err(Error::OutOfBounds);
        }
        let index: u32 = self.reloc_plt_table[i as usize].sym_idx;
        if index as u64 >= self.symbol_table.1.len() as u64 {
            return Err(Error::SymbolMissing);
        }
        self.symbol_table.1[index as usize].get_name(&self.dynstr_table)?;
        Ok(())
    }

    /// Writes the `.got.plt` section.
    pub fn export_got_plt(&self) -> (r: Result<String, Error>)
        ensures
            match r {
                Ok(text) => got_plt_text(self@) == Ok::<Seq<char>, Error>(text@),
                Err(e) => got_plt_text(self@) == Err::<Seq<char>, Error>(e),
            },
    {
        let range = match self.sections.get_range(&SectionType::GotPlt) {
            Some(range) => range,
            None => {
                return Err(Error::SectionMissing);
            },
        };
        let start: u64 = range.start;
        if range.end < start || range.end - start < 24 {
            return Err(Error::Overflow);
        }
        let mut out = start_section(".section \".got.plt\"");
        put_quad_entry(&mut out, start, "0");
        put_quad_entry(&mut out, start + 8, "0");
        put_quad_entry(&mut out, start + 16, "0");
        let count: u64 = (range.end - start) / 8 - 3;
        let mut i: u64 = 0;
        while i < count
            invariant
                i <= count,
                start + 24 + count * 8 <= u64::MAX,
                slot_lines(self@, out@, start + 24, count as int, i as int) == got_plt_text(self@),
            decreases count - i,
        {
            self.check_slot(i)?;
            put_quad_entry(&mut out, start + 24 + i * 8, "12513320");
            i = i + 1;
        }
        Ok(out)
    }

    /// Writes the `.got` section.
    pub fn export_got(&self) -> (r: Result<String, Error>)
        ensures
            match r {
                Ok(text) => got_text(self@) == Ok::<Seq<char>, Error>(text@),
                Err(e) => got_text(self@) == Err::<Seq<char>, Error>(e),
            },
    {
        let range = match self.sections.get_range(&SectionType::Got) {
            Some(range) => range,
            None => {
                return Err(Error::SectionMissing);
            },
        };
        let start: u64 = range.start;
        let count: u64 = if range.end < start {
            0
        } else {
            (range.end - start) / 8
        };
        let total: usize = self.file.memory.len();
        let mut out = start_section(".section \".got\"");
        let mut i: u64 = 0;
        while i < count
            invariant
                i <= count,
                start + count * 8 <= u64::MAX,
                total == self@.file.memory.len(),
                got_lines(
                    self@.file.memory,
                    out@,
                    start as int,
                    count as int,
                    i as int,
                ) == got_text(self@),
            decreases count - i,
        {
            let address: u64 = start + i * 8;
            if address > total as u64 {
                return Err(Error::OutOfBounds);
            }
            let value: u64 = match read_u64(self.file.memory.as_slice(), address as usize) {
                Ok(value) => value,
                Err(_) => {
                    return Err(Error::OutOfBounds);
                },
            };
            put_quad_entry(&mut out, address, format_decimal(value).as_str());
            i = i + 1;
        }
        Ok(out)
    }

    /// Writes the `.init_array` section.
    pub fn export_init_array(&self, references: &References, helper: &NsoLookupHelper) -> (r:
        Result<String, Error>)
        requires
            helper@.fits(self@.symbols.len()),
        ensures
            ({
                let e = ExportView { nso: self@, lookup: helper@, refs: references@ };
                match r {
                    Ok(text) => init_array_text(e) == Ok::<Seq<char>, Error>(text@),
                    Err(error) => init_array_text(e) == Err::<Seq<char>, Error>(error),
                }
            }),
    {
        let ghost e = ExportView { nso: self@, lookup: helper@, refs: references@ };
        let offset: u64 = self.init_array.0;
        if !references.has_references_to(offset) {
            return Err(Error::Unreferenced { address: offset });
        }
        let mut out = start_section(".section \".init_array\",\"aw\"");
        let name = make_offset_name(offset);
        put_global_label(&mut out, name.as_str());
        let mut i: usize = 0;
        while i < self.init_array.1.len()
            invariant
                i <= self.init_array.1@.len(),
                helper@.fits(self@.symbols.len()),
                offset == self@.init_array_offset,
                e == (ExportView { nso: self@, lookup: helper@, refs: references@ }),
                init_array_lines(e, out@, i as int) == init_array_text(e),
            decreases self.init_array.1@.len() - i,
        {
            if i as u64 > (u64::MAX - offset) / 8 {
                return Err(Error::Overflow);
            }
            let address: u64 = offset + i as u64 * 8;
            let function: u64 = self.init_array.1[i];
            if i != 0 && references.has_references_to(address) {
                return Err(Error::UnexpectedReference { address });
            }
            if helper.has_symbol(function) {
                return Err(Error::UnexpectedSymbol { address: function });
            }
            let name = self.get_any_symbol(function, helper)?;
            put_line_of_two(&mut out, "\t.quad ", name.as_str());
            i = i + 1;
        }
        Ok(out)
    }

    /// Writes the `.bss` section.
    pub fn export_bss(&self, references: &References, helper: &NsoLookupHelper) -> (r: Result<
        String,
        Error,
    >)
        requires
            helper@.fits(self@.symbols.len()),
        ensures
            ({
                let e = ExportView { nso: self@, lookup: helper@, refs: references@ };
                match r {
                    Ok(text) => bss_text(e) == Ok::<Seq<char>, Error>(text@),
                    Err(error) => bss_text(e) == Err::<Seq<char>, Error>(error),
                }
            }),
    {
        let ghost e = ExportView { nso: self@, lookup: helper@, refs: references@ };
        if self.module.bss_end < self.module.bss_start {
            return Err(Error::Overflow);
        }
        let mut out = start_section(".section \".bssdisas\",\"aw\",@nobits");
        let start: u64 = self.module.bss_start as u64 + self.module.header_offset as u64;
        let size: u64 = (self.module.bss_end - self.module.bss_start) as u64;
        let mut last: u64 = 0;
        let mut i: u64 = 0;
        while i < size
            invariant
                last <= i <= size,
                size <= u32::MAX,
                start <= 2 * u32::MAX,
                helper@.fits(self@.symbols.len()),
                e == (ExportView { nso: self@, lookup: helper@, refs: references@ }),
                bss_text(e) == Ok::<Seq<char>, Error>(
                    bss_lines(e, out@, start as int, size as int, last as int, i as int),
                ),
            decreases size - i,
        {
            if references.has_references_to(start + i) {
                if last != i {
                    put_decimal(&mut out, "\t.skip ", i - last);
                    last = i;
                }
                let names = self.get_all_symbols(start + i, helper);
                put_global_labels(&mut out, &names);
            }
            i = i + 1;
        }
        if last != size {
            put_decimal(&mut out, "\t.skip ", size - last);
        }
        Ok(out)
    }

    /// Writes the `.data` section.
    pub fn export_data(
        &self,
        references: &References,
        helper: &NsoLookupHelper,
        floats: &FloatTexts,
    ) -> (r: Result<String, Error>)
        requires
            helper@.fits(self@.symbols.len()),
        ensures
            ({
                let e = ExportView { nso: self@, lookup: helper@, refs: references@ };
                match r {
                    Ok(text) => data_text(e, floats@) == Ok::<Seq<char>, Error>(text@),
                    Err(error) => data_text(e, floats@) == Err::<Seq<char>, Error>(error),
                }
            }),
    {
        let offset: u64 = self.file.header.get_segment_mem_offset(&NsoSegment::Data) as u64;
        let end: u64 = self.module.header_offset as u64 + self.module.dyn_offset as u64;
        if end < offset {
            return Err(Error::Overflow);
        }
        let exporter = Exporter { nso: self, helper, references };
        exporter.export_data_section(".section \".data\",\"aw\"", end - offset, offset, floats)
    }

    /// Writes the `.rodata` section.
    pub fn export_rodata(
        &self,
        references: &References,
        helper: &NsoLookupHelper,
        floats: &FloatTexts,
    ) -> (r: Result<String, Error>)
        requires
            helper@.fits(self@.symbols.len()),
        ensures
            ({
                let e = ExportView { nso: self@, lookup: helper@, refs: references@ };
                match r {
                    Ok(text) => rodata_text(e, floats@) == Ok::<Seq<char>, Error>(text@),
                    Err(error) => rodata_text(e, floats@) == Err::<Seq<char>, Error>(error),
                }
            }),
    {
        let offset: u64 = self.file.header.get_segment_mem_offset(&NsoSegment::Rodata) as u64
            + self.file.header.dynstr_offset as u64 + self.file.header.dynstr_size as u64;
        let end: u64 = self.module.ex_info_start_offset as u64 + self.module.header_offset as u64;
        if end < offset {
            return Err(Error::Overflow);
        }
        let exporter = Exporter { nso: self, helper, references };
        exporter.export_data_section(".section \".rodata\",\"a\"", end - offset, offset, floats)
    }

    /// Writes the `.embed` section.
    pub fn export_embed(&self, helper: &NsoLookupHelper) -> (r: String)
        requires
            helper@.fits(self@.symbols.len()),
        ensures
            r@ == embed_text(self@, helper@),
    {
        let mut out = String::from_str("");
        put_line(&mut out, ".section \".embed\", \"a\"");
        let mut i: usize = 0;
        while i < self.embed.len()
            invariant
                i <= self.embed@.len(),
                helper@.fits(self@.symbols.len()),
                embed_lines(self@, helper@, out@, i as int) == embed_text(self@, helper@),
            decreases self.embed@.len() - i,
        {
            assert(self@.embed[i as int] == (self.embed@[i as int].0, self.embed@[i as int].1@));
            let names = self.get_all_symbols(self.embed[i].0, helper);
            put_global_labels(&mut out, &names);
            let content = escape_for_asm_string(self.embed[i].1.as_str());
            put_line_of_three(&mut out, "\t.string \"", content.as_str(), "\"");
            i = i + 1;
        }
        out
    }
}

/// The code that a module starts with, and its header.
pub const CRT0: &'static str = "
.section \".text.crt0\",\"ax\"
.global __module_start
.extern __nx_module_runtime

__module_start:
    .word 0
    .word __nx_mod0 - __module_start

.section \".text.mod0\",\"ax\"
.global __nx_mod0
__nx_mod0:
    .ascii \"MOD0\"
    .word  __dynamic_start__    - __nx_mod0
    .word  __bss_start__        - __nx_mod0
    .word  __bss_end__          - __nx_mod0
    .word  __eh_frame_hdr_start__    - __nx_mod0
    .word  __eh_frame_hdr_end__      - __nx_mod0
    .word  __nx_module_runtime  - __nx_mod0
";

/// What is written for the code that a module starts with.
pub open spec fn crt0_text() -> Seq<char> {
    lines::line(""@, CRT0@)
}

impl NSO {
    /// Writes the code that a module starts with.
    pub fn export_crt0(&self) -> (r: String)
        ensures
            r@ == crt0_text(),
    {
        let mut out = String::from_str("");
        put_line(&mut out, CRT0);
        out
    }
}

/// A section starts with a line that names it.
pub proof fn law_sections_start_with_their_name(header: Seq<char>)
    ensures
        section_start(header) == header + seq!['\n', '\n'],
{
    reveal_strlit("");
    reveal_strlit("\n");
    assert(section_start(header) =~= header + seq!['\n', '\n']);
}

/// A relocation is written as its address, its type, its symbol and its addend, in this order and in
/// the sizes that they have in the table.
pub proof fn law_relocations_are_written_in_full(text: Seq<char>, table: Seq<Relocation>, i: int)
    requires
        0 <= i <= table.len(),
    ensures
        i == table.len() ==> relocation_lines(text, table, i) == text,
        i < table.len() ==> relocation_lines(text, table, i) == relocation_lines(
            text + ".quad "@ + fmt::decimal(table[i].offset as int) + "\n"@ + ".word "@
                + fmt::decimal(table[i].reloc_type.value() as int) + "\n"@ + ".word "@
                + fmt::decimal(table[i].sym_idx as int) + "\n"@ + ".quad "@ + fmt::decimal(
                table[i].addend as int,
            ) + "\n"@,
            table,
            i + 1,
        ),
{
}

/// A table of relocations starts with its name and has all of them.
pub proof fn law_relocation_tables_are_written_in_full(name: Seq<char>, table: Seq<Relocation>)
    ensures
        relocation_text(name, table) == relocation_lines(
            ".section \""@ + name + "\", \"a\""@ + seq!['\n', '\n'],
            table,
            0,
        ),
{
    reveal_strlit("");
    reveal_strlit("\n");
    assert(lines::line(lines::line_of_three(""@, ".section \""@, name, "\", \"a\""@), ""@)
        =~= ".section \""@ + name + "\", \"a\""@ + seq!['\n', '\n']);
}

/// The entries of the `.dynamic` section are written as the number of their kind and their value. An
/// entry of two zeros ends them.
pub proof fn law_dynamic_entries_are_written_in_full(
    text: Seq<char>,
    entries: Seq<(DynamicTagType, u64)>,
    i: int,
)
    requires
        0 <= i <= entries.len(),
    ensures
        i == entries.len() ==> dynamic_lines(text, entries, i) == text,
        i < entries.len() ==> dynamic_lines(text, entries, i) == dynamic_lines(
            text + ".quad "@ + fmt::decimal(entries[i].0.value() as int) + "\n"@ + ".quad "@
                + fmt::decimal(entries[i].1 as int) + "\n"@,
            entries,
            i + 1,
        ),
        dynamic_text(entries) == dynamic_lines(
            ".section \".dynamic\""@ + seq!['\n', '\n'],
            entries,
            0,
        ) + ".quad DT_NULL"@ + "\n"@ + ".quad 0"@ + "\n"@,
{
    law_sections_start_with_their_name(".section \".dynamic\""@);
}

/// A symbol is written with all its fields, in their order and in their sizes.
pub proof fn law_symbols_are_written_in_full(text: Seq<char>, symbols: Seq<DynamicSymbol>, i: int)
    requires
        0 <= i <= symbols.len(),
    ensures
        i == symbols.len() ==> symbol_table_lines(text, symbols, i) == text,
        i < symbols.len() ==> symbol_table_lines(text, symbols, i) == symbol_table_lines(
            text + ".word "@ + fmt::decimal(symbols[i].str_table_offset as int) + "\n"@ + ".byte "@
                + fmt::decimal(symbols[i].info as int) + "\n"@ + ".byte "@ + fmt::decimal(
                symbols[i].other as int,
            ) + "\n"@ + ".short "@ + fmt::decimal(symbols[i].section_idx as int) + "\n"@
                + ".quad "@ + fmt::decimal(symbols[i].value as int) + "\n"@ + ".quad "@
                + fmt::decimal(symbols[i].size as int) + "\n"@,
            symbols,
            i + 1,
        ),
        symbol_table_text(symbols) == symbol_table_lines(
            ".section \".dynsym\""@ + seq!['\n', '\n'],
            symbols,
            0,
        ),
{
    law_sections_start_with_their_name(".section \".dynsym\""@);
}

/// Strings are written one by one, each as an assembler string, in the order of their places.
pub proof fn law_strings_are_written_in_full(
    text: Seq<char>,
    strings: Seq<Seq<char>>,
    i: int,
    table: Map<u64, Seq<char>>,
    places: Seq<u64>,
)
    requires
        0 <= i <= strings.len(),
        ordered::are_keys(table, places),
    ensures
        i == strings.len() ==> string_lines(text, strings, i) == text,
        i < strings.len() ==> string_lines(text, strings, i) == string_lines(
            text + ".string \""@ + lines::escaped(strings[i]) + "\""@ + "\n"@,
            strings,
            i + 1,
        ),
        string_table_text(table) == string_lines(
            ".section \".dynstr\""@ + "\n"@,
            places.map_values(|k: u64| table[k]),
            0,
        ),
{
    ordered::lemma_values_in_order(table, places);
    reveal_strlit("");
    assert(lines::line(""@, ".section \".dynstr\""@) =~= ".section \".dynstr\""@ + "\n"@);
}

/// A hash table is written as its two sizes, its buckets and its chains.
pub proof fn law_hash_tables_are_written_in_full(table: HashTableView)
    ensures
        hash_text(table) == lines::word_lines(
            lines::word_lines(
                ".section \".hash\""@ + seq!['\n', '\n'] + ".word "@ + fmt::decimal(
                    table.nbucket as int,
                ) + "\n"@ + ".word "@ + fmt::decimal(table.nchain as int) + "\n"@,
                table.buckets,
                0,
            ),
            table.chains,
            0,
        ),
{
    law_sections_start_with_their_name(".section \".hash\""@);
}

/// A GNU hash table is written as its four numbers, its filter, its buckets and its chains, and a zero.
pub proof fn law_gnu_hash_tables_are_written_in_full(table: GnuHashTableView)
    ensures
        gnu_hash_text(table) == lines::word_lines(
            lines::word_lines(
                lines::quad_lines(
                    ".section \".gnu.hash\""@ + seq!['\n', '\n'] + ".word "@ + fmt::decimal(
                        table.nbuckets as int,
                    ) + "\n"@ + ".word "@ + fmt::decimal(table.sym_idx as int) + "\n"@ + ".word "@
                        + fmt::decimal(table.mask as int) + "\n"@ + ".word "@ + fmt::decimal(
                        table.shift as int,
                    ) + "\n"@,
                    table.bloom_filter,
                    0,
                ),
                table.buckets,
                0,
            ),
            table.chains,
            0,
        ) + ".word 0"@ + "\n"@,
{
    law_sections_start_with_their_name(".section \".gnu.hash\""@);
}

/// The name of the module is written behind a zero and its length in bytes.
pub proof fn law_module_names_are_written_in_full(name: Seq<char>)
    ensures
        module_name_text(name) == ".section \".rodata.module_name\",\"a\""@ + "\n"@ + ".word 0"@
            + "\n"@ + ".word "@ + fmt::decimal(vstd::utf8::encode_utf8(name).len() as int) + "\n"@
            + ".string \""@ + lines::escaped(name) + "\""@ + "\n"@,
        unknown_data_gap_text() == ".section \".unknown.data.gap\",\"aw\""@ + seq!['\n', '\n']
            + "\t.skip 80"@ + "\n"@,
{
    reveal_strlit("");
    assert(lines::line(""@, ".section \".rodata.module_name\",\"a\""@)
        =~= ".section \".rodata.module_name\",\"a\""@ + "\n"@);
    law_sections_start_with_their_name(".section \".unknown.data.gap\",\"aw\""@);
}

/// A section that is not understood is written byte by byte, all of it.
pub proof fn law_raw_sections_are_written_byte_by_byte(
    text: Seq<char>,
    data: Seq<u8>,
    i: int,
    nso: NsoView,
    t: SectionType,
    start: int,
    end: int,
    header: Seq<char>,
)
    requires
        0 <= i <= data.len(),
        section_map::is_whole(nso.sections, start, end, t),
        end <= nso.file.memory.len(),
        end <= u64::MAX,
    ensures
        i == data.len() ==> raw_lines(text, data, i) == text,
        i < data.len() ==> raw_lines(text, data, i) == raw_lines(
            text + ".byte 0x"@ + fmt::hex(data[i] as nat) + "\n"@,
            data,
            i + 1,
        ),
        raw_section(nso, t, header) == Ok::<Seq<char>, Error>(
            raw_lines(header + "\n"@, nso.file.memory.subrange(start, end), 0),
        ),
{
    section_map::lemma_whole_section(nso.sections, start, end, t);
    reveal_strlit("");
    assert(lines::line(""@, header) =~= header + "\n"@);
}

/// The list of symbols has each name that is not empty on a line of its own, between braces.
pub proof fn law_symbol_lists_have_all_names(
    text: Seq<char>,
    symbols: Seq<DynamicSymbol>,
    strings: Map<u64, Seq<char>>,
    i: int,
    nso: NsoView,
)
    requires
        0 <= i <= symbols.len(),
    ensures
        i == symbols.len() ==> symbol_list_lines(text, symbols, strings, i) == Ok::<
            Seq<char>,
            Error,
        >(text + "};"@ + "\n"@),
        i < symbols.len() ==> ({
            let name = strings[symbols[i].str_table_offset as u64];
            let known = strings.contains_key(symbols[i].str_table_offset as u64);
            let all = symbol_list_lines(text, symbols, strings, i);
            &&& !known ==> all is Err
            &&& known && name.len() > 0 ==> all == symbol_list_lines(
                text + name + ";"@ + "\n"@,
                symbols,
                strings,
                i + 1,
            )
            &&& known && name.len() == 0 ==> all == symbol_list_lines(text, symbols, strings, i + 1)
        }),
        symbol_list(nso) == symbol_list_lines("{"@ + "\n"@, nso.symbols, nso.strings, 0),
{
    reveal_strlit("");
    assert(lines::line(""@, "{"@) =~= "{"@ + "\n"@);
}

/// An entry of a table of addresses is written under a name of its own, which is made of its address.
pub proof fn law_table_entries_are_labelled(text: Seq<char>, address: u64, value: Seq<char>)
    ensures
        quad_entry(text, address, value) == text + ".global "@ + ("off_"@ + fmt::hex(address as nat))
            + "\n"@ + ("off_"@ + fmt::hex(address as nat)) + ":"@ + "\n"@ + "\t.quad "@ + value
            + "\n"@ + "\n"@,
{
    reveal_strlit("");
    let before = text + ".global "@ + ("off_"@ + fmt::hex(address as nat)) + "\n"@ + ("off_"@
        + fmt::hex(address as nat)) + ":"@ + "\n"@ + "\t.quad "@ + value + "\n"@;
    assert(before + ""@ =~= before);
}

/// The slots of the `.got.plt` section come eight bytes one behind the other, behind three entries for
/// the loader, one for each relocation whose symbol has a name.
pub proof fn law_slots_are_written_in_order(
    nso: NsoView,
    text: Seq<char>,
    first: int,
    count: int,
    i: int,
    start: u64,
    end: u64,
)
    requires
        0 <= i,
        section_map::is_whole(nso.sections, start as int, end as int, SectionType::GotPlt),
    ensures
        i >= count ==> slot_lines(nso, text, first, count, i) == Ok::<Seq<char>, Error>(text),
        i < count && i < nso.reloc_plt.len() && nso.reloc_plt[i].sym_idx < nso.symbols.len()
            && nso.strings.contains_key(
            nso.symbols[nso.reloc_plt[i].sym_idx as int].str_table_offset as u64,
        ) ==> slot_lines(nso, text, first, count, i) == slot_lines(
            nso,
            quad_entry(text, (first + 8 * i) as u64, "12513320"@),
            first,
            count,
            i + 1,
        ),
        i < count && (i >= nso.reloc_plt.len() || nso.reloc_plt[i].sym_idx >= nso.symbols.len())
            ==> slot_lines(nso, text, first, count, i) is Err,
        end - start >= 24 ==> got_plt_text(nso) == slot_lines(
            nso,
            quad_entry(
                quad_entry(
                    quad_entry(".section \".got.plt\""@ + seq!['\n', '\n'], start, "0"@),
                    (start + 8) as u64,
                    "0"@,
                ),
                (start + 16) as u64,
                "0"@,
            ),
            start + 24,
            (end - start - 24) / 8,
            0,
        ),
{
    section_map::lemma_whole_section(
        nso.sections,
        start as int,
        end as int,
        SectionType::GotPlt,
    );
    law_sections_start_with_their_name(".section \".got.plt\""@);
    assert((end - start - 24) / 8 == (end - start) / 8 - 3);
}

/// The entries of the `.got` section are written with the numbers that are in memory there.
pub proof fn law_got_entries_keep_their_value(
    nso: NsoView,
    text: Seq<char>,
    first: int,
    count: int,
    i: int,
    start: u64,
    end: u64,
)
    requires
        0 <= i,
        0 <= first,
        section_map::is_whole(nso.sections, start as int, end as int, SectionType::Got),
    ensures
        ({
            let memory = nso.file.memory;
            let at = first + 8 * i;
            &&& i >= count ==> got_lines(memory, text, first, count, i) == Ok::<Seq<char>, Error>(
                text,
            )
            &&& i < count && at + 8 <= memory.len() ==> got_lines(memory, text, first, count, i)
                == got_lines(
                memory,
                quad_entry(text, at as u64, fmt::decimal(bytes::le_value(memory, at, 8))),
                first,
                count,
                i + 1,
            )
            &&& i < count && at + 8 > memory.len() ==> got_lines(memory, text, first, count, i)
                is Err
            &&& got_text(nso) == got_lines(
                memory,
                ".section \".got\""@ + seq!['\n', '\n'],
                start as int,
                (end - start) / 8,
                0,
            )
        }),
{
    section_map::lemma_whole_section(nso.sections, start as int, end as int, SectionType::Got);
    law_sections_start_with_their_name(".section \".got\""@);
}

/// The init array is written with the names of its functions, in order, behind a label for its start.
/// Its functions have no symbols, and nothing refers to its entries but for the first.
pub proof fn law_init_arrays_are_written_by_name(e: ExportView, text: Seq<char>, i: int)
    requires
        0 <= i <= e.nso.init_array.len(),
    ensures
        i == e.nso.init_array.len() ==> init_array_lines(e, text, i) == Ok::<Seq<char>, Error>(text),
        i < e.nso.init_array.len() ==> ({
            let function = e.nso.init_array[i];
            let at = e.nso.init_array_offset + 8 * i;
            let all = init_array_lines(e, text, i);
            &&& at <= u64::MAX && (i == 0 || !e.refs.types.contains_key(at as u64))
                && !e.lookup.symbols.contains_key(function) && lookup::any_name(
                e.nso,
                e.lookup,
                function,
            ) is Ok ==> all == init_array_lines(
                e,
                text + "\t.quad "@ + lookup::any_name(e.nso, e.lookup, function)->Ok_0 + "\n"@,
                i + 1,
            )
            &&& at <= u64::MAX && i > 0 && e.refs.types.contains_key(at as u64) ==> all is Err
            &&& e.lookup.symbols.contains_key(function) ==> all is Err
        }),
        e.refs.types.contains_key(e.nso.init_array_offset) ==> init_array_text(e)
            == init_array_lines(
            e,
            ".section \".init_array\",\"aw\""@ + seq!['\n', '\n'] + ".global "@ + ("off_"@
                + fmt::hex(e.nso.init_array_offset as nat)) + "\n"@ + ("off_"@ + fmt::hex(
                e.nso.init_array_offset as nat,
            )) + ":"@ + "\n"@,
            0,
        ),
        !e.refs.types.contains_key(e.nso.init_array_offset) ==> init_array_text(e) is Err,
{
    law_sections_start_with_their_name(".section \".init_array\",\"aw\""@);
}

/// The variables of the `.bss` section are labelled with all their names, and what is skipped up to each
/// of them is the distance from the one before.
pub proof fn law_bss_variables_keep_their_distance(
    e: ExportView,
    text: Seq<char>,
    start: int,
    size: int,
    last: int,
    next: int,
)
    requires
        0 <= last <= next < size,
        start >= 0,
        start + size <= u64::MAX,
        e.refs.types.contains_key((start + next) as u64),
        forall|k: int| last < k < next ==> !e.refs.types.contains_key(#[trigger] at(start, k)),
        last < next || last == 0,
    ensures
        bss_lines(e, text, start, size, last, if last == next {
            next
        } else {
            last + 1
        }) == bss_lines(
            e,
            lines::global_labels(
                if next == last {
                    text
                } else {
                    text + "\t.skip "@ + fmt::decimal(next - last) + "\n"@
                },
                lookup::all_names(e.nso, e.lookup, (start + next) as u64),
                0,
            ),
            start,
            size,
            next,
            next + 1,
        ),
{
    if last < next {
        lemma_bss_gap(e, text, start, size, last, last + 1, next);
    }
}

/// The address of the byte number `k` behind `start`.
pub open spec fn at(start: int, k: int) -> u64 {
    (start + k) as u64
}

proof fn lemma_bss_gap(
    e: ExportView,
    text: Seq<char>,
    start: int,
    size: int,
    last: int,
    from: int,
    next: int,
)
    requires
        0 <= from <= next <= size,
        forall|k: int| from <= k < next ==> !e.refs.types.contains_key(#[trigger] at(start, k)),
    ensures
        bss_lines(e, text, start, size, last, from) == bss_lines(e, text, start, size, last, next),
    decreases next - from,
{
    if from < next {
        assert(!e.refs.types.contains_key(at(start, from)));
        lemma_bss_gap(e, text, start, size, last, from + 1, next);
    }
}

/// Behind the last variable of the `.bss` section the rest of it is skipped.
pub proof fn law_bss_is_skipped_to_its_end(
    e: ExportView,
    text: Seq<char>,
    start: int,
    size: int,
    last: int,
)
    requires
        0 <= last < size,
        forall|k: int| last < k < size ==> !e.refs.types.contains_key(#[trigger] at(start, k)),
    ensures
        bss_lines(e, text, start, size, last, last + 1) == text + "\t.skip "@ + fmt::decimal(
            size - last,
        ) + "\n"@,
        e.nso.module.bss_start <= e.nso.module.bss_end ==> bss_text(e) == Ok::<Seq<char>, Error>(
            bss_lines(
                e,
                ".section \".bssdisas\",\"aw\",@nobits"@ + seq!['\n', '\n'],
                e.nso.module.header_offset + e.nso.module.bss_start,
                e.nso.module.bss_end - e.nso.module.bss_start,
                0,
                0,
            ),
        ),
{
    lemma_bss_gap(e, text, start, size, last, last + 1, size);
    law_sections_start_with_their_name(".section \".bssdisas\",\"aw\",@nobits"@);
}

/// The data is written from the start of its segment to the `.dynamic` section, and the read-only data
/// from the end of the strings to the unwinding table.
pub proof fn law_data_sections_have_their_bounds(
    e: ExportView,
    floats: FloatView,
    start: u64,
    size: u64,
)
    ensures
        ({
            let header = e.nso.file.header;
            let module = e.nso.module;
            &&& start == header.data_segment.mem_offset && start + size == module.header_offset
                + module.dyn_offset ==> data_text(e, floats) == data::data_section(
                e,
                floats,
                ".section \".data\",\"aw\""@,
                size,
                start,
            )
            &&& start == header.rodata_segment.mem_offset + header.dynstr_offset
                + header.dynstr_size && start + size == module.header_offset
                + module.ex_info_start_offset ==> rodata_text(e, floats) == data::data_section(
                e,
                floats,
                ".section \".rodata\",\"a\""@,
                size,
                start,
            )
        }),
{
}

/// An embedded string is written behind labels for all names of its address.
pub proof fn law_embedded_strings_are_labelled(
    nso: NsoView,
    lookup: LookupView,
    text: Seq<char>,
    i: int,
)
    requires
        0 <= i <= nso.embed.len(),
    ensures
        i == nso.embed.len() ==> embed_lines(nso, lookup, text, i) == text,
        i < nso.embed.len() ==> embed_lines(nso, lookup, text, i) == embed_lines(
            nso,
            lookup,
            lines::global_labels(text, lookup::all_names(nso, lookup, nso.embed[i].0), 0)
                + "\t.string \""@ + lines::escaped(nso.embed[i].1) + "\""@ + "\n"@,
            i + 1,
        ),
        embed_text(nso, lookup) == embed_lines(
            nso,
            lookup,
            ".section \".embed\", \"a\""@ + "\n"@,
            0,
        ),
{
    reveal_strlit("");
    assert(lines::line(""@, ".section \".embed\", \"a\""@) =~= ".section \".embed\", \"a\""@
        + "\n"@);
}

/// A symbol is a label behind its address in a comment, weak if its binding is and global otherwise.
pub proof fn law_symbol_labels_keep_their_binding(
    text: Seq<char>,
    symbols: Seq<DynamicSymbol>,
    strings: Map<u64, Seq<char>>,
    address: u64,
    i: int,
)
    requires
        0 <= i < symbols.len(),
        strings.contains_key(symbols[i].str_table_offset as u64),
    ensures
        ({
            let name = strings[symbols[i].str_table_offset as u64];
            let all = symbol_label_lines(text, symbols, strings, address, i);
            let start = text + "# 0x"@ + fmt::hex(address as nat) + ":"@ + "\n"@;
            let end = name + ":"@ + "\n"@;
            let bind = symbols[i].info / 16;
            &&& bind == 1 ==> all == symbol_label_lines(
                start + ".global "@ + name + "\n"@ + end,
                symbols,
                strings,
                address,
                i + 1,
            )
            &&& bind == 2 ==> all == symbol_label_lines(
                start + ".weak "@ + name + "\n"@ + end,
                symbols,
                strings,
                address,
                i + 1,
            )
            &&& bind == 0 || bind > 2 ==> all is Err
        }),
        symbol_label_lines(text, symbols, strings, address, symbols.len() as int) == Ok::<
            Seq<char>,
            Error,
        >(text),
{
    tables::law_symbol_info_has_two_parts(symbols[i]);
    tables::law_numbers_are_those_of_the_format();
    let name = strings[symbols[i].str_table_offset as u64];
    let start = text + "# 0x"@ + fmt::hex(address as nat) + ":"@ + "\n"@;
    assert(start + ".global "@ + name + "\n"@ + (name + ":"@ + "\n"@) =~= start + ".global "@ + name
        + "\n"@ + name + ":"@ + "\n"@);
    assert(start + ".weak "@ + name + "\n"@ + (name + ":"@ + "\n"@) =~= start + ".weak "@ + name
        + "\n"@ + name + ":"@ + "\n"@);
}

/// Addresses without symbols have one label: local unless it is asked for otherwise.
pub proof fn law_labels_without_symbols_are_local(nso: NsoView, lookup: LookupView, address: u64)
    ensures
        ({
            let name = lookup::fallback_name(nso, address);
            let own = lookup::symbols_of(nso, lookup, address);
            &&& own.len() == 0 ==> symbol_labels(nso, lookup, address, false) == Ok::<
                Seq<char>,
                Error,
            >(".L"@ + name + ":"@ + "\n"@)
            &&& own.len() == 0 ==> symbol_labels(nso, lookup, address, true) == Ok::<
                Seq<char>,
                Error,
            >(".global "@ + name + "\n"@ + name + ":"@ + "\n"@)
            &&& own.len() > 0 ==> forall|non_local: bool| #[trigger]
                symbol_labels(nso, lookup, address, non_local) == symbol_label_lines(
                    Seq::empty(),
                    own,
                    nso.strings,
                    address,
                    0,
                )
        }),
{
    reveal_strlit("");
    let name = lookup::fallback_name(nso, address);
    assert(""@ =~= Seq::<char>::empty());
    assert(""@ + ".L"@ =~= ".L"@);
    assert(""@ + ".global "@ =~= ".global "@);
}

} // verus!
