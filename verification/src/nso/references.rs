//! Collecting what refers to what.

use std::collections::HashSet;

use vstd::prelude::*;

use crate::bytes::{self, offset_address, read_u32, to_i32};
use crate::error::Error;
use crate::hacks::Hacks;
use crate::nso::nso::{NsoView, NSO};
use crate::nso::tables::{
    self, DynamicSymbol, DynamicSymbolBind, DynamicSymbolType, Relocation, RelocationType,
    SYMBOL_SIZE,
};
use crate::nso::text;
use crate::reference_tracker::{
    self, DataRefType, Reference, ReferenceSource, ReferenceTracker, References, Tables,
};
use crate::strings::text_eq;

verus! {

/// The source of all that is known beforehand.
pub const HACK_SOURCE: u64 = 0xDEADBEEF;

/// The address of a symbol table entry.
pub open spec fn entry_address(symbol_offset: u64, index: int) -> Result<u64, Error> {
    if symbol_offset + index * SYMBOL_SIZE > u64::MAX {
        Err(Error::Overflow)
    } else {
        Ok((symbol_offset + index * SYMBOL_SIZE) as u64)
    }
}

/// The reference that a relocation with a symbol stands for.
pub open spec fn symbol_relocation(symbol_offset: u64, relocation: Relocation) -> Result<
    Reference,
    Error,
> {
    match entry_address(symbol_offset, relocation.sym_idx as int) {
        Err(e) => Err(e),
        Ok(target) => Ok(
            Reference {
                source: relocation.offset,
                source_type: ReferenceSource::Relocation,
                target,
                target_type: DataRefType::SymbolAbsolute(relocation.addend),
            },
        ),
    }
}

/// The reference that a relocation of `.rela.dyn` stands for.
pub open spec fn dyn_relocation(symbol_offset: u64, relocation: Relocation) -> Result<
    Reference,
    Error,
> {
    match relocation.reloc_type {
        RelocationType::R_AARCH64_GLOB_DAT | RelocationType::R_AARCH64_ABS64 => symbol_relocation(
            symbol_offset,
            relocation,
        ),
        RelocationType::R_AARCH64_RELATIVE => if relocation.addend < 0 {
            Err(Error::NegativeAddend)
        } else {
            Ok(
                Reference {
                    source: relocation.offset,
                    source_type: ReferenceSource::Relocation,
                    target: relocation.addend as u64,
                    target_type: DataRefType::Unknown,
                },
            )
        },
        _ => Err(Error::UnsupportedRelocation),
    }
}

/// The reference that a relocation of `.rela.plt` stands for.
pub open spec fn plt_relocation(symbol_offset: u64, relocation: Relocation) -> Result<
    Reference,
    Error,
> {
    if relocation.reloc_type != RelocationType::R_AARCH64_JUMP_SLOT {
        Err(Error::UnsupportedRelocation)
    } else {
        symbol_relocation(symbol_offset, relocation)
    }
}

/// `refs` with those of the relocations of `.rela.dyn` from `from` on.
pub open spec fn dyn_references(
    symbol_offset: u64,
    relocations: Seq<Relocation>,
    from: int,
    refs: Seq<Reference>,
) -> (Seq<Reference>, Result<(), Error>)
    decreases relocations.len() - from,
{
    if from < 0 || from >= relocations.len() {
        (refs, Ok(()))
    } else {
        match dyn_relocation(symbol_offset, relocations[from]) {
            Err(e) => (refs, Err(e)),
            Ok(r) => dyn_references(symbol_offset, relocations, from + 1, refs.push(r)),
        }
    }
}

/// `refs` with those of the relocations of `.rela.plt` from `from` on.
pub open spec fn plt_references(
    symbol_offset: u64,
    relocations: Seq<Relocation>,
    from: int,
    refs: Seq<Reference>,
) -> (Seq<Reference>, Result<(), Error>)
    decreases relocations.len() - from,
{
    if from < 0 || from >= relocations.len() {
        (refs, Ok(()))
    } else {
        match plt_relocation(symbol_offset, relocations[from]) {
            Err(e) => (refs, Err(e)),
            Ok(r) => plt_references(symbol_offset, relocations, from + 1, refs.push(r)),
        }
    }
}

/// `refs` with those of all relocations.
pub open spec fn relocation_references(nso: NsoView, refs: Seq<Reference>) -> (
    Seq<Reference>,
    Result<(), Error>,
) {
    let (with_dyn, r) = dyn_references(nso.symbol_offset, nso.reloc_dyn, 0, refs);
    match r {
        Err(e) => (with_dyn, Err(e)),
        Ok(()) => plt_references(nso.symbol_offset, nso.reloc_plt, 0, with_dyn),
    }
}

/// The reference that the entry of a symbol stands for, if it is one.
pub open spec fn symbol_reference(
    symbol_offset: u64,
    strings: Map<u64, Seq<char>>,
    symbol: DynamicSymbol,
    index: int,
) -> Result<Option<Reference>, Error> {
    if symbol.value == 0 {
        Ok(None)
    } else {
        match (entry_address(symbol_offset, index), symbol.kind(), symbol.bind()) {
            (Err(e), _, _) => Err(e),
            (Ok(_), Err(e), _) => Err(e),
            (Ok(_), Ok(_), Err(e)) => Err(e),
            (Ok(source), Ok(kind), Ok(bind)) => {
                let source_type = ReferenceSource::Symbol(bind == DynamicSymbolBind::STB_WEAK);
                match kind {
                    DynamicSymbolType::STT_OBJECT => Ok(
                        Some(
                            Reference {
                                source,
                                source_type,
                                target: symbol.value,
                                target_type: DataRefType::Object(symbol.size),
                            },
                        ),
                    ),
                    DynamicSymbolType::STT_FUNC => Ok(
                        Some(
                            Reference {
                                source,
                                source_type,
                                target: symbol.value,
                                target_type: DataRefType::Function(symbol.size),
                            },
                        ),
                    ),
                    DynamicSymbolType::STT_NOTYPE => if symbol.name(strings) == Ok::<
                        Seq<char>,
                        Error,
                    >("end"@) {
                        Ok(None)
                    } else {
                        Err(Error::UnsupportedSymbol)
                    },
                    _ => Err(Error::UnsupportedSymbol),
                }
            },
        }
    }
}

/// `refs` with those of the symbols from `from` on.
pub open spec fn symbol_references(
    symbol_offset: u64,
    strings: Map<u64, Seq<char>>,
    symbols: Seq<DynamicSymbol>,
    from: int,
    refs: Seq<Reference>,
) -> (Seq<Reference>, Result<(), Error>)
    decreases symbols.len() - from,
{
    if from < 0 || from >= symbols.len() {
        (refs, Ok(()))
    } else {
        match symbol_reference(symbol_offset, strings, symbols[from], from) {
            Err(e) => (refs, Err(e)),
            Ok(None) => symbol_references(symbol_offset, strings, symbols, from + 1, refs),
            Ok(Some(r)) => symbol_references(
                symbol_offset,
                strings,
                symbols,
                from + 1,
                refs.push(r),
            ),
        }
    }
}

/// `refs` with those of the init array from `from` on.
pub open spec fn init_array_references(
    offset: u64,
    array: Seq<u64>,
    from: int,
    refs: Seq<Reference>,
) -> (Seq<Reference>, Result<(), Error>)
    decreases array.len() - from,
{
    if from < 0 || from >= array.len() {
        (refs, Ok(()))
    } else if offset + from * 8 > u64::MAX {
        (refs, Err(Error::Overflow))
    } else {
        init_array_references(
            offset,
            array,
            from + 1,
            refs.push(
                Reference {
                    source: (offset + from * 8) as u64,
                    source_type: ReferenceSource::InitArray,
                    target: array[from],
                    target_type: DataRefType::Code,
                },
            ),
        )
    }
}

/// Where the entry of a jump table points to: an entry holds the distance from the table.
pub open spec fn jump_target(memory: Seq<u8>, table: u64, index: int) -> Result<u64, Error> {
    match bytes::le_read(memory, table + index * 4, 4) {
        Err(e) => Err(e),
        Ok(value) => Ok(bytes::wrap64(table + bytes::signed(value, 0x8000_0000))),
    }
}

/// `refs` with those of the entries of a jump table from `from` on.
pub open spec fn jump_entries(
    memory: Seq<u8>,
    table: u64,
    size: int,
    from: int,
    refs: Seq<Reference>,
) -> (Seq<Reference>, Result<(), Error>)
    decreases size - from,
{
    if from >= size {
        (refs, Ok(()))
    } else {
        match jump_target(memory, table, from) {
            Err(e) => (refs, Err(e)),
            Ok(target) => jump_entries(
                memory,
                table,
                size,
                from + 1,
                refs.push(
                    Reference {
                        source: (table + from * 4) as u64,
                        source_type: ReferenceSource::JumpTable,
                        target,
                        target_type: DataRefType::Code,
                    },
                ),
            ),
        }
    }
}

/// `refs` with those of one jump table.
pub open spec fn jump_table(memory: Seq<u8>, table: u64, size: int, refs: Seq<Reference>) -> (
    Seq<Reference>,
    Result<(), Error>,
) {
    if table > memory.len() {
        (refs, Err(Error::OutOfBounds))
    } else {
        jump_entries(memory, table, size, 0, refs)
    }
}

/// `refs` with those of the given jump tables from `from` on, and with the tables themselves.
pub open spec fn known_tables(
    memory: Seq<u8>,
    tables: Seq<(u64, usize)>,
    from: int,
    refs: Seq<Reference>,
) -> (Seq<Reference>, Result<(), Error>)
    decreases tables.len() - from,
{
    if from < 0 || from >= tables.len() {
        (refs, Ok(()))
    } else {
        let (table, size) = tables[from];
        let (with_entries, r) = jump_table(memory, table, size as int, refs);
        match r {
            Err(e) => (with_entries, Err(e)),
            Ok(()) => known_tables(
                memory,
                tables,
                from + 1,
                with_entries.push(
                    Reference {
                        source: HACK_SOURCE,
                        source_type: ReferenceSource::Hack,
                        target: table,
                        target_type: DataRefType::JumpTable(size as u64),
                    },
                ),
            ),
        }
    }
}

/// A reference to a jump table.
pub open spec fn is_table() -> spec_fn(Reference) -> bool {
    |r: Reference| r.target_type is JumpTable
}

/// `refs` with those of the jump tables that the references `tables` from `from` on point to.
pub open spec fn referenced_tables(
    memory: Seq<u8>,
    tables: Seq<Reference>,
    from: int,
    refs: Seq<Reference>,
) -> (Seq<Reference>, Result<(), Error>)
    decreases tables.len() - from,
{
    if from < 0 || from >= tables.len() {
        (refs, Ok(()))
    } else {
        let (with_entries, r) = jump_table(
            memory,
            tables[from].target,
            tables[from].target_type.payload(),
            refs,
        );
        match r {
            Err(e) => (with_entries, Err(e)),
            Ok(()) => referenced_tables(memory, tables, from + 1, with_entries),
        }
    }
}

/// The addresses of the functions that have a symbol.
pub open spec fn function_starts(symbols: Seq<DynamicSymbol>) -> Set<u64> {
    Set::new(|a: u64| a != 0 && exists|i: int| #[trigger] is_function(symbols, i, a))
}

/// The `i`-th symbol is for the function at `address`.
pub open spec fn is_function(symbols: Seq<DynamicSymbol>, i: int, address: u64) -> bool {
    0 <= i < symbols.len() && symbols[i].value == address && symbols[i].kind() == Ok::<
        DynamicSymbolType,
        Error,
    >(DynamicSymbolType::STT_FUNC)
}

/// All references of a binary, in the order in which they are found.
pub open spec fn found_references(nso: NsoView, tables: Seq<(u64, usize)>) -> Result<
    Seq<Reference>,
    Error,
> {
    let (relocations, a) = relocation_references(nso, Seq::empty());
    let (symbols, b) = symbol_references(
        nso.symbol_offset,
        nso.strings,
        nso.symbols,
        0,
        relocations,
    );
    let (arrays, c) = init_array_references(nso.init_array_offset, nso.init_array, 0, symbols);
    let (code, d) = text::code_references(nso.text, function_starts(nso.symbols), arrays);
    let (all, e) = known_tables(nso.file.memory, tables, 0, code);
    if a is Err {
        Err(a->Err_0)
    } else if b is Err {
        Err(b->Err_0)
    } else if c is Err {
        Err(c->Err_0)
    } else if d is Err {
        Err(d->Err_0)
    } else if e is Err {
        Err(e->Err_0)
    } else {
        Ok(all)
    }
}

/// What refers to what in a binary with the given jump tables.
pub open spec fn references_of(nso: NsoView, tables: Seq<(u64, usize)>) -> Result<Tables, Error> {
    match found_references(nso, tables) {
        Err(e) => Err(e),
        Ok(refs) => reference_tracker::settled(refs),
    }
}

/// Nothing goes wrong before the code is disassembled.
pub open spec fn reaches_code(nso: NsoView) -> bool {
    let (relocations, a) = relocation_references(nso, Seq::empty());
    let (symbols, b) = symbol_references(
        nso.symbol_offset,
        nso.strings,
        nso.symbols,
        0,
        relocations,
    );
    let (_, c) = init_array_references(nso.init_array_offset, nso.init_array, 0, symbols);
    a is Ok && b is Ok && c is Ok && text::fits(nso.text)
}

/// What came out of collecting the references of a binary with the given jump tables. Once the code
/// is reached, the disassembler may fail.
pub open spec fn are_references(
    nso: NsoView,
    tables: Seq<(u64, usize)>,
    r: Result<References, Error>,
) -> bool {
    match r {
        Ok(references) => references_of(nso, tables) == Ok::<Tables, Error>(references@),
        Err(e) => (e == Error::Disassembler && reaches_code(nso)) || references_of(nso, tables)
            == Err::<Tables, Error>(e),
    }
}

fn make_entry_address(symbol_offset: u64, index: u64) -> (r: Result<u64, Error>)
    ensures
        r == entry_address(symbol_offset, index as int),
{
    let size: u64 = SYMBOL_SIZE as u64;
    if index > (u64::MAX - symbol_offset) / size {
        return Err(Error::Overflow);
    }
    Ok(symbol_offset + index * size)
}

fn make_symbol_relocation(symbol_offset: u64, relocation: &Relocation) -> (r: Result<
    Reference,
    Error,
>)
    ensures
        r == symbol_relocation(symbol_offset, *relocation),
{
    let target: u64 = make_entry_address(symbol_offset, relocation.sym_idx as u64)?;
    Ok(
        Reference {
            source: relocation.offset,
            source_type: ReferenceSource::Relocation,
            target,
            target_type: DataRefType::SymbolAbsolute(relocation.addend),
        },
    )
}

/// Reads the reference that a relocation of `.rela.dyn` stands for.
pub fn read_dyn_relocation(symbol_offset: u64, relocation: &Relocation) -> (r: Result<
    Reference,
    Error,
>)
    ensures
        r == dyn_relocation(symbol_offset, *relocation),
{
    match relocation.reloc_type {
        RelocationType::R_AARCH64_GLOB_DAT
        | RelocationType::R_AARCH64_ABS64 => make_symbol_relocation(symbol_offset, relocation),
        RelocationType::R_AARCH64_RELATIVE => {
            if relocation.addend < 0 {
                return Err(Error::NegativeAddend);
            }
            Ok(
                Reference {
                    source: relocation.offset,
                    source_type: ReferenceSource::Relocation,
                    target: relocation.addend as u64,
                    target_type: DataRefType::Unknown,
                },
            )
        },
        _ => Err(Error::UnsupportedRelocation),
    }
}

/// Reads the reference that a relocation of `.rela.plt` stands for.
pub fn read_plt_relocation(symbol_offset: u64, relocation: &Relocation) -> (r: Result<
    Reference,
    Error,
>)
    ensures
        r == plt_relocation(symbol_offset, *relocation),
{
    if relocation.reloc_type != RelocationType::R_AARCH64_JUMP_SLOT {
        return Err(Error::UnsupportedRelocation);
    }
    make_symbol_relocation(symbol_offset, relocation)
}

fn put(tracker: &mut ReferenceTracker, reference: Reference)
    ensures
        final(tracker)@ == old(tracker)@.push(reference),
{
    tracker.add_reference(
        reference.target,
        reference.source_type,
        reference.source,
        reference.target_type,
    );
}

/// Collects the entries of a jump table.
pub fn add_jump_table(memory: &[u8], table: u64, size: u64, tracker: &mut ReferenceTracker) -> (r:
    Result<(), Error>)
    ensures
        jump_table(memory@, table, size as int, old(tracker)@) == (final(tracker)@, r),
{
    let length: usize = memory.len();
    if table > length as u64 {
        return Err(Error::OutOfBounds);
    }
    let ghost before = tracker@;
    let start: usize = table as usize;
    let mut i: u64 = 0;
    while i < size
        invariant
            before == old(tracker)@,
            i <= size,
            start == table,
            start <= length,
            length == memory@.len(),
            start + i * 4 <= length,
            jump_table(memory@, table, size as int, before) == jump_entries(
                memory@,
                table,
                size as int,
                i as int,
                tracker@,
            ),
        decreases size - i,
    {
        let pos: usize = start + (i as usize) * 4;
        let value: u32 = match read_u32(memory, pos) {
            Ok(value) => value,
            Err(e) => {
                assert(jump_target(memory@, table, i as int) == Err::<u64, Error>(e));
                return Err(e);
            },
        };
        let target: u64 = offset_address(table, to_i32(value) as i64);
        assert(jump_target(memory@, table, i as int) == Ok::<u64, Error>(target));
        tracker.add_reference(
            target,
            ReferenceSource::JumpTable,
            pos as u64,
            DataRefType::Code,
        );
        i = i + 1;
    }
    Ok(())
}

impl NSO {
    /// Collects the references that the relocations stand for.
    pub fn ref_types_relocations(&self, tracker: &mut ReferenceTracker) -> (r: Result<(), Error>)
        ensures
            relocation_references(self@, old(tracker)@) == (final(tracker)@, r),
    {
        let ghost before = tracker@;
        let ghost offset = self@.symbol_offset;
        let ghost relocations = self@.reloc_dyn;
        let mut i: usize = 0;
        while i < self.reloc_dyn_table.len()
            invariant
                before == old(tracker)@,
                i <= self.reloc_dyn_table@.len(),
                offset == self@.symbol_offset,
                relocations == self@.reloc_dyn,
                dyn_references(offset, relocations, 0, before) == dyn_references(
                    offset,
                    relocations,
                    i as int,
                    tracker@,
                ),
            decreases self.reloc_dyn_table@.len() - i,
        {
            let reference = read_dyn_relocation(self.symbol_table.0, &self.reloc_dyn_table[i])?;
            put(tracker, reference);
            i = i + 1;
        }
        let ghost with_dyn = tracker@;
        assert(dyn_references(offset, relocations, 0, before) == (with_dyn, Ok::<(), Error>(())));
        let ghost plt = self@.reloc_plt;
        let mut k: usize = 0;
        while k < self.reloc_plt_table.len()
            invariant
                before == old(tracker)@,
                k <= self.reloc_plt_table@.len(),
                offset == self@.symbol_offset,
                plt == self@.reloc_plt,
                relocation_references(self@, before) == plt_references(offset, plt, 0, with_dyn),
                plt_references(offset, plt, 0, with_dyn) == plt_references(
                    offset,
                    plt,
                    k as int,
                    tracker@,
                ),
            decreases self.reloc_plt_table@.len() - k,
        {
            let reference = read_plt_relocation(self.symbol_table.0, &self.reloc_plt_table[k])?;
            put(tracker, reference);
            k = k + 1;
        }
        Ok(())
    }

    fn read_symbol_reference(&self, index: usize) -> (r: Result<Option<Reference>, Error>)
        requires
            index < self@.symbols.len(),
        ensures
            r == symbol_reference(
                self@.symbol_offset,
                self@.strings,
                self@.symbols[index as int],
                index as int,
            ),
    {
        let symbol: &DynamicSymbol = &self.symbol_table.1[index];
        if symbol.value == 0 {
            return Ok(None);
        }
        let source: u64 = make_entry_address(self.symbol_table.0, index as u64)?;
        let kind = symbol.get_type()?;
        let bind = symbol.get_bind()?;
        let source_type = ReferenceSource::Symbol(bind == DynamicSymbolBind::STB_WEAK);
        let target: u64 = symbol.value;
        match kind {
            DynamicSymbolType::STT_OBJECT => Ok(
                Some(
                    Reference {
                        source,
                        source_type,
                        target,
                        target_type: DataRefType::Object(symbol.size),
                    },
                ),
            ),
            DynamicSymbolType::STT_FUNC => Ok(
                Some(
                    Reference {
                        source,
                        source_type,
                        target,
                        target_type: DataRefType::Function(symbol.size),
                    },
                ),
            ),
            DynamicSymbolType::STT_NOTYPE => {
                if let Ok(name) = symbol.get_name(&self.dynstr_table) {
                    if text_eq(name.as_str(), "end") {
                        return Ok(None);
                    }
                }
                Err(Error::UnsupportedSymbol)
            },
            _ => Err(Error::UnsupportedSymbol),
        }
    }

    /// Collects the references that the symbols stand for.
    pub fn ref_types_symbols(&self, tracker: &mut ReferenceTracker) -> (r: Result<(), Error>)
        ensures
            symbol_references(
                self@.symbol_offset,
                self@.strings,
                self@.symbols,
                0,
                old(tracker)@,
            ) == (final(tracker)@, r),
    {
        let ghost before = tracker@;
        let ghost offset = self@.symbol_offset;
        let ghost strings = self@.strings;
        let ghost symbols = self@.symbols;
        let mut i: usize = 0;
        while i < self.symbol_table.1.len()
            invariant
                before == old(tracker)@,
                i <= self.symbol_table.1@.len(),
                offset == self@.symbol_offset,
                strings == self@.strings,
                symbols == self@.symbols,
                symbol_references(offset, strings, symbols, 0, before) == symbol_references(
                    offset,
                    strings,
                    symbols,
                    i as int,
                    tracker@,
                ),
            decreases self.symbol_table.1@.len() - i,
        {
            if let Some(reference) = self.read_symbol_reference(i)? {
                put(tracker, reference);
            }
            i = i + 1;
        }
        Ok(())
    }

    /// Collects the references of the init array.
    pub fn ref_types_init_array(&self, tracker: &mut ReferenceTracker) -> (r: Result<(), Error>)
        ensures
            init_array_references(
                self@.init_array_offset,
                self@.init_array,
                0,
                old(tracker)@,
            ) == (final(tracker)@, r),
    {
        let ghost before = tracker@;
        let ghost array = self@.init_array;
        let offset: u64 = self.init_array.0;
        let mut i: usize = 0;
        while i < self.init_array.1.len()
            invariant
                before == old(tracker)@,
                i <= self.init_array.1@.len(),
                offset == self@.init_array_offset,
                array == self@.init_array,
                init_array_references(offset, array, 0, before) == init_array_references(
                    offset,
                    array,
                    i as int,
                    tracker@,
                ),
            decreases self.init_array.1@.len() - i,
        {
            if i as u64 > (u64::MAX - offset) / 8 {
                return Err(Error::Overflow);
            }
            tracker.add_reference(
                self.init_array.1[i],
                ReferenceSource::InitArray,
                offset + i as u64 * 8,
                DataRefType::Code,
            );
            i = i + 1;
        }
        Ok(())
    }

    /// Collects the entries of all jump tables that a reference is known to.
    pub fn collect_jumptable_references(&self, tracker: &mut ReferenceTracker) -> (r: Result<
        (),
        Error,
    >)
        ensures
            referenced_tables(
                self@.file.memory,
                old(tracker)@.filter(is_table()),
                0,
                old(tracker)@,
            ) == (final(tracker)@, r),
    {
        let ghost before = tracker@;
        let ghost found = before.filter(is_table());
        let mut tables: Vec<(u64, u64)> = Vec::new();
        {
            let references = tracker.get_jumptable_references();
            let ghost listed = references@.map_values(|r: &Reference| *r);
            assert(is_table() =~= (|r: Reference| r.target_type is JumpTable));
            assert(listed == found);
            let mut i: usize = 0;
            while i < references.len()
                invariant
                    before == old(tracker)@,
                    i <= references@.len(),
                    references@.len() == found.len(),
                    found == before.filter(is_table()),
                    forall|k: int|
                        0 <= k < references@.len() ==> *(#[trigger] references@[k]) == found[k],
                    tables@.len() == i,
                    forall|k: int|
                        0 <= k < i ==> (#[trigger] tables@[k]).0 == found[k].target && tables@[k].1
                            == found[k].target_type.payload(),
                decreases references@.len() - i,
            {
                proof {
                    before.lemma_filter_pred(is_table(), i as int);
                }
                let reference: &Reference = references[i];
                let size: u64 = match reference.target_type {
                    DataRefType::JumpTable(size) => size,
                    _ => 0,
                };
                tables.push((reference.target, size));
                i = i + 1;
            }
        }
        let mut i: usize = 0;
        while i < tables.len()
            invariant
                before == old(tracker)@,
                i <= tables@.len(),
                found == before.filter(is_table()),
                tables@.len() == found.len(),
                forall|k: int|
                    0 <= k < found.len() ==> (#[trigger] tables@[k]).0 == found[k].target
                        && tables@[k].1 == found[k].target_type.payload(),
                referenced_tables(self@.file.memory, found, 0, before) == referenced_tables(
                    self@.file.memory,
                    found,
                    i as int,
                    tracker@,
                ),
            decreases tables@.len() - i,
        {
            add_jump_table(
                self.file.memory.as_slice(),
                tables[i].0,
                tables[i].1,
                tracker,
            )?;
            i = i + 1;
        }
        Ok(())
    }

    fn add_known_tables(&self, tables: &Vec<(u64, usize)>, tracker: &mut ReferenceTracker) -> (r:
        Result<(), Error>)
        ensures
            known_tables(self@.file.memory, tables@, 0, old(tracker)@) == (final(tracker)@, r),
    {
        let ghost before = tracker@;
        let mut i: usize = 0;
        while i < tables.len()
            invariant
                before == old(tracker)@,
                i <= tables@.len(),
                known_tables(self@.file.memory, tables@, 0, before) == known_tables(
                    self@.file.memory,
                    tables@,
                    i as int,
                    tracker@,
                ),
            decreases tables@.len() - i,
        {
            let table: u64 = tables[i].0;
            let size: u64 = tables[i].1 as u64;
            add_jump_table(self.file.memory.as_slice(), table, size, tracker)?;
            tracker.add_reference(
                table,
                ReferenceSource::Hack,
                HACK_SOURCE,
                DataRefType::JumpTable(size),
            );
            i = i + 1;
        }
        Ok(())
    }

    fn get_function_starts(&self) -> (r: HashSet<u64>)
        ensures
            r@ == function_starts(self@.symbols),
    {
        let ghost symbols = self@.symbols;
        let mut starts: HashSet<u64> = HashSet::new();
        let mut i: usize = 0;
        while i < self.symbol_table.1.len()
            invariant
                i <= self.symbol_table.1@.len(),
                symbols == self@.symbols,
                forall|a: u64| #[trigger]
                    starts@.contains(a) <==> a != 0 && exists|k: int|
                        k < i && #[trigger] is_function(symbols, k, a),
            decreases self.symbol_table.1@.len() - i,
        {
            let symbol: &DynamicSymbol = &self.symbol_table.1[i];
            let ghost before = starts@;
            let is_func = match symbol.get_type() {
                Ok(kind) => kind == DynamicSymbolType::STT_FUNC,
                Err(_) => false,
            };
            if is_func && symbol.value != 0 {
                starts.insert(symbol.value);
                assert(is_function(symbols, i as int, symbol.value));
            }
            assert forall|a: u64| #[trigger] starts@.contains(a) <==> a != 0 && exists|k: int|
                k < i + 1 && #[trigger] is_function(symbols, k, a) by {
                if a != 0 && exists|k: int| k < i + 1 && #[trigger] is_function(symbols, k, a) {
                    let k = choose|k: int| k < i + 1 && #[trigger] is_function(symbols, k, a);
                    if k < i {
                        assert(before.contains(a));
                    }
                }
                if before.contains(a) {
                    let k = choose|k: int| k < i && #[trigger] is_function(symbols, k, a);
                    assert(k < i + 1 && is_function(symbols, k, a));
                }
            }
            i = i + 1;
        }
        assert(starts@ =~= function_starts(symbols)) by {
            assert forall|a: u64| starts@.contains(a) <==> function_starts(symbols).contains(a) by {
                if function_starts(symbols).contains(a) {
                    let k = choose|k: int| #[trigger] is_function(symbols, k, a);
                    assert(k < i && is_function(symbols, k, a));
                }
            }
        }
        starts
    }

    /// Finds out what refers to what. The jump tables have to be known.
    pub fn get_references_with(&self, jump_tables: &Vec<(u64, usize)>) -> (r: Result<
        References,
        Error,
    >)
        ensures
            are_references(self@, jump_tables@, r),
    {
        let function_symbols = self.get_function_starts();
        let mut tracker = ReferenceTracker::new();
        self.ref_types_relocations(&mut tracker)?;
        self.ref_types_symbols(&mut tracker)?;
        self.ref_types_init_array(&mut tracker)?;
        self.text.collect_references(&function_symbols, &mut tracker)?;
        self.add_known_tables(jump_tables, &mut tracker)?;
        tracker.finalize()
    }

    /// Finds out what refers to what, with the jump tables that `hacks` knows.
    pub fn get_references<H: Hacks + ?Sized>(&self, hacks: &H) -> (r: Result<References, Error>)
        ensures
            are_references(self@, hacks.jump_tables(), r),
    {
        let jump_tables = hacks.get_jump_tables();
        self.get_references_with(&jump_tables)
    }
}

proof fn lemma_dyn_references(
    symbol_offset: u64,
    relocations: Seq<Relocation>,
    from: int,
    refs: Seq<Reference>,
)
    requires
        0 <= from <= relocations.len(),
    ensures
        ({
            let (after, r) = dyn_references(symbol_offset, relocations, from, refs);
            &&& reference_tracker::continues(after, refs)
            &&& r is Ok ==> forall|i: int|
                from <= i < relocations.len() ==> after.len() > refs.len() + i - from
                    && dyn_relocation(symbol_offset, #[trigger] relocations[i]) == Ok::<
                    Reference,
                    Error,
                >(after[refs.len() + i - from])
        }),
    decreases relocations.len() - from,
{
    if from < relocations.len() {
        if let Ok(r) = dyn_relocation(symbol_offset, relocations[from]) {
            lemma_dyn_references(symbol_offset, relocations, from + 1, refs.push(r));
            let (after, outcome) = dyn_references(
                symbol_offset,
                relocations,
                from + 1,
                refs.push(r),
            );
            assert(after[refs.len() as int] == refs.push(r)[refs.len() as int]);
        }
    }
}

proof fn lemma_plt_references(
    symbol_offset: u64,
    relocations: Seq<Relocation>,
    from: int,
    refs: Seq<Reference>,
)
    requires
        0 <= from <= relocations.len(),
    ensures
        ({
            let (after, r) = plt_references(symbol_offset, relocations, from, refs);
            &&& reference_tracker::continues(after, refs)
            &&& r is Ok ==> forall|i: int|
                from <= i < relocations.len() ==> after.len() > refs.len() + i - from
                    && plt_relocation(symbol_offset, #[trigger] relocations[i]) == Ok::<
                    Reference,
                    Error,
                >(after[refs.len() + i - from])
        }),
    decreases relocations.len() - from,
{
    if from < relocations.len() {
        if let Ok(r) = plt_relocation(symbol_offset, relocations[from]) {
            lemma_plt_references(symbol_offset, relocations, from + 1, refs.push(r));
            let (after, outcome) = plt_references(
                symbol_offset,
                relocations,
                from + 1,
                refs.push(r),
            );
            assert(after[refs.len() as int] == refs.push(r)[refs.len() as int]);
        }
    }
}

/// `refs` holds `r`.
pub open spec fn holds(refs: Seq<Reference>, r: Reference) -> bool {
    exists|i: int| 0 <= i < refs.len() && #[trigger] refs[i] == r
}

proof fn lemma_symbol_references(
    symbol_offset: u64,
    strings: Map<u64, Seq<char>>,
    symbols: Seq<DynamicSymbol>,
    from: int,
    refs: Seq<Reference>,
)
    requires
        0 <= from <= symbols.len(),
    ensures
        ({
            let (after, r) = symbol_references(symbol_offset, strings, symbols, from, refs);
            &&& reference_tracker::continues(after, refs)
            &&& r is Ok ==> forall|i: int|
                from <= i < symbols.len() ==> match symbol_reference(
                    symbol_offset,
                    strings,
                    #[trigger] symbols[i],
                    i,
                ) {
                    Ok(Some(found)) => holds(after, found),
                    Ok(None) => true,
                    Err(_) => false,
                }
        }),
    decreases symbols.len() - from,
{
    if from < symbols.len() {
        match symbol_reference(symbol_offset, strings, symbols[from], from) {
            Err(_) => {},
            Ok(None) => {
                lemma_symbol_references(symbol_offset, strings, symbols, from + 1, refs);
            },
            Ok(Some(r)) => {
                lemma_symbol_references(symbol_offset, strings, symbols, from + 1, refs.push(r));
                let (after, outcome) = symbol_references(
                    symbol_offset,
                    strings,
                    symbols,
                    from + 1,
                    refs.push(r),
                );
                assert(after[refs.len() as int] == refs.push(r)[refs.len() as int]);
                assert(holds(after, r));
            },
        }
    }
}

/// The reference that an entry of the init array stands for.
pub open spec fn init_array_reference(offset: u64, array: Seq<u64>, i: int) -> Reference {
    Reference {
        source: (offset + i * 8) as u64,
        source_type: ReferenceSource::InitArray,
        target: array[i],
        target_type: DataRefType::Code,
    }
}

proof fn lemma_init_array_references(
    offset: u64,
    array: Seq<u64>,
    from: int,
    refs: Seq<Reference>,
)
    requires
        0 <= from <= array.len(),
    ensures
        ({
            let (after, r) = init_array_references(offset, array, from, refs);
            &&& reference_tracker::continues(after, refs)
            &&& r is Ok ==> forall|i: int|
                from <= i < array.len() ==> holds(
                    after,
                    #[trigger] init_array_reference(offset, array, i),
                )
        }),
    decreases array.len() - from,
{
    if from < array.len() && offset + from * 8 <= u64::MAX {
        let r = init_array_reference(offset, array, from);
        lemma_init_array_references(offset, array, from + 1, refs.push(r));
        let (after, outcome) = init_array_references(offset, array, from + 1, refs.push(r));
        assert(after[refs.len() as int] == refs.push(r)[refs.len() as int]);
        assert(holds(after, r));
    }
}

/// The reference that an entry of a jump table stands for.
pub open spec fn jump_reference(memory: Seq<u8>, table: u64, i: int) -> Reference {
    Reference {
        source: (table + i * 4) as u64,
        source_type: ReferenceSource::JumpTable,
        target: jump_target(memory, table, i)->Ok_0,
        target_type: DataRefType::Code,
    }
}

proof fn lemma_jump_entries(
    memory: Seq<u8>,
    table: u64,
    size: int,
    from: int,
    refs: Seq<Reference>,
)
    requires
        0 <= from,
    ensures
        ({
            let (after, r) = jump_entries(memory, table, size, from, refs);
            &&& reference_tracker::continues(after, refs)
            &&& r is Ok ==> forall|i: int|
                from <= i < size ==> jump_target(memory, table, i) is Ok && holds(
                    after,
                    #[trigger] jump_reference(memory, table, i),
                )
        }),
    decreases size - from,
{
    if from < size {
        if let Ok(target) = jump_target(memory, table, from) {
            let r = jump_reference(memory, table, from);
            lemma_jump_entries(memory, table, size, from + 1, refs.push(r));
            let (after, outcome) = jump_entries(memory, table, size, from + 1, refs.push(r));
            assert(after[refs.len() as int] == refs.push(r)[refs.len() as int]);
            assert(holds(after, r));
        }
    }
}

proof fn lemma_known_tables(
    memory: Seq<u8>,
    tables: Seq<(u64, usize)>,
    from: int,
    refs: Seq<Reference>,
)
    requires
        0 <= from <= tables.len(),
    ensures
        ({
            let (after, r) = known_tables(memory, tables, from, refs);
            &&& reference_tracker::continues(after, refs)
            &&& r is Ok ==> forall|k: int, i: int|
                #![trigger jump_reference(memory, tables[k].0, i)]
                from <= k < tables.len() && 0 <= i < tables[k].1 ==> jump_target(
                    memory,
                    tables[k].0,
                    i,
                ) is Ok && holds(after, jump_reference(memory, tables[k].0, i))
        }),
    decreases tables.len() - from,
{
    if from < tables.len() {
        let (table, size) = tables[from];
        lemma_jump_entries(memory, table, size as int, 0, refs);
        let (with_entries, r) = jump_table(memory, table, size as int, refs);
        if r is Ok {
            let next = with_entries.push(
                Reference {
                    source: HACK_SOURCE,
                    source_type: ReferenceSource::Hack,
                    target: table,
                    target_type: DataRefType::JumpTable(size as u64),
                },
            );
            lemma_known_tables(memory, tables, from + 1, next);
            let (after, outcome) = known_tables(memory, tables, from + 1, next);
            assert forall|k: int, i: int|
                #![trigger jump_reference(memory, tables[k].0, i)]
                from <= k < tables.len() && 0 <= i < tables[k].1
                    && outcome is Ok implies jump_target(memory, tables[k].0, i) is Ok && holds(
                after,
                jump_reference(memory, tables[k].0, i),
            ) by {
                if k == from {
                    let x = jump_reference(memory, table, i);
                    assert(holds(with_entries, x));
                    let n = choose|n: int|
                        0 <= n < with_entries.len() && #[trigger] with_entries[n] == x;
                    assert(next[n] == x);
                    assert(after[n] == x);
                }
            }
        }
    }
}

proof fn lemma_holds_more(after: Seq<Reference>, refs: Seq<Reference>, r: Reference)
    requires
        reference_tracker::continues(after, refs),
        holds(refs, r),
    ensures
        holds(after, r),
{
    let n = choose|n: int| 0 <= n < refs.len() && #[trigger] refs[n] == r;
    assert(after[n] == r);
}

proof fn lemma_found(nso: NsoView, tables: Seq<(u64, usize)>, all: Seq<Reference>)
    requires
        found_references(nso, tables) == Ok::<Seq<Reference>, Error>(all),
    ensures
        ({
            let relocations = relocation_references(nso, Seq::empty());
            let symbols = symbol_references(
                nso.symbol_offset,
                nso.strings,
                nso.symbols,
                0,
                relocations.0,
            );
            let arrays = init_array_references(
                nso.init_array_offset,
                nso.init_array,
                0,
                symbols.0,
            );
            let code = text::code_references(
                nso.text,
                function_starts(nso.symbols),
                arrays.0,
            );
            &&& reference_tracker::continues(all, relocations.0)
            &&& reference_tracker::continues(all, symbols.0)
            &&& reference_tracker::continues(all, arrays.0)
            &&& relocations.1 is Ok
            &&& symbols.1 is Ok
            &&& arrays.1 is Ok
            &&& known_tables(nso.file.memory, tables, 0, code.0).0 == all
            &&& known_tables(nso.file.memory, tables, 0, code.0).1 is Ok
        }),
{
    let (relocations, a) = relocation_references(nso, Seq::empty());
    let (symbols, b) = symbol_references(
        nso.symbol_offset,
        nso.strings,
        nso.symbols,
        0,
        relocations,
    );
    let (arrays, c) = init_array_references(nso.init_array_offset, nso.init_array, 0, symbols);
    let (code, d) = text::code_references(nso.text, function_starts(nso.symbols), arrays);
    let (tabled, e) = known_tables(nso.file.memory, tables, 0, code);
    lemma_symbol_references(nso.symbol_offset, nso.strings, nso.symbols, 0, relocations);
    lemma_init_array_references(nso.init_array_offset, nso.init_array, 0, symbols);
    text::lemma_code_references_keep(nso.text, function_starts(nso.symbols), arrays);
    lemma_known_tables(nso.file.memory, tables, 0, code);
    assert(tabled == all);
    assert(reference_tracker::continues(all, arrays)) by {
        assert forall|i: int| 0 <= i < arrays.len() implies #[trigger] all[i] == arrays[i] by {
            assert(code[i] == arrays[i]);
        }
    }
    assert(reference_tracker::continues(all, symbols)) by {
        assert forall|i: int| 0 <= i < symbols.len() implies #[trigger] all[i] == symbols[i] by {
            assert(arrays[i] == symbols[i]);
        }
    }
    assert(reference_tracker::continues(all, relocations)) by {
        assert forall|i: int| 0 <= i < relocations.len() implies #[trigger] all[i]
            == relocations[i] by {
            assert(symbols[i] == relocations[i]);
        }
    }
}

/// What is known of `r` once all references are settled: its source points to its target, and the
/// type of the target is at least as specific as `r` says.
pub open spec fn is_settled(t: Tables, r: Reference) -> bool {
    &&& t.sources.contains_key(r.source)
    &&& t.sources[r.source].1 == r.target
    &&& t.types.contains_key(r.target)
    &&& t.types[r.target].at_least(r.target_type)
}

proof fn lemma_settled(all: Seq<Reference>, r: Reference)
    requires
        reference_tracker::settled(all) is Ok,
        holds(all, r),
        !r.source_type.is_voidable(),
        !r.source_type.may_differ(),
    ensures
        is_settled(reference_tracker::settled(all)->Ok_0, r),
{
    let n = choose|n: int| 0 <= n < all.len() && #[trigger] all[n] == r;
    reference_tracker::law_references_are_settled(all, n);
}

/// Each relocation of `.rela.dyn` is resolved: the address that it is about points to the entry of
/// its symbol, or to its addend where it is relative.
pub proof fn law_relocations_are_resolved(nso: NsoView, tables: Seq<(u64, usize)>, i: int)
    requires
        references_of(nso, tables) is Ok,
        0 <= i < nso.reloc_dyn.len(),
    ensures
        dyn_relocation(nso.symbol_offset, nso.reloc_dyn[i]) is Ok,
        is_settled(
            references_of(nso, tables)->Ok_0,
            dyn_relocation(nso.symbol_offset, nso.reloc_dyn[i])->Ok_0,
        ),
{
    let all = found_references(nso, tables)->Ok_0;
    lemma_found(nso, tables, all);
    let (with_dyn, r) = dyn_references(nso.symbol_offset, nso.reloc_dyn, 0, Seq::empty());
    lemma_dyn_references(nso.symbol_offset, nso.reloc_dyn, 0, Seq::empty());
    lemma_plt_references(nso.symbol_offset, nso.reloc_plt, 0, with_dyn);
    let relocation = nso.reloc_dyn[i];
    let found = dyn_relocation(nso.symbol_offset, relocation)->Ok_0;
    assert(with_dyn[i] == found);
    assert(relocation_references(nso, Seq::empty()).0[i] == found);
    assert(all[i] == found);
    lemma_settled(all, found);
}

/// Each relocation of `.rela.plt` is resolved: the address that it is about points to the entry of
/// its symbol.
pub proof fn law_jump_slots_are_resolved(nso: NsoView, tables: Seq<(u64, usize)>, i: int)
    requires
        references_of(nso, tables) is Ok,
        0 <= i < nso.reloc_plt.len(),
    ensures
        plt_relocation(nso.symbol_offset, nso.reloc_plt[i]) is Ok,
        is_settled(
            references_of(nso, tables)->Ok_0,
            plt_relocation(nso.symbol_offset, nso.reloc_plt[i])->Ok_0,
        ),
{
    let all = found_references(nso, tables)->Ok_0;
    lemma_found(nso, tables, all);
    let (with_dyn, r) = dyn_references(nso.symbol_offset, nso.reloc_dyn, 0, Seq::empty());
    lemma_dyn_references(nso.symbol_offset, nso.reloc_dyn, 0, Seq::empty());
    lemma_plt_references(nso.symbol_offset, nso.reloc_plt, 0, with_dyn);
    let relocation = nso.reloc_plt[i];
    let found = plt_relocation(nso.symbol_offset, relocation)->Ok_0;
    let n = with_dyn.len() + i;
    assert(relocation_references(nso, Seq::empty()).0[n] == found);
    assert(all[n] == found);
    lemma_settled(all, found);
}

/// Each symbol that stands for an object or a function is resolved: its entry points to its value.
pub proof fn law_symbols_are_resolved(nso: NsoView, tables: Seq<(u64, usize)>, i: int)
    requires
        references_of(nso, tables) is Ok,
        0 <= i < nso.symbols.len(),
    ensures
        match symbol_reference(nso.symbol_offset, nso.strings, nso.symbols[i], i) {
            Ok(Some(found)) => is_settled(references_of(nso, tables)->Ok_0, found),
            Ok(None) => true,
            Err(_) => false,
        },
{
    let all = found_references(nso, tables)->Ok_0;
    lemma_found(nso, tables, all);
    let relocations = relocation_references(nso, Seq::empty()).0;
    lemma_symbol_references(nso.symbol_offset, nso.strings, nso.symbols, 0, relocations);
    let symbol = nso.symbols[i];
    let with_symbols = symbol_references(
        nso.symbol_offset,
        nso.strings,
        nso.symbols,
        0,
        relocations,
    ).0;
    if let Ok(Some(found)) = symbol_reference(nso.symbol_offset, nso.strings, symbol, i) {
        lemma_holds_more(all, with_symbols, found);
        lemma_settled(all, found);
    }
}

/// Each entry of the init array is resolved: it points to the function that it holds.
pub proof fn law_init_functions_are_resolved(nso: NsoView, tables: Seq<(u64, usize)>, i: int)
    requires
        references_of(nso, tables) is Ok,
        0 <= i < nso.init_array.len(),
    ensures
        is_settled(
            references_of(nso, tables)->Ok_0,
            init_array_reference(nso.init_array_offset, nso.init_array, i),
        ),
{
    let all = found_references(nso, tables)->Ok_0;
    lemma_found(nso, tables, all);
    let relocations = relocation_references(nso, Seq::empty()).0;
    let symbols = symbol_references(
        nso.symbol_offset,
        nso.strings,
        nso.symbols,
        0,
        relocations,
    ).0;
    lemma_init_array_references(nso.init_array_offset, nso.init_array, 0, symbols);
    let arrays = init_array_references(nso.init_array_offset, nso.init_array, 0, symbols).0;
    let found = init_array_reference(nso.init_array_offset, nso.init_array, i);
    lemma_holds_more(all, arrays, found);
    lemma_settled(all, found);
}

/// Each entry of a known jump table is resolved: it points to the code at the distance that it
/// holds from the table.
pub proof fn law_jump_tables_are_resolved(
    nso: NsoView,
    tables: Seq<(u64, usize)>,
    k: int,
    i: int,
)
    requires
        references_of(nso, tables) is Ok,
        0 <= k < tables.len(),
        0 <= i < tables[k].1,
    ensures
        jump_target(nso.file.memory, tables[k].0, i) is Ok,
        is_settled(
            references_of(nso, tables)->Ok_0,
            jump_reference(nso.file.memory, tables[k].0, i),
        ),
{
    let all = found_references(nso, tables)->Ok_0;
    lemma_found(nso, tables, all);
    let relocations = relocation_references(nso, Seq::empty()).0;
    let symbols = symbol_references(
        nso.symbol_offset,
        nso.strings,
        nso.symbols,
        0,
        relocations,
    ).0;
    let arrays = init_array_references(nso.init_array_offset, nso.init_array, 0, symbols).0;
    let code = text::code_references(nso.text, function_starts(nso.symbols), arrays).0;
    lemma_known_tables(nso.file.memory, tables, 0, code);
    let found = jump_reference(nso.file.memory, tables[k].0, i);
    assert(holds(all, found));
    lemma_settled(all, found);
}

/// A relocation is about its own address. One with a symbol leads to the entry of that symbol, 24 bytes
/// for each before it, and a relative one to its addend. Relocations of other types are refused.
pub proof fn law_relocations_lead_to_their_symbol(symbol_offset: u64, relocation: Relocation)
    ensures
        ({
            let entry = symbol_offset + 24 * relocation.sym_idx;
            let kind = relocation.reloc_type;
            let r = dyn_relocation(symbol_offset, relocation);
            let call = plt_relocation(symbol_offset, relocation);
            &&& (kind is R_AARCH64_GLOB_DAT || kind is R_AARCH64_ABS64) && entry <= u64::MAX ==> r
                == Ok::<Reference, Error>(
                Reference {
                    source: relocation.offset,
                    source_type: ReferenceSource::Relocation,
                    target: entry as u64,
                    target_type: DataRefType::SymbolAbsolute(relocation.addend),
                },
            )
            &&& kind is R_AARCH64_RELATIVE && relocation.addend >= 0 ==> r is Ok
                && r->Ok_0.source == relocation.offset && r->Ok_0.target == relocation.addend
                && r->Ok_0.target_type is Unknown && r->Ok_0.source_type is Relocation
            &&& kind is R_AARCH64_RELATIVE && relocation.addend < 0 ==> r is Err
            &&& !(kind is R_AARCH64_GLOB_DAT || kind is R_AARCH64_ABS64
                || kind is R_AARCH64_RELATIVE) ==> r is Err
            &&& kind is R_AARCH64_JUMP_SLOT && entry <= u64::MAX ==> call is Ok
                && call->Ok_0.source == relocation.offset && call->Ok_0.target == entry
                && call->Ok_0.target_type == DataRefType::SymbolAbsolute(relocation.addend)
                && call->Ok_0.source_type is Relocation
            &&& kind !is R_AARCH64_JUMP_SLOT ==> call is Err
        }),
{
}

/// A symbol that has an address leads to it from its entry. Objects and functions come with their size.
/// Of those without a type only `end` is passed over.
pub proof fn law_symbols_lead_to_their_address(
    symbol_offset: u64,
    strings: Map<u64, Seq<char>>,
    symbol: DynamicSymbol,
    index: int,
)
    requires
        0 <= index,
        symbol_offset + 24 * index <= u64::MAX,
        symbol.value != 0,
        symbol.info / 16 <= 2,
    ensures
        ({
            let r = symbol_reference(symbol_offset, strings, symbol, index);
            let kind = symbol.info % 16;
            &&& kind == 1 || kind == 2 ==> r is Ok && r->Ok_0 is Some && {
                let found = r->Ok_0->Some_0;
                &&& found.source == symbol_offset + 24 * index
                &&& found.source_type == ReferenceSource::Symbol(symbol.info / 16 == 2)
                &&& found.target == symbol.value
                &&& found.target_type == if kind == 1 {
                    DataRefType::Object(symbol.size)
                } else {
                    DataRefType::Function(symbol.size)
                }
            }
            &&& kind == 0 && strings.contains_key(symbol.str_table_offset as u64)
                && strings[symbol.str_table_offset as u64] == "end"@ ==> r == Ok::<
                Option<Reference>,
                Error,
            >(None)
            &&& kind == 0 && !(strings.contains_key(symbol.str_table_offset as u64)
                && strings[symbol.str_table_offset as u64] == "end"@) ==> r is Err
            &&& kind > 2 ==> r is Err
        }),
{
    tables::law_symbol_info_has_two_parts(symbol);
    tables::law_numbers_are_those_of_the_format();
}

/// Symbols without an address lead nowhere.
pub proof fn law_undefined_symbols_lead_nowhere(
    symbol_offset: u64,
    strings: Map<u64, Seq<char>>,
    symbol: DynamicSymbol,
    index: int,
)
    ensures
        symbol.value == 0 ==> symbol_reference(symbol_offset, strings, symbol, index) == Ok::<
            Option<Reference>,
            Error,
        >(None),
        symbol_reference(symbol_offset, strings, symbol, index) matches Ok(Some(r)) ==> r.target
            == symbol.value && symbol.value != 0,
{
}

/// Each relocation, and nothing else, gives one reference, in order.
pub proof fn law_relocations_come_in_order(
    symbol_offset: u64,
    relocations: Seq<Relocation>,
    from: int,
    refs: Seq<Reference>,
)
    requires
        0 <= from <= relocations.len(),
    ensures
        ({
            let (after, r) = dyn_references(symbol_offset, relocations, from, refs);
            r is Ok ==> after.len() == refs.len() + relocations.len() - from && after.take(
                refs.len() as int,
            ) == refs
        }),
        ({
            let (after, r) = plt_references(symbol_offset, relocations, from, refs);
            r is Ok ==> after.len() == refs.len() + relocations.len() - from && after.take(
                refs.len() as int,
            ) == refs
        }),
    decreases relocations.len() - from,
{
    assert(refs.take(refs.len() as int) =~= refs);
    if from < relocations.len() {
        if let Ok(r) = dyn_relocation(symbol_offset, relocations[from]) {
            let more = refs.push(r);
            law_relocations_come_in_order(symbol_offset, relocations, from + 1, more);
            let (after, outcome) = dyn_references(symbol_offset, relocations, from, refs);
            if outcome is Ok {
                assert(more.take(refs.len() as int) =~= refs);
                assert(after.take(more.len() as int).take(refs.len() as int) =~= after.take(
                    refs.len() as int,
                ));
            }
        }
        if let Ok(r) = plt_relocation(symbol_offset, relocations[from]) {
            let more = refs.push(r);
            law_relocations_come_in_order(symbol_offset, relocations, from + 1, more);
            let (after, outcome) = plt_references(symbol_offset, relocations, from, refs);
            if outcome is Ok {
                assert(more.take(refs.len() as int) =~= refs);
                assert(after.take(more.len() as int).take(refs.len() as int) =~= after.take(
                    refs.len() as int,
                ));
            }
        }
    }
}

/// Each entry of the init array leads from its own place, eight bytes behind the one before, to a
/// function. Nothing else is added.
pub proof fn law_init_arrays_lead_to_functions(
    offset: u64,
    array: Seq<u64>,
    from: int,
    refs: Seq<Reference>,
    i: int,
)
    requires
        0 <= from <= array.len(),
    ensures
        ({
            let (after, r) = init_array_references(offset, array, from, refs);
            let found = after[refs.len() + i - from];
            r is Ok ==> after.len() == refs.len() + array.len() - from && (from <= i < array.len()
                ==> found.source == offset + 8 * i && found.target == array[i]
                && found.source_type is InitArray && found.target_type is Code) && (0 <= i
                < refs.len() ==> after[i] == refs[i])
        }),
    decreases array.len() - from,
{
    if from < array.len() && offset + from * 8 <= u64::MAX {
        let more = refs.push(init_array_reference(offset, array, from));
        law_init_arrays_lead_to_functions(offset, array, from + 1, more, i);
        law_init_arrays_lead_to_functions(offset, array, from + 1, more, refs.len() as int);
    }
}

/// An entry of a jump table holds the distance from the table to its target in four bytes, which may be
/// negative.
pub proof fn law_jump_targets_are_relative(memory: Seq<u8>, table: u64, index: int)
    requires
        0 <= index,
    ensures
        ({
            let at = table + 4 * index;
            let distance = bytes::le_value(memory, at, 4);
            let r = jump_target(memory, table, index);
            &&& r is Ok <==> at + 4 <= memory.len()
            &&& r is Ok && distance < 0x8000_0000 && table + distance <= u64::MAX ==> r->Ok_0
                == table + distance
            &&& r is Ok && distance >= 0x8000_0000 && table + distance >= 0x1_0000_0000 ==> r->Ok_0
                == table - (0x1_0000_0000 - distance)
        }),
{
    bytes::law_lowest_byte_comes_first(memory, table + 4 * index, 4);
}

/// Each entry of a jump table leads from its own place, four bytes behind the one before, to code.
/// Nothing else is added.
pub proof fn law_jump_tables_lead_to_code(
    memory: Seq<u8>,
    table: u64,
    size: int,
    from: int,
    refs: Seq<Reference>,
    i: int,
)
    requires
        0 <= from <= size,
    ensures
        ({
            let (after, r) = jump_entries(memory, table, size, from, refs);
            let found = after[refs.len() + i - from];
            r is Ok ==> after.len() == refs.len() + size - from && (from <= i < size
                ==> found.source == (table + 4 * i) as u64 && jump_target(memory, table, i) == Ok::<
                u64,
                Error,
            >(found.target) && found.source_type is JumpTable && found.target_type is Code) && (0
                <= i < refs.len() ==> after[i] == refs[i])
        }),
    decreases size - from,
{
    if from < size {
        if let Ok(target) = jump_target(memory, table, from) {
            let more = refs.push(jump_reference(memory, table, from));
            law_jump_tables_lead_to_code(memory, table, size, from + 1, more, i);
            law_jump_tables_lead_to_code(memory, table, size, from + 1, more, refs.len() as int);
        }
    }
}

/// A table that is given beforehand gives its entries and itself.
pub proof fn law_given_tables_are_added(memory: Seq<u8>, table: (u64, usize), refs: Seq<Reference>)
    ensures
        ({
            let (after, r) = known_tables(memory, seq![table], 0, refs);
            let (entries, _) = jump_entries(memory, table.0, table.1 as int, 0, refs);
            r is Ok ==> table.0 <= memory.len() && after.len() == refs.len() + table.1 + 1
                && after.drop_last() == entries && after.last().target == table.0
                && after.last().target_type == DataRefType::JumpTable(table.1 as u64)
                && after.last().source == 0xDEADBEEF && after.last().source_type is Hack
        }),
{
    reveal_with_fuel(known_tables, 2);
    law_jump_tables_lead_to_code(memory, table.0, table.1 as int, 0, refs, 0);
    let (after, r) = known_tables(memory, seq![table], 0, refs);
    if r is Ok {
        assert(seq![table][0] == table);
        assert(after.drop_last() =~= jump_entries(memory, table.0, table.1 as int, 0, refs).0);
    }
}

/// A table that a reference is known to gives its entries: as many as the reference says.
pub proof fn law_referenced_tables_are_added(memory: Seq<u8>, found: Reference, refs: Seq<Reference>)
    ensures
        ({
            let (after, r) = referenced_tables(memory, seq![found], 0, refs);
            let (entries, outcome) = jump_entries(
                memory,
                found.target,
                found.target_type->JumpTable_0 as int,
                0,
                refs,
            );
            found.target_type is JumpTable && found.target <= memory.len() ==> after == entries && (
            r is Ok <==> outcome is Ok)
        }),
        is_table()(found) <==> found.target_type is JumpTable,
{
    let one = seq![found];
    assert(one.len() == 1 && one[0] == found);
    if found.target_type is JumpTable {
        let entries = jump_entries(
            memory,
            found.target,
            found.target_type->JumpTable_0 as int,
            0,
            refs,
        ).0;
        assert(referenced_tables(memory, one, 1, entries) == (entries, Ok::<(), Error>(())));
    }
}

/// Functions start where symbols for functions say.
pub proof fn law_functions_start_at_their_symbols(symbols: Seq<DynamicSymbol>, address: u64)
    ensures
        function_starts(symbols).contains(address) <==> address != 0 && exists|i: int|
            0 <= i < symbols.len() && (#[trigger] symbols[i]).value == address && symbols[i].info
                % 16 == 2,
{
    tables::law_numbers_are_those_of_the_format();
    assert forall|i: int| 0 <= i < symbols.len() implies (symbols[i].kind() == Ok::<
        DynamicSymbolType,
        Error,
    >(DynamicSymbolType::STT_FUNC) <==> (#[trigger] symbols[i]).info % 16 == 2) by {
        tables::law_symbol_info_has_two_parts(symbols[i]);
        let kind = (symbols[i].info % 16) as u8;
        assert(kind == 2 || DynamicSymbolType::decoded(kind) != Ok::<DynamicSymbolType, Error>(
            DynamicSymbolType::STT_FUNC,
        ));
    }
    if function_starts(symbols).contains(address) {
        let i = choose|i: int| #[trigger] is_function(symbols, i, address);
        assert(symbols[i].value == address);
    }
    if address != 0 && exists|i: int|
        0 <= i < symbols.len() && (#[trigger] symbols[i]).value == address && symbols[i].info % 16
            == 2 {
        let i = choose|i: int|
            0 <= i < symbols.len() && (#[trigger] symbols[i]).value == address && symbols[i].info
                % 16 == 2;
        assert(is_function(symbols, i, address));
    }
}

/// The references of a binary come from its relocations, its symbols, its init array, its code and the
/// given tables, each of them from all that is there.
pub proof fn law_all_kinds_of_references_are_found(nso: NsoView, given: Seq<(u64, usize)>)
    requires
        found_references(nso, given) is Ok,
    ensures
        ({
            let relocated = plt_references(
                nso.symbol_offset,
                nso.reloc_plt,
                0,
                dyn_references(nso.symbol_offset, nso.reloc_dyn, 0, Seq::empty()).0,
            ).0;
            let named = symbol_references(
                nso.symbol_offset,
                nso.strings,
                nso.symbols,
                0,
                relocated,
            ).0;
            let initial = init_array_references(
                nso.init_array_offset,
                nso.init_array,
                0,
                named,
            ).0;
            let starts = function_starts(nso.symbols);
            let coded = text::code_references(nso.text, starts, initial).0;
            found_references(nso, given)->Ok_0 == known_tables(
                nso.file.memory,
                given,
                0,
                coded,
            ).0
        }),
{
}

} // verus!
