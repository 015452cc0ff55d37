//! Finding symbols and their names by address.

use std::collections::HashMap;

use vstd::prelude::*;

use crate::error::Error;
use crate::fmt::{self, format_hex};
use crate::lines;
use crate::nso::nso::{NsoView, NSO};
use crate::nso::nso_header::NsoSegment;
use crate::nso::section_map::{self, SectionType};
use crate::nso::tables::{DynamicSymbol, Relocation, SYMBOL_SIZE};
use crate::reference_tracker::{DataRefType, References, Tables};

verus! {

/// Where the relocations and symbols of a binary are found in its tables.
pub struct NsoLookupHelper {
    reloc_dyn_addr_to_idx: HashMap<u64, usize>,
    symbol_table_value_to_idx: HashMap<u64, Vec<usize>>,
}

/// What an [`NsoLookupHelper`] knows.
#[verifier::ext_equal]
pub struct LookupView {
    /// The index of the relocation of each address.
    pub relocations: Map<u64, usize>,
    /// The indices of the symbols of each address.
    pub symbols: Map<u64, Seq<usize>>,
}

impl View for NsoLookupHelper {
    type V = LookupView;

    closed spec fn view(&self) -> LookupView {
        LookupView {
            relocations: self.reloc_dyn_addr_to_idx@,
            symbols: self.symbol_table_value_to_idx@.map_values(|v: Vec<usize>| v@),
        }
    }
}

impl LookupView {
    /// All indices point into a table of `count` symbols.
    pub open spec fn fits(self, count: nat) -> bool {
        forall|a: u64, k: int|
            #![trigger self.symbols[a][k]]
            self.symbols.contains_key(a) && 0 <= k < self.symbols[a].len() ==> self.symbols[a][k]
                < count
    }

    /// The indices of the symbols of an address.
    pub open spec fn indices(self, address: u64) -> Seq<usize> {
        if self.symbols.contains_key(address) {
            self.symbols[address]
        } else {
            Seq::empty()
        }
    }
}

/// The first `count` relocations by address.
pub open spec fn relocation_indices(relocations: Seq<Relocation>, count: nat) -> Map<u64, usize>
    decreases count,
{
    if count == 0 {
        Map::empty()
    } else {
        relocation_indices(relocations, (count - 1) as nat).insert(
            relocations[count - 1].offset,
            (count - 1) as usize,
        )
    }
}

/// The first `count` symbols by address.
pub open spec fn symbol_indices(symbols: Seq<DynamicSymbol>, count: nat) -> Map<u64, Seq<usize>>
    decreases count,
{
    if count == 0 {
        Map::empty()
    } else {
        let before = symbol_indices(symbols, (count - 1) as nat);
        let value = symbols[count - 1].value;
        let known = if before.contains_key(value) {
            before[value]
        } else {
            Seq::empty()
        };
        before.insert(value, known.push((count - 1) as usize))
    }
}

/// Two relocations are about the same address.
pub open spec fn has_duplicates(relocations: Seq<Relocation>) -> bool {
    exists|i: int, j: int|
        0 <= i < j < relocations.len() && relocations[i].offset == relocations[j].offset
}

/// Where the relocations and symbols of `nso` are found.
pub open spec fn lookup_of(nso: NsoView) -> Result<LookupView, Error> {
    if has_duplicates(nso.reloc_dyn) {
        Err(Error::DuplicateRelocation)
    } else {
        Ok(
            LookupView {
                relocations: relocation_indices(nso.reloc_dyn, nso.reloc_dyn.len()),
                symbols: symbol_indices(nso.symbols, nso.symbols.len()),
            },
        )
    }
}

proof fn lemma_relocation_indices(relocations: Seq<Relocation>, count: nat, address: u64)
    requires
        count <= relocations.len(),
        relocations.len() <= usize::MAX,
    ensures
        relocation_indices(relocations, count).contains_key(address) <==> exists|i: int|
            0 <= i < count && #[trigger] relocations[i].offset == address,
    decreases count,
{
    if count > 0 {
        lemma_relocation_indices(relocations, (count - 1) as nat, address);
        if relocations[count - 1].offset == address {
            assert(0 <= count - 1 < count && relocations[count - 1].offset == address);
        } else if exists|i: int| 0 <= i < count && #[trigger] relocations[i].offset == address {
            let i = choose|i: int| 0 <= i < count && #[trigger] relocations[i].offset == address;
            assert(i < count - 1);
        }
    }
}

proof fn lemma_symbol_indices(symbols: Seq<DynamicSymbol>, count: nat, address: u64)
    requires
        count <= symbols.len(),
        symbols.len() <= usize::MAX,
    ensures
        ({
            let m = symbol_indices(symbols, count);
            m.contains_key(address) ==> m[address].len() > 0 && forall|k: int|
                0 <= k < m[address].len() ==> #[trigger] m[address][k] < count
        }),
    decreases count,
{
    if count > 0 {
        lemma_symbol_indices(symbols, (count - 1) as nat, address);
    }
}

proof fn lemma_lookup_fits(symbols: Seq<DynamicSymbol>, lookup: LookupView)
    requires
        symbols.len() <= usize::MAX,
        lookup.symbols == symbol_indices(symbols, symbols.len()),
    ensures
        lookup.fits(symbols.len()),
{
    assert forall|a: u64, k: int|
        #![trigger lookup.symbols[a][k]]
        lookup.symbols.contains_key(a) && 0 <= k
            < lookup.symbols[a].len() implies lookup.symbols[a][k] < symbols.len() by {
        lemma_symbol_indices(symbols, symbols.len(), a);
    }
}

spec fn has_value(address: u64) -> spec_fn(DynamicSymbol) -> bool {
    |s: DynamicSymbol| s.value == address
}

proof fn lemma_symbols_found(symbols: Seq<DynamicSymbol>, count: nat, address: u64)
    requires
        count <= symbols.len(),
        symbols.len() <= usize::MAX,
    ensures
        ({
            let m = symbol_indices(symbols, count);
            let found = if m.contains_key(address) {
                m[address]
            } else {
                Seq::empty()
            };
            picked(symbols, found) == symbols.take(count as int).filter(has_value(address))
        }),
    decreases count,
{
    reveal(Seq::filter);
    let m = symbol_indices(symbols, count);
    if count == 0 {
        assert(picked(symbols, Seq::empty()) =~= symbols.take(0).filter(has_value(address)));
    } else {
        lemma_symbols_found(symbols, (count - 1) as nat, address);
        let before = symbol_indices(symbols, (count - 1) as nat);
        let found = if before.contains_key(address) {
            before[address]
        } else {
            Seq::empty()
        };
        assert(symbols.take(count as int).drop_last() =~= symbols.take(count - 1));
        if symbols[count - 1].value == address {
            assert(picked(symbols, found.push((count - 1) as usize)) =~= picked(
                symbols,
                found,
            ).push(symbols[count - 1]));
        }
    }
}

/// The symbols at the given indices.
pub open spec fn picked(symbols: Seq<DynamicSymbol>, indices: Seq<usize>) -> Seq<DynamicSymbol> {
    Seq::new(indices.len(), |k: int| symbols[indices[k] as int])
}

/// The symbols of an address.
pub open spec fn symbols_of(nso: NsoView, lookup: LookupView, address: u64) -> Seq<DynamicSymbol> {
    picked(nso.symbols, lookup.indices(address))
}

/// The symbols that are found for an address are all that have it as their value, in the order of
/// the symbol table.
pub proof fn law_lookup_finds_all_symbols(nso: NsoView, lookup: LookupView, address: u64)
    requires
        nso.symbols.len() <= usize::MAX,
        lookup_of(nso) == Ok::<LookupView, Error>(lookup),
    ensures
        symbols_of(nso, lookup, address) == nso.symbols.filter(
            |s: DynamicSymbol| s.value == address,
        ),
        lookup.fits(nso.symbols.len()),
{
    lemma_symbols_found(nso.symbols, nso.symbols.len(), address);
    lemma_lookup_fits(nso.symbols, lookup);
    assert(nso.symbols.take(nso.symbols.len() as int) =~= nso.symbols);
    let wanted = |s: DynamicSymbol| s.value == address;
    assert(has_value(address) =~= wanted);
}

/// Finds the relocation of each address. No two may be about the same one.
pub(crate) fn index_relocations(relocations: &Vec<Relocation>) -> (r: Result<
    HashMap<u64, usize>,
    Error,
>)
    ensures
        match r {
            Ok(indices) => !has_duplicates(relocations@) && indices@ == relocation_indices(
                relocations@,
                relocations@.len(),
            ) && forall|a: u64| #[trigger]
                indices@.contains_key(a) ==> indices@[a] < relocations@.len(),
            Err(e) => has_duplicates(relocations@) && e == Error::DuplicateRelocation,
        },
{
    let total: usize = relocations.len();
    let mut indices: HashMap<u64, usize> = HashMap::new();
    let mut i: usize = 0;
    while i < relocations.len()
        invariant
            i <= relocations@.len(),
            relocations@.len() == total,
            indices@ == relocation_indices(relocations@, i as nat),
            forall|a: u64| #[trigger] indices@.contains_key(a) ==> indices@[a] < i,
            forall|a: int, b: int|
                0 <= a < b < i ==> relocations@[a].offset != relocations@[b].offset,
        decreases relocations@.len() - i,
    {
        let offset: u64 = relocations[i].offset;
        proof {
            lemma_relocation_indices(relocations@, i as nat, offset);
        }
        if indices.contains_key(&offset) {
            proof {
                let a = choose|a: int| 0 <= a < i && #[trigger] relocations@[a].offset == offset;
                assert(0 <= a < i < relocations@.len() && relocations@[a].offset
                    == relocations@[i as int].offset);
            }
            return Err(Error::DuplicateRelocation);
        }
        indices.insert(offset, i);
        i = i + 1;
    }
    Ok(indices)
}

impl NsoLookupHelper {
    /// Finds all relocations and symbols of a binary. No two relocations of `.rela.dyn` may be
    /// about the same address.
    pub fn new(nso: &NSO) -> (r: Result<Self, Error>)
        ensures
            match r {
                Ok(helper) => lookup_of(nso@) == Ok::<LookupView, Error>(helper@)
                    && helper@.fits(nso@.symbols.len()),
                Err(e) => lookup_of(nso@) == Err::<LookupView, Error>(e),
            },
    {
        let reloc_dyn_addr_to_idx = index_relocations(&nso.reloc_dyn_table)?;
        let symbols: &Vec<DynamicSymbol> = &nso.symbol_table.1;
        let count: usize = symbols.len();
        let mut symbol_table_value_to_idx: HashMap<u64, Vec<usize>> = HashMap::new();
        let mut k: usize = 0;
        assert(symbol_table_value_to_idx@.map_values(|v: Vec<usize>| v@) =~= symbol_indices(
            symbols@,
            0,
        ));
        while k < symbols.len()
            invariant
                k <= symbols@.len(),
                symbols@.len() == count,
                symbol_table_value_to_idx@.map_values(|v: Vec<usize>| v@) == symbol_indices(
                    symbols@,
                    k as nat,
                ),
            decreases symbols@.len() - k,
        {
            let value: u64 = symbols[k].value;
            let ghost before = symbol_table_value_to_idx@.map_values(|v: Vec<usize>| v@);
            let mut indices: Vec<usize> = match symbol_table_value_to_idx.remove(&value) {
                Some(indices) => indices,
                None => Vec::new(),
            };
            assert(indices@ =~= (if before.contains_key(value) {
                before[value]
            } else {
                Seq::<usize>::empty()
            }));
            indices.push(k);
            symbol_table_value_to_idx.insert(value, indices);
            assert(symbol_table_value_to_idx@.map_values(|v: Vec<usize>| v@) =~= symbol_indices(
                symbols@,
                (k + 1) as nat,
            ));
            k = k + 1;
        }
        let helper = NsoLookupHelper { reloc_dyn_addr_to_idx, symbol_table_value_to_idx };
        proof {
            lemma_lookup_fits(symbols@, helper@);
        }
        Ok(helper)
    }

    /// The symbol table has an entry for the address.
    pub fn has_symbol(&self, address: u64) -> (r: bool)
        ensures
            r == self@.symbols.contains_key(address),
    {
        self.symbol_table_value_to_idx.contains_key(&address)
    }

    /// The indices of the symbols of an address.
    pub fn get_indices(&self, address: u64) -> (r: Vec<usize>)
        ensures
            r@ == self@.indices(address),
    {
        match self.symbol_table_value_to_idx.get(&address) {
            Some(indices) => {
                let mut r: Vec<usize> = Vec::new();
                let mut i: usize = 0;
                while i < indices.len()
                    invariant
                        i <= indices@.len(),
                        r@ == indices@.take(i as int),
                    decreases indices@.len() - i,
                {
                    r.push(indices[i]);
                    assert(indices@.take(i + 1) =~= indices@.take(i as int).push(
                        indices@[i as int],
                    ));
                    i = i + 1;
                }
                assert(indices@.take(i as int) =~= indices@);
                r
            },
            None => Vec::new(),
        }
    }
}

/// The symbols behind references.
pub open spec fn symbol_views(symbols: Seq<&DynamicSymbol>) -> Seq<DynamicSymbol> {
    Seq::new(symbols.len(), |k: int| *symbols[k])
}

/// The first section of a type starts at the address.
pub open spec fn starts_at(sections: Map<u64, SectionType>, t: SectionType, address: u64) -> bool {
    match section_map::section_range(sections, t) {
        Some((start, _)) => start == address,
        None => false,
    }
}

/// The first section of a type ends at the address.
pub open spec fn ends_at(sections: Map<u64, SectionType>, t: SectionType, address: u64) -> bool {
    match section_map::section_range(sections, t) {
        Some((_, end)) => end == address,
        None => false,
    }
}

/// The name of an address that no symbol is for. The ends of some sections have names of their
/// own.
pub open spec fn fallback_name(nso: NsoView, address: u64) -> Seq<char> {
    if starts_at(nso.sections, SectionType::Plt, address) {
        "__plt_start__"@
    } else if starts_at(nso.sections, SectionType::GotPlt, address) {
        "__got_start__"@
    } else if starts_at(nso.sections, SectionType::Dynamic, address) {
        "__dynamic_start__"@
    } else if starts_at(nso.sections, SectionType::RelaPlt, address) {
        "__rela_plt_start"@
    } else if ends_at(nso.sections, SectionType::RelaPlt, address) {
        "__rela_plt_end"@
    } else if starts_at(nso.sections, SectionType::RelaDyn, address) {
        "__rela_dyn_start"@
    } else if ends_at(nso.sections, SectionType::RelaDyn, address) {
        "__rela_dyn_end"@
    } else if starts_at(nso.sections, SectionType::InitArray, address) {
        "__init_array_start__"@
    } else if ends_at(nso.sections, SectionType::InitArray, address) {
        "__tdata_start__"@
    } else {
        numbered_name(nso, address)
    }
}

/// A name made of the address: `loc_` in the code and `off_` elsewhere.
pub open spec fn numbered_name(nso: NsoView, address: u64) -> Seq<char> {
    let prefix = if nso.file.header.offset(NsoSegment::Text) <= address < nso.file.header.end(
        NsoSegment::Text,
    ) {
        "loc_"@
    } else {
        "off_"@
    };
    prefix + fmt::hex(address as nat)
}

/// The first name of the symbols from `from` on that is not empty.
pub open spec fn first_name(
    symbols: Seq<DynamicSymbol>,
    strings: Map<u64, Seq<char>>,
    from: int,
) -> Result<Seq<char>, Error>
    decreases symbols.len() - from,
{
    if from < 0 || from >= symbols.len() {
        Err(Error::SymbolWithoutName)
    } else {
        match symbols[from].name(strings) {
            Ok(name) => if name.len() > 0 {
                Ok(name)
            } else {
                first_name(symbols, strings, from + 1)
            },
            Err(_) => first_name(symbols, strings, from + 1),
        }
    }
}

/// A name for an address.
pub open spec fn any_name(nso: NsoView, lookup: LookupView, address: u64) -> Result<
    Seq<char>,
    Error,
> {
    let symbols = symbols_of(nso, lookup, address);
    if symbols.len() == 0 {
        Ok(fallback_name(nso, address))
    } else {
        first_name(symbols, nso.strings, 0)
    }
}

/// The names of the first `count` symbols, without those that have none.
pub open spec fn known_names(
    symbols: Seq<DynamicSymbol>,
    strings: Map<u64, Seq<char>>,
    count: nat,
) -> Seq<Seq<char>>
    decreases count,
{
    if count == 0 {
        Seq::empty()
    } else {
        let before = known_names(symbols, strings, (count - 1) as nat);
        match symbols[count - 1].name(strings) {
            Ok(name) => before.push(name),
            Err(_) => before,
        }
    }
}

/// All names of an address.
pub open spec fn all_names(nso: NsoView, lookup: LookupView, address: u64) -> Seq<Seq<char>> {
    let symbols = symbols_of(nso, lookup, address);
    if symbols.len() == 0 {
        seq![fallback_name(nso, address)]
    } else {
        known_names(symbols, nso.strings, symbols.len())
    }
}

/// The name of the symbol whose table entry is at `target`.
pub open spec fn entry_name(nso: NsoView, target: u64) -> Result<Seq<char>, Error> {
    if target < nso.symbol_offset {
        Err(Error::OutOfBounds)
    } else {
        let index = (target - nso.symbol_offset) / SYMBOL_SIZE as int;
        if index >= nso.symbols.len() {
            Err(Error::SymbolMissing)
        } else {
            nso.symbols[index].name(nso.strings)
        }
    }
}

/// The name of what an entry of the global offset table points to.
pub open spec fn got_target_name(
    nso: NsoView,
    lookup: LookupView,
    refs: Tables,
    address: u64,
) -> Result<Seq<char>, Error> {
    if !nso.sections.contains_key(address) {
        Err(Error::SectionMissing)
    } else if nso.sections[address] != SectionType::Got && nso.sections[address]
        != SectionType::GotPlt {
        Err(Error::NotInGot)
    } else if !refs.sources.contains_key(address) {
        Err(Error::NoReference { address })
    } else {
        let target = refs.sources[address].1;
        if !refs.types.contains_key(target) {
            Err(Error::TargetWithoutType { address })
        } else {
            match refs.types[target] {
                DataRefType::SymbolAbsolute(addend) => if addend != 0 {
                    Err(Error::UnexpectedAddend)
                } else {
                    entry_name(nso, target)
                },
                _ => any_name(nso, lookup, target),
            }
        }
    }
}

impl NSO {
    /// The symbols of an address, in the order of the symbol table.
    pub fn get_symbols(&self, address: u64, helper: &NsoLookupHelper) -> (r: Vec<&DynamicSymbol>)
        requires
            helper@.fits(self@.symbols.len()),
        ensures
            symbol_views(r@) == symbols_of(self@, helper@, address),
    {
        let indices = helper.get_indices(address);
        let mut symbols: Vec<&DynamicSymbol> = Vec::new();
        let mut i: usize = 0;
        while i < indices.len()
            invariant
                i <= indices@.len(),
                indices@ == helper@.indices(address),
                helper@.fits(self@.symbols.len()),
                symbols@.len() == i,
                forall|k: int|
                    0 <= k < i ==> *(#[trigger] symbols@[k])
                        == self@.symbols[indices@[k] as int],
            decreases indices@.len() - i,
        {
            assert(helper@.symbols[address][i as int] < self@.symbols.len());
            symbols.push(&self.symbol_table.1[indices[i]]);
            i = i + 1;
        }
        assert(symbol_views(symbols@) =~= symbols_of(self@, helper@, address));
        symbols
    }

    fn is_start_of(&self, t: SectionType, address: u64) -> (r: bool)
        ensures
            r == starts_at(self@.sections, t, address),
    {
        match self.sections.get_range(&t) {
            Some(range) => range.start == address,
            None => false,
        }
    }

    fn is_end_of(&self, t: SectionType, address: u64) -> (r: bool)
        ensures
            r == ends_at(self@.sections, t, address),
    {
        match self.sections.get_range(&t) {
            Some(range) => range.end == address,
            None => false,
        }
    }

    /// The name of an address that no symbol is for.
    pub fn get_fallback_symbol(&self, address: u64) -> (r: String)
        ensures
            r@ == fallback_name(self@, address),
    {
        if self.is_start_of(SectionType::Plt, address) {
            return String::from_str("__plt_start__");
        }
        if self.is_start_of(SectionType::GotPlt, address) {
            return String::from_str("__got_start__");
        }
        if self.is_start_of(SectionType::Dynamic, address) {
            return String::from_str("__dynamic_start__");
        }
        if self.is_start_of(SectionType::RelaPlt, address) {
            return String::from_str("__rela_plt_start");
        }
        if self.is_end_of(SectionType::RelaPlt, address) {
            return String::from_str("__rela_plt_end");
        }
        if self.is_start_of(SectionType::RelaDyn, address) {
            return String::from_str("__rela_dyn_start");
        }
        if self.is_end_of(SectionType::RelaDyn, address) {
            return String::from_str("__rela_dyn_end");
        }
        if self.is_start_of(SectionType::InitArray, address) {
            return String::from_str("__init_array_start__");
        }
        if self.is_end_of(SectionType::InitArray, address) {
            return String::from_str("__tdata_start__");
        }
        let mut name = if self.file.is_address_in_segment(address, &NsoSegment::Text) {
            String::from_str("loc_")
        } else {
            String::from_str("off_")
        };
        name.append(format_hex(address).as_str());
        name
    }

    /// A name for an address: the first name that a symbol gives it, or one of its own where there
    /// is no symbol.
    pub fn get_any_symbol(&self, address: u64, helper: &NsoLookupHelper) -> (r: Result<
        String,
        Error,
    >)
        requires
            helper@.fits(self@.symbols.len()),
        ensures
            match r {
                Ok(name) => any_name(self@, helper@, address) == Ok::<Seq<char>, Error>(name@),
                Err(e) => any_name(self@, helper@, address) == Err::<Seq<char>, Error>(e),
            },
    {
        let symbols = self.get_symbols(address, helper);
        let ghost found = symbols_of(self@, helper@, address);
        assert(symbols@.len() == found.len());
        if symbols.len() == 0 {
            return Ok(self.get_fallback_symbol(address));
        }
        let mut i: usize = 0;
        while i < symbols.len()
            invariant
                i <= symbols@.len(),
                found == symbol_views(symbols@),
                first_name(found, self@.strings, i as int) == first_name(found, self@.strings, 0),
                any_name(self@, helper@, address) == first_name(found, self@.strings, 0),
            decreases symbols@.len() - i,
        {
            assert(found[i as int] == *symbols@[i as int]);
            match symbols[i].get_name(&self.dynstr_table) {
                Ok(name) => {
                    if name.as_str().unicode_len() > 0 {
                        return Ok(name.clone());
                    }
                },
                Err(_) => {},
            }
            i = i + 1;
        }
        Err(Error::SymbolWithoutName)
    }

    /// All names of an address.
    pub fn get_all_symbols(&self, address: u64, helper: &NsoLookupHelper) -> (r: Vec<String>)
        requires
            helper@.fits(self@.symbols.len()),
        ensures
            lines::text_views(r@) == all_names(self@, helper@, address),
    {
        let symbols = self.get_symbols(address, helper);
        let ghost found = symbols_of(self@, helper@, address);
        assert(symbols@.len() == found.len());
        let mut names: Vec<String> = Vec::new();
        if symbols.len() == 0 {
            names.push(self.get_fallback_symbol(address));
            assert(lines::text_views(names@) =~= seq![fallback_name(self@, address)]);
            return names;
        }
        let mut i: usize = 0;
        assert(lines::text_views(names@) =~= known_names(found, self@.strings, 0));
        while i < symbols.len()
            invariant
                i <= symbols@.len(),
                found == symbol_views(symbols@),
                lines::text_views(names@) == known_names(found, self@.strings, i as nat),
            decreases symbols@.len() - i,
        {
            assert(found[i as int] == *symbols@[i as int]);
            let ghost before = names@;
            match symbols[i].get_name(&self.dynstr_table) {
                Ok(name) => {
                    names.push(name.clone());
                    assert(lines::text_views(names@) =~= lines::text_views(before).push(name@));
                },
                Err(_) => {},
            }
            i = i + 1;
        }
        names
    }

    /// The name of the symbol whose table entry is at `target`.
    pub fn get_entry_name(&self, target: u64) -> (r: Result<String, Error>)
        ensures
            match r {
                Ok(name) => entry_name(self@, target) == Ok::<Seq<char>, Error>(name@),
                Err(e) => entry_name(self@, target) == Err::<Seq<char>, Error>(e),
            },
    {
        if target < self.symbol_table.0 {
            return Err(Error::OutOfBounds);
        }
        let index: u64 = (target - self.symbol_table.0) / SYMBOL_SIZE as u64;
        if index >= self.symbol_table.1.len() as u64 {
            return Err(Error::SymbolMissing);
        }
        let name = self.symbol_table.1[index as usize].get_name(&self.dynstr_table)?;
        Ok(name.clone())
    }

    /// The name of what an entry of the global offset table points to.
    pub fn get_got_target_symbol(
        &self,
        got_address: u64,
        references: &References,
        helper: &NsoLookupHelper,
    ) -> (r: Result<String, Error>)
        requires
            helper@.fits(self@.symbols.len()),
        ensures
            match r {
                Ok(name) => got_target_name(self@, helper@, references@, got_address) == Ok::<
                    Seq<char>,
                    Error,
                >(name@),
                Err(e) => got_target_name(self@, helper@, references@, got_address) == Err::<
                    Seq<char>,
                    Error,
                >(e),
            },
    {
        match self.sections.get(got_address) {
            Some(section) => {
                if section != SectionType::Got && section != SectionType::GotPlt {
                    return Err(Error::NotInGot);
                }
            },
            None => {
                return Err(Error::SectionMissing);
            },
        }
        let target: u64 = match references.get_target_address(got_address) {
            Some(target) => target,
            None => {
                return Err(Error::NoReference { address: got_address });
            },
        };
        match references.get_type_of(target) {
            None => Err(Error::TargetWithoutType { address: got_address }),
            Some(DataRefType::SymbolAbsolute(addend)) => {
                if addend != 0 {
                    return Err(Error::UnexpectedAddend);
                }
                self.get_entry_name(target)
            },
            Some(_) => self.get_any_symbol(target, helper),
        }
    }
}

proof fn lemma_section_names_differ()
    ensures
        "__plt_start__"@ != "__got_start__"@,
        "__rela_plt_start"@ != "__rela_dyn_start"@,
        "__rela_plt_end"@ != "__rela_dyn_end"@,
        "__plt_start__"@.len() == 13,
        "__got_start__"@.len() == 13,
        "__dynamic_start__"@.len() == 17,
        "__rela_plt_start"@.len() == 16,
        "__rela_plt_end"@.len() == 14,
        "__rela_dyn_start"@.len() == 16,
        "__rela_dyn_end"@.len() == 14,
        "__init_array_start__"@.len() == 20,
        "__tdata_start__"@.len() == 15,
        "__plt_start__"@[0] == '_',
        "__got_start__"@[0] == '_',
        "__dynamic_start__"@[0] == '_',
        "__rela_plt_start"@[0] == '_',
        "__rela_plt_end"@[0] == '_',
        "__rela_dyn_start"@[0] == '_',
        "__rela_dyn_end"@[0] == '_',
        "__init_array_start__"@[0] == '_',
        "__tdata_start__"@[0] == '_',
{
    reveal_strlit("__plt_start__");
    reveal_strlit("__got_start__");
    reveal_strlit("__dynamic_start__");
    reveal_strlit("__rela_plt_start");
    reveal_strlit("__rela_plt_end");
    reveal_strlit("__rela_dyn_start");
    reveal_strlit("__rela_dyn_end");
    reveal_strlit("__init_array_start__");
    reveal_strlit("__tdata_start__");
    assert("__plt_start__"@[2] != "__got_start__"@[2]);
    assert("__rela_plt_start"@[7] != "__rela_dyn_start"@[7]);
    assert("__rela_plt_end"@[7] != "__rela_dyn_end"@[7]);
}

proof fn lemma_numbered_names_differ(nso: NsoView, a: u64, b: u64)
    requires
        a != b,
    ensures
        numbered_name(nso, a) != numbered_name(nso, b),
        numbered_name(nso, a)[0] != '_',
{
    reveal_strlit("loc_");
    reveal_strlit("off_");
    let (x, y) = (numbered_name(nso, a), numbered_name(nso, b));
    assert(x[0] == 'l' || x[0] == 'o');
    if x == y {
        fmt::lemma_digits_differ(a as nat, b as nat, 16, true);
        assert(x.skip(4) =~= fmt::hex(a as nat));
        assert(y.skip(4) =~= fmt::hex(b as nat));
    }
}

/// Addresses without symbols are told apart by their names.
pub proof fn law_fallback_names_differ(nso: NsoView, a: u64, b: u64)
    requires
        a != b,
    ensures
        fallback_name(nso, a) != fallback_name(nso, b),
{
    lemma_section_names_differ();
    lemma_numbered_names_differ(nso, a, b);
    lemma_numbered_names_differ(nso, b, a);
    assert(fallback_name(nso, a).len() > 0);
    if fallback_name(nso, a) == fallback_name(nso, b) {
        assert(fallback_name(nso, a)[0] == fallback_name(nso, b)[0]);
    }
}

proof fn lemma_first_name_error(
    symbols: Seq<DynamicSymbol>,
    strings: Map<u64, Seq<char>>,
    from: int,
)
    ensures
        first_name(symbols, strings, from) matches Err(e) ==> e == Error::SymbolWithoutName,
    decreases symbols.len() - from,
{
    if 0 <= from < symbols.len() {
        lemma_first_name_error(symbols, strings, from + 1);
    }
}

/// An address has a name unless none of its symbols has.
pub proof fn lemma_name_error(nso: NsoView, lookup: LookupView, address: u64)
    ensures
        any_name(nso, lookup, address) matches Err(e) ==> e == Error::SymbolWithoutName,
{
    lemma_first_name_error(symbols_of(nso, lookup, address), nso.strings, 0);
}

proof fn lemma_relocations_found(relocations: Seq<Relocation>, count: nat, k: int)
    requires
        count <= relocations.len(),
        relocations.len() <= usize::MAX,
        !has_duplicates(relocations),
    ensures
        0 <= k < count ==> relocation_indices(relocations, count).contains_key(
            relocations[k].offset,
        ) && relocation_indices(relocations, count)[relocations[k].offset] == k,
        forall|a: u64| #[trigger]
            relocation_indices(relocations, count).contains_key(a) ==> relocation_indices(
                relocations,
                count,
            )[a] < count && relocations[relocation_indices(relocations, count)[a] as int].offset
                == a,
    decreases count,
{
    if count > 0 {
        lemma_relocations_found(relocations, (count - 1) as nat, k);
        if 0 <= k < count - 1 {
            assert(relocations[k].offset != relocations[count - 1].offset);
        }
    }
}

/// The relocation that is found for an address is the one about it. None is found where there is none.
pub proof fn law_lookup_finds_all_relocations(nso: NsoView, lookup: LookupView, k: int, address: u64)
    requires
        nso.reloc_dyn.len() <= usize::MAX,
        lookup_of(nso) == Ok::<LookupView, Error>(lookup),
    ensures
        0 <= k < nso.reloc_dyn.len() ==> lookup.relocations.contains_key(nso.reloc_dyn[k].offset)
            && lookup.relocations[nso.reloc_dyn[k].offset] == k,
        lookup.relocations.contains_key(address) ==> lookup.relocations[address]
            < nso.reloc_dyn.len() && nso.reloc_dyn[lookup.relocations[address] as int].offset
            == address,
{
    lemma_relocations_found(nso.reloc_dyn, nso.reloc_dyn.len(), k);
}

/// The symbol has this name, and it is not empty.
pub open spec fn is_named(
    symbol: DynamicSymbol,
    strings: Map<u64, Seq<char>>,
    name: Seq<char>,
) -> bool {
    strings.contains_key(symbol.str_table_offset as u64)
        && strings[symbol.str_table_offset as u64] == name && name.len() > 0
}

proof fn lemma_first_name(
    symbols: Seq<DynamicSymbol>,
    strings: Map<u64, Seq<char>>,
    from: int,
    k: int,
)
    requires
        0 <= from <= symbols.len(),
    ensures
        first_name(symbols, strings, from) matches Ok(name) ==> exists|i: int|
            from <= i < symbols.len() && #[trigger] is_named(symbols[i], strings, name) && (from
                <= k < i ==> !is_named(symbols[k], strings, strings[symbols[k].str_table_offset as u64])),
        from <= k < symbols.len() && is_named(
            symbols[k],
            strings,
            strings[symbols[k].str_table_offset as u64],
        ) ==> first_name(symbols, strings, from) is Ok,
    decreases symbols.len() - from,
{
    if from < symbols.len() {
        lemma_first_name(symbols, strings, from + 1, k);
        if let Ok(name) = first_name(symbols, strings, from) {
            if is_named(symbols[from], strings, strings[symbols[from].str_table_offset as u64]) {
                assert(is_named(symbols[from], strings, name));
            } else {
                let i = choose|i: int|
                    from + 1 <= i < symbols.len() && #[trigger] is_named(symbols[i], strings, name)
                        && (from + 1 <= k < i ==> !is_named(
                        symbols[k],
                        strings,
                        strings[symbols[k].str_table_offset as u64],
                    ));
                assert(is_named(symbols[i], strings, name));
            }
        }
    }
}

/// An address has the first name, not empty, that any symbol of its value has, in the order of the
/// symbol table. If no symbol has its value it has a name made for it.
pub proof fn law_addresses_have_their_first_name(
    nso: NsoView,
    lookup: LookupView,
    address: u64,
    k: int,
)
    requires
        nso.symbols.len() <= usize::MAX,
        lookup_of(nso) == Ok::<LookupView, Error>(lookup),
    ensures
        ({
            let own = nso.symbols.filter(|s: DynamicSymbol| s.value == address);
            let name = any_name(nso, lookup, address);
            &&& own.len() == 0 ==> name == Ok::<Seq<char>, Error>(fallback_name(nso, address))
            &&& own.len() > 0 && name is Ok ==> exists|i: int|
                0 <= i < own.len() && #[trigger] is_named(own[i], nso.strings, name->Ok_0) && (0
                    <= k < i ==> !is_named(
                    own[k],
                    nso.strings,
                    nso.strings[own[k].str_table_offset as u64],
                ))
            &&& 0 <= k < own.len() && is_named(
                own[k],
                nso.strings,
                nso.strings[own[k].str_table_offset as u64],
            ) ==> name is Ok
        }),
{
    law_lookup_finds_all_symbols(nso, lookup, address);
    let own = nso.symbols.filter(|s: DynamicSymbol| s.value == address);
    lemma_first_name(own, nso.strings, 0, k);
}

/// Names are those of the symbols, and each symbol with a string has one.
pub proof fn law_all_names_are_listed(
    symbols: Seq<DynamicSymbol>,
    strings: Map<u64, Seq<char>>,
    count: nat,
    k: int,
)
    requires
        count <= symbols.len(),
    ensures
        known_names(symbols, strings, count).len() <= count,
        0 <= k < count && strings.contains_key(symbols[k].str_table_offset as u64) ==> known_names(
            symbols,
            strings,
            count,
        ).contains(strings[symbols[k].str_table_offset as u64]),
        (forall|i: int|
            0 <= i < count ==> strings.contains_key((#[trigger] symbols[i]).str_table_offset as u64))
            ==> known_names(symbols, strings, count) == Seq::new(
            count,
            |i: int| strings[symbols[i].str_table_offset as u64],
        ),
    decreases count,
{
    if count > 0 {
        law_all_names_are_listed(symbols, strings, (count - 1) as nat, k);
        let before = known_names(symbols, strings, (count - 1) as nat);
        let all = known_names(symbols, strings, count);
        if 0 <= k < count && strings.contains_key(symbols[k].str_table_offset as u64) {
            let name = strings[symbols[k].str_table_offset as u64];
            if k == count - 1 {
                assert(all[before.len() as int] == name);
            } else {
                let i = before.index_of(name);
                assert(all[i] == name);
            }
        }
        if forall|i: int|
            0 <= i < count ==> strings.contains_key((#[trigger] symbols[i]).str_table_offset as u64) {
            assert(strings.contains_key(symbols[count - 1].str_table_offset as u64));
        }
    }
    assert((forall|i: int|
        0 <= i < count ==> strings.contains_key((#[trigger] symbols[i]).str_table_offset as u64))
        ==> known_names(symbols, strings, count) =~= Seq::new(
        count,
        |i: int| strings[symbols[i].str_table_offset as u64],
    ));
}

/// The starts of some sections have names of their own, and so have the ends of the relocation tables
/// and of the init array. All other addresses are named by their number.
pub proof fn law_section_bounds_have_names(nso: NsoView, address: u64, other: int)
    requires
        nso.sections.contains_key(address),
        0 <= other <= u64::MAX,
    ensures
        ({
            let here = address as int;
            let m = nso.sections;
            let name = fallback_name(nso, address);
            let text = nso.file.header.text_segment;
            &&& section_map::is_whole(m, here, other, SectionType::Plt) ==> name == "__plt_start__"@
            &&& section_map::is_whole(m, here, other, SectionType::GotPlt) ==> name
                == "__got_start__"@
            &&& section_map::is_whole(m, here, other, SectionType::Dynamic) ==> name
                == "__dynamic_start__"@
            &&& section_map::is_whole(m, here, other, SectionType::RelaPlt) ==> name
                == "__rela_plt_start"@
            &&& section_map::is_whole(m, other, here, SectionType::RelaPlt) && m[address]
                !is Plt && m[address] !is GotPlt && m[address] !is Dynamic ==> name
                == "__rela_plt_end"@
            &&& section_map::is_whole(m, here, other, SectionType::RelaDyn) && !ends_at(
                m,
                SectionType::RelaPlt,
                address,
            ) ==> name == "__rela_dyn_start"@
            &&& section_map::is_whole(m, other, here, SectionType::RelaDyn) && m[address]
                !is Plt && m[address] !is GotPlt && m[address] !is Dynamic && m[address]
                !is RelaPlt && !ends_at(m, SectionType::RelaPlt, address) ==> name
                == "__rela_dyn_end"@
            &&& section_map::is_whole(m, here, other, SectionType::InitArray) && !ends_at(
                m,
                SectionType::RelaPlt,
                address,
            ) && !ends_at(m, SectionType::RelaDyn, address) ==> name == "__init_array_start__"@
            &&& section_map::is_whole(m, other, here, SectionType::InitArray) && m[address]
                is Tbss && !ends_at(m, SectionType::RelaPlt, address) && !ends_at(
                m,
                SectionType::RelaDyn,
                address,
            ) ==> name == "__tdata_start__"@
            &&& (m[address] is Text || m[address] is Rodata || m[address] is Data || m[address]
                is Bss) && !ends_at(m, SectionType::RelaPlt, address) && !ends_at(
                m,
                SectionType::RelaDyn,
                address,
            ) && !ends_at(m, SectionType::InitArray, address) ==> name == if text.mem_offset
                <= address && address < text.mem_offset + text.mem_size {
                "loc_"@ + fmt::hex(address as nat)
            } else {
                "off_"@ + fmt::hex(address as nat)
            }
        }),
{
    let m = nso.sections;
    lemma_start_has_type(m, SectionType::Plt, address);
    lemma_start_has_type(m, SectionType::GotPlt, address);
    lemma_start_has_type(m, SectionType::Dynamic, address);
    lemma_start_has_type(m, SectionType::RelaPlt, address);
    lemma_start_has_type(m, SectionType::RelaDyn, address);
    lemma_start_has_type(m, SectionType::InitArray, address);
    lemma_bounds(m, SectionType::Plt, address, other);
    lemma_bounds(m, SectionType::GotPlt, address, other);
    lemma_bounds(m, SectionType::Dynamic, address, other);
    lemma_bounds(m, SectionType::RelaPlt, address, other);
    lemma_bounds(m, SectionType::RelaDyn, address, other);
    lemma_bounds(m, SectionType::InitArray, address, other);
}

proof fn lemma_start_has_type(m: Map<u64, SectionType>, t: SectionType, address: u64)
    ensures
        starts_at(m, t, address) ==> m.contains_key(address) && m[address] == t,
        ends_at(m, t, address) ==> !(m.contains_key(address) && m[address] == t),
{
    if section_map::section_range(m, t) is Some {
        let range = choose|range: (u64, u64)| section_map::is_first_section(m, t, range);
        assert(section_map::is_first_section(m, t, range));
        assert(m.contains_key(range.0));
    }
}

proof fn lemma_bounds(m: Map<u64, SectionType>, t: SectionType, address: u64, other: int)
    requires
        0 <= other <= u64::MAX,
    ensures
        section_map::is_whole(m, address as int, other, t) ==> starts_at(m, t, address),
        section_map::is_whole(m, other, address as int, t) ==> ends_at(m, t, address),
{
    if section_map::is_whole(m, address as int, other, t) {
        section_map::lemma_whole_section(m, address as int, other, t);
    }
    if section_map::is_whole(m, other, address as int, t) {
        section_map::lemma_whole_section(m, other, address as int, t);
    }
}

/// The entry of the symbol number `k` has the name of that symbol.
pub proof fn law_entries_are_named_by_their_symbol(nso: NsoView, k: int, target: u64)
    requires
        target == nso.symbol_offset + 24 * k,
        0 <= k < nso.symbols.len(),
    ensures
        nso.strings.contains_key(nso.symbols[k].str_table_offset as u64) ==> entry_name(nso, target)
            == Ok::<Seq<char>, Error>(nso.strings[nso.symbols[k].str_table_offset as u64]),
        !nso.strings.contains_key(nso.symbols[k].str_table_offset as u64) ==> entry_name(
            nso,
            target,
        ) is Err,
{
}

/// An entry of the global offset table is named by what it points to, and only if it has a target of a
/// known type: by the symbol, if it is for one without an addend, and else by the address.
pub proof fn law_got_entries_are_named_by_their_target(
    nso: NsoView,
    lookup: LookupView,
    refs: Tables,
    address: u64,
)
    requires
        nso.sections.contains_key(address),
        refs.sources.contains_key(address),
        refs.types.contains_key(refs.sources[address].1),
    ensures
        ({
            let (_, target) = refs.sources[address];
            let known = refs.types[target];
            let name = got_target_name(nso, lookup, refs, address);
            &&& (nso.sections[address] is Got || nso.sections[address] is GotPlt)
                && known !is SymbolAbsolute ==> name == any_name(nso, lookup, target)
            &&& (nso.sections[address] is Got || nso.sections[address] is GotPlt)
                && known == DataRefType::SymbolAbsolute(0) ==> name == entry_name(nso, target)
            &&& known is SymbolAbsolute && known->SymbolAbsolute_0 != 0 ==> name is Err
            &&& nso.sections[address] !is Got && nso.sections[address] !is GotPlt ==> name is Err
        }),
{
}

} // verus!
