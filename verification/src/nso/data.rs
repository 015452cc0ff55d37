//! Data as assembly.

use vstd::prelude::*;
use vstd::slice::*;

use crate::bytes::{self, offset_address, read_u16, read_u32, read_u64, read_u8, to_i32, to_i64};
use crate::error::Error;
use crate::fmt::{self, format_decimal, format_decimal_signed, format_hex_padded};
use crate::lines::{
    self, put_byte, put_global_labels, put_line, put_line_of_four,
    put_line_of_two,
};
use crate::nso::floats::{self, FloatTexts, FloatView};
use crate::nso::lookup::{self, LookupView, NsoLookupHelper};
use crate::nso::nso::{NsoView, NSO};
use crate::reference_tracker::{DataRefType, References, Tables};

verus! {

/// A binary with all that is needed to name what its data points to.
pub struct Exporter<'a> {
    pub nso: &'a NSO,
    pub helper: &'a NsoLookupHelper,
    pub references: &'a References,
}

/// What an [`Exporter`] knows.
pub struct ExportView {
    pub nso: NsoView,
    pub lookup: LookupView,
    pub refs: Tables,
}

impl<'a> View for Exporter<'a> {
    type V = ExportView;

    open spec fn view(&self) -> ExportView {
        ExportView { nso: self.nso@, lookup: self.helper@, refs: self.references@ }
    }
}

impl ExportView {
    /// The lookup belongs to the symbol table.
    pub open spec fn wf(self) -> bool {
        self.lookup.fits(self.nso.symbols.len())
    }

    /// A name for an address.
    pub open spec fn name(self, address: u64) -> Result<Seq<char>, Error> {
        lookup::any_name(self.nso, self.lookup, address)
    }

    /// All names of an address.
    pub open spec fn names(self, address: u64) -> Seq<Seq<char>> {
        lookup::all_names(self.nso, self.lookup, address)
    }
}

/// What is written for a part of the data: the text, and where the next part starts.
pub struct Progress {
    pub text: Seq<char>,
    pub pos: int,
}

/// The address of something in the data of a section.
pub open spec fn address_at(section_offset: u64, pos: int) -> Result<u64, Error> {
    if section_offset + pos > u64::MAX {
        Err(Error::Overflow)
    } else {
        Ok((section_offset + pos) as u64)
    }
}

/// Data that holds a pointer may be known as an object, as a number of its size, or not at all.
pub open spec fn may_hold_pointer(refs: Tables, address: u64) -> bool {
    refs.types.contains_key(address) ==> match refs.types[address] {
        DataRefType::Object(_) | DataRefType::Unknown | DataRefType::Int64 => true,
        _ => false,
    }
}

/// A pointer by the name of what it points to.
pub open spec fn pointer_entry(
    e: ExportView,
    data: Seq<u8>,
    address: u64,
    target: u64,
    p: Progress,
) -> Result<Progress, Error> {
    match bytes::le_read(data, p.pos, 8) {
        Err(error) => Err(error),
        Ok(value) => if value != target {
            Err(Error::DataMismatch { address })
        } else if !may_hold_pointer(e.refs, address) {
            Err(Error::NotAPointer { address })
        } else {
            match e.name(target) {
                Err(error) => Err(error),
                Ok(name) => Ok(
                    Progress {
                        text: lines::line_of_two(p.text, "\t.quad "@, name),
                        pos: p.pos + 8,
                    },
                ),
            }
        },
    }
}

/// A pointer by a symbol and the distance from it.
pub open spec fn symbol_entry(
    e: ExportView,
    data: Seq<u8>,
    address: u64,
    target: u64,
    addend: i64,
    p: Progress,
) -> Result<Progress, Error> {
    match bytes::le_read(data, p.pos, 8) {
        Err(error) => Err(error),
        Ok(value) => if bytes::signed(value, 0x8000_0000_0000_0000) != addend {
            Err(Error::DataMismatch { address })
        } else {
            match lookup::entry_name(e.nso, target) {
                Err(error) => Err(error),
                Ok(name) => Ok(
                    Progress {
                        text: lines::line_of_four(
                            p.text,
                            "\t.quad "@,
                            name,
                            "+"@,
                            fmt::decimal(addend as int),
                        ),
                        pos: p.pos + 8,
                    },
                ),
            }
        },
    }
}

/// One entry of the jump table at `table`: the distance from the table to the code.
pub open spec fn jump_entry(e: ExportView, data: Seq<u8>, table: u64, p: Progress) -> Result<
    Progress,
    Error,
> {
    match bytes::le_read(data, p.pos, 4) {
        Err(error) => Err(error),
        Ok(value) => {
            let target = bytes::wrap64(table + bytes::signed(value, 0x8000_0000));
            match (e.name(target), e.name(table)) {
                (Err(error), _) => Err(error),
                (Ok(_), Err(error)) => Err(error),
                (Ok(target_name), Ok(table_name)) => Ok(
                    Progress {
                        text: lines::line_of_four(
                            p.text,
                            "\t.word "@,
                            target_name,
                            " - "@,
                            table_name,
                        ),
                        pos: p.pos + 4,
                    },
                ),
            }
        },
    }
}

/// The last `count` entries of the jump table at `table`.
pub open spec fn jump_table_entries(
    e: ExportView,
    data: Seq<u8>,
    table: u64,
    count: nat,
    p: Progress,
) -> Result<Progress, Error>
    decreases count,
{
    if count == 0 {
        Ok(p)
    } else {
        match jump_entry(e, data, table, p) {
            Err(error) => Err(error),
            Ok(next) => jump_table_entries(e, data, table, (count - 1) as nat, next),
        }
    }
}

/// A number of `size` bytes in hexadecimal, with all its digits.
pub open spec fn number_entry(data: Seq<u8>, directive: Seq<char>, size: nat, p: Progress) -> Result<
    Progress,
    Error,
> {
    match bytes::le_read(data, p.pos, size) {
        Err(error) => Err(error),
        Ok(value) => Ok(
            Progress {
                text: lines::line_of_two(
                    p.text,
                    directive,
                    fmt::hex_padded(value as nat, 2 * size),
                ),
                pos: p.pos + size,
            },
        ),
    }
}

/// A floating-point number of 32 bits: its bits in decimal, and its value in a comment.
pub open spec fn single_entry(
    floats: FloatView,
    data: Seq<u8>,
    address: u64,
    p: Progress,
) -> Result<Progress, Error> {
    match bytes::le_read(data, p.pos, 4) {
        Err(error) => Err(error),
        Ok(value) => if !floats.singles.contains_key(value as u32) {
            Err(Error::FloatWithoutText { address })
        } else {
            Ok(
                Progress {
                    text: lines::line_of_four(
                        p.text,
                        "\t.word "@,
                        fmt::decimal(value),
                        "  // float: "@,
                        floats.singles[value as u32],
                    ),
                    pos: p.pos + 4,
                },
            )
        },
    }
}

/// A floating-point number of 64 bits: its bits in decimal, and its value in a comment.
pub open spec fn double_entry(
    floats: FloatView,
    data: Seq<u8>,
    address: u64,
    p: Progress,
) -> Result<Progress, Error> {
    match bytes::le_read(data, p.pos, 8) {
        Err(error) => Err(error),
        Ok(value) => if !floats.doubles.contains_key(value as u64) {
            Err(Error::FloatWithoutText { address })
        } else {
            Ok(
                Progress {
                    text: lines::line_of_four(
                        p.text,
                        "\t.quad "@,
                        fmt::decimal(value),
                        "  // double: "@,
                        floats.doubles[value as u64],
                    ),
                    pos: p.pos + 8,
                },
            )
        },
    }
}

/// Single bytes.
pub open spec fn byte_entries(data: Seq<u8>, count: nat, p: Progress) -> Result<Progress, Error>
    decreases count,
{
    if count == 0 {
        Ok(p)
    } else {
        match number_entry(data, "\t.byte 0x"@, 1, p) {
            Err(error) => Err(error),
            Ok(next) => byte_entries(data, (count - 1) as nat, next),
        }
    }
}

/// Data of a known type.
pub open spec fn typed_entry(
    floats: FloatView,
    data: Seq<u8>,
    address: u64,
    data_type: DataRefType,
    p: Progress,
) -> Result<Progress, Error> {
    match data_type {
        DataRefType::Int8 => number_entry(data, "\t.byte 0x"@, 1, p),
        DataRefType::Int16 => number_entry(data, "\t.short 0x"@, 2, p),
        DataRefType::Int32 => number_entry(data, "\t.word 0x"@, 4, p),
        DataRefType::Int64 => number_entry(data, "\t.quad 0x"@, 8, p),
        DataRefType::Float32 => single_entry(floats, data, address, p),
        DataRefType::Float64 => double_entry(floats, data, address, p),
        DataRefType::Float128 => byte_entries(data, 16, p),
        DataRefType::Object(_) => number_entry(data, "\t.byte 0x"@, 1, p),
        DataRefType::Unknown => number_entry(data, "\t.byte 0x"@, 1, p),
        _ => Err(Error::UnsupportedDataType),
    }
}

/// Data that refers to `target`.
pub open spec fn reference_entry(
    e: ExportView,
    data: Seq<u8>,
    address: u64,
    target: u64,
    p: Progress,
) -> Result<Progress, Error> {
    if !e.refs.types.contains_key(target) {
        Err(Error::TargetWithoutType { address })
    } else {
        match e.refs.types[target] {
            DataRefType::SymbolAbsolute(addend) => symbol_entry(
                e,
                data,
                address,
                target,
                addend,
                p,
            ),
            DataRefType::Code => if e.refs.types.contains_key(address) {
                match e.refs.types[address] {
                    DataRefType::JumpTable(size) => jump_table_entries(
                        e,
                        data,
                        address,
                        size as nat,
                        p,
                    ),
                    _ => pointer_entry(e, data, address, target, p),
                }
            } else {
                pointer_entry(e, data, address, target, p)
            },
            _ => pointer_entry(e, data, address, target, p),
        }
    }
}

/// The data at `address`, which refers to `target`, is a jump table.
pub open spec fn is_jump_table(refs: Tables, address: u64, target: u64) -> bool {
    refs.types.get(target) == Some(DataRefType::Code) && refs.types.get(address) matches Some(
        DataRefType::JumpTable(_),
    )
}

/// The entry at `address` has more than one part, each on a line of its own.
pub open spec fn is_in_parts(refs: Tables, address: int) -> bool {
    let address = address as u64;
    if refs.sources.contains_key(address) {
        is_jump_table(refs, address, refs.sources[address].1)
    } else {
        refs.types.get(address) == Some(DataRefType::Float128)
    }
}

/// The next entry of the data.
pub open spec fn data_entry(
    e: ExportView,
    floats: FloatView,
    data: Seq<u8>,
    section_offset: u64,
    p: Progress,
) -> Result<Progress, Error> {
    match address_at(section_offset, p.pos) {
        Err(error) => Err(error),
        Ok(address) => if e.refs.sources.contains_key(address) {
            reference_entry(e, data, address, e.refs.sources[address].1, p)
        } else if e.refs.types.contains_key(address) {
            typed_entry(floats, data, address, e.refs.types[address], p)
        } else {
            number_entry(data, "\t.byte 0x"@, 1, p)
        },
    }
}

/// The entry at `address` is a jump table without entries.
pub open spec fn is_empty_jump_table(refs: Tables, address: u64) -> bool {
    refs.sources.contains_key(address) && is_jump_table(
        refs,
        address,
        refs.sources[address].1,
    ) && refs.types[address] == DataRefType::JumpTable(0)
}

/// An entry takes up at least one byte of the data, and no more than there are. Only a jump table
/// without entries takes up none.
pub proof fn law_entries_advance(
    e: ExportView,
    floats: FloatView,
    data: Seq<u8>,
    section_offset: u64,
    p: Progress,
)
    requires
        0 <= p.pos,
    ensures
        data_entry(e, floats, data, section_offset, p) matches Ok(next) ==> if is_empty_jump_table(
            e.refs,
            (section_offset + p.pos) as u64,
        ) {
            next == p
        } else {
            p.pos < next.pos <= data.len()
        },
{
    match address_at(section_offset, p.pos) {
        Err(_) => {},
        Ok(address) => {
            if e.refs.sources.contains_key(address) {
                if let Some(DataRefType::JumpTable(size)) = e.refs.types.get(address) {
                    lemma_jump_table_advances(e, data, address, size as nat, p);
                }
            } else if e.refs.types.contains_key(address) {
                lemma_bytes_advance(data, 16, p);
            }
        },
    }
}

proof fn lemma_bytes_advance(data: Seq<u8>, count: nat, p: Progress)
    ensures
        byte_entries(data, count, p) matches Ok(next) ==> next.pos == p.pos + count && (count > 0
            ==> next.pos <= data.len()),
    decreases count,
{
    if count > 0 {
        if let Ok(next) = number_entry(data, "\t.byte 0x"@, 1, p) {
            lemma_bytes_advance(data, (count - 1) as nat, next);
        }
    }
}

proof fn lemma_jump_table_advances(
    e: ExportView,
    data: Seq<u8>,
    table: u64,
    count: nat,
    p: Progress,
)
    ensures
        jump_table_entries(e, data, table, count, p) matches Ok(next) ==> next.pos == p.pos + 4
            * count && (count > 0 ==> next.pos <= data.len()),
    decreases count,
{
    if count > 0 {
        if let Ok(next) = jump_entry(e, data, table, p) {
            lemma_jump_table_advances(e, data, table, (count - 1) as nat, next);
        }
    }
}

/// All entries up to `end`. Where a jump table has no entries, they never get there.
pub open spec fn data_entries(
    e: ExportView,
    floats: FloatView,
    data: Seq<u8>,
    section_offset: u64,
    end: int,
    p: Progress,
) -> Result<Progress, Error>
    decreases
            if p.pos < end {
                end - p.pos
            } else {
                0
            },
{
    if p.pos < 0 || p.pos >= end {
        Ok(p)
    } else {
        match data_entry(e, floats, data, section_offset, p) {
            Err(error) => Err(error),
            Ok(next) => if next.pos <= p.pos {
                Err(Error::EmptyJumpTable { address: (section_offset + p.pos) as u64 })
            } else {
                data_entries(e, floats, data, section_offset, end, next)
            },
        }
    }
}

/// The first address from `from` on that something refers to, at most `end`.
pub open spec fn next_referenced(types: Map<u64, DataRefType>, from: int, end: int) -> int
    decreases end - from,
{
    if from >= end {
        end
    } else if types.contains_key(from as u64) {
        from
    } else {
        next_referenced(types, from + 1, end)
    }
}

/// How many low bits of the address are zero, between one and four. One is the least that is told.
pub open spec fn alignment(address: u64) -> int {
    if address % 16 == 0 {
        4
    } else if address % 8 == 0 {
        3
    } else if address % 4 == 0 {
        2
    } else {
        1
    }
}

/// `text` with the alignment of the address, unless any address has it.
pub open spec fn aligned(text: Seq<char>, address: u64) -> Seq<char> {
    if alignment(address) > 1 {
        lines::line_of_two(text, ".align "@, fmt::decimal(alignment(address)))
    } else {
        text
    }
}

/// A part of the data with its labels. Nothing may refer into it.
pub open spec fn data_chunk(
    e: ExportView,
    floats: FloatView,
    data: Seq<u8>,
    section_offset: u64,
    length: int,
    align: bool,
    p: Progress,
) -> Result<Progress, Error> {
    let end = p.pos + length;
    if section_offset + end > u64::MAX {
        Err(Error::Overflow)
    } else {
        let address = (section_offset + p.pos) as u64;
        let missed = next_referenced(e.refs.types, address + 1, section_offset + end);
        if missed < section_offset + end {
            Err(Error::MissedReference { address: missed as u64 })
        } else {
            let start = if align {
                aligned(p.text, address)
            } else {
                p.text
            };
            let labelled = lines::global_labels(start, e.names(address), 0);
            match data_entries(
                e,
                floats,
                data,
                section_offset,
                end,
                Progress { text: labelled, pos: p.pos },
            ) {
                Err(error) => Err(error),
                Ok(next) => if next.pos != end {
                    Err(Error::ChunkOverrun { address })
                } else {
                    Ok(next)
                },
            }
        }
    }
}

/// Nothing refers into the part of the data at `pos`, so that it is begun.
pub open spec fn is_begun(e: ExportView, section_offset: u64, length: int, pos: int) -> bool {
    let end = section_offset + pos + length;
    end <= u64::MAX && next_referenced(e.refs.types, section_offset + pos + 1, end) == end
}

impl<'a> Exporter<'a> {
    fn name(&self, address: u64) -> (r: Result<String, Error>)
        requires
            self@.wf(),
        ensures
            match r {
                Ok(name) => self@.name(address) == Ok::<Seq<char>, Error>(name@),
                Err(error) => self@.name(address) == Err::<Seq<char>, Error>(error),
            },
    {
        self.nso.get_any_symbol(address, self.helper)
    }

    fn put_pointer(&self, out: &mut String, data: &[u8], pos: usize, address: u64, target: u64) -> (r:
        Result<usize, Error>)
        requires
            self@.wf(),
        ensures
            ({
                let p = Progress { text: old(out)@, pos: pos as int };
                match r {
                    Ok(next) => pointer_entry(self@, data@, address, target, p) == Ok::<
                        Progress,
                        Error,
                    >(Progress { text: final(out)@, pos: next as int }),
                    Err(error) => pointer_entry(self@, data@, address, target, p) == Err::<
                        Progress,
                        Error,
                    >(error) && final(out)@ == old(out)@,
                }
            }),
    {
        let length: usize = data.len();
        let value: u64 = read_u64(data, pos)?;
        if value != target {
            return Err(Error::DataMismatch { address });
        }
        match self.references.get_type_of(address) {
            None => {},
            Some(DataRefType::Object(_)) => {},
            Some(DataRefType::Unknown) => {},
            Some(DataRefType::Int64) => {},
            Some(_) => {
                return Err(Error::NotAPointer { address });
            },
        }
        let name = self.name(target)?;
        put_line_of_two(out, "\t.quad ", name.as_str());
        Ok(pos + 8)
    }

    fn put_symbol(
        &self,
        out: &mut String,
        data: &[u8],
        pos: usize,
        address: u64,
        target: u64,
        addend: i64,
    ) -> (r: Result<usize, Error>)
        ensures
            ({
                let p = Progress { text: old(out)@, pos: pos as int };
                match r {
                    Ok(next) => symbol_entry(self@, data@, address, target, addend, p) == Ok::<
                        Progress,
                        Error,
                    >(Progress { text: final(out)@, pos: next as int }),
                    Err(error) => symbol_entry(self@, data@, address, target, addend, p) == Err::<
                        Progress,
                        Error,
                    >(error) && final(out)@ == old(out)@,
                }
            }),
    {
        let length: usize = data.len();
        let value: i64 = to_i64(read_u64(data, pos)?);
        if value != addend {
            return Err(Error::DataMismatch { address });
        }
        let name = self.nso.get_entry_name(target)?;
        put_line_of_four(
            out,
            "\t.quad ",
            name.as_str(),
            "+",
            format_decimal_signed(addend).as_str(),
        );
        Ok(pos + 8)
    }

    fn put_jump_table(&self, out: &mut String, data: &[u8], pos: usize, table: u64, size: u64) -> (r:
        Result<usize, Error>)
        requires
            self@.wf(),
        ensures
            ({
                let p = Progress { text: old(out)@, pos: pos as int };
                match r {
                    Ok(next) => jump_table_entries(self@, data@, table, size as nat, p) == Ok::<
                        Progress,
                        Error,
                    >(Progress { text: final(out)@, pos: next as int }),
                    Err(error) => jump_table_entries(self@, data@, table, size as nat, p) == Err::<
                        Progress,
                        Error,
                    >(error) && lines::goes_on(old(out)@, final(out)@),
                }
            }),
    {
        proof {
            lines::lemma_stays(out@);
        }
        let length: usize = data.len();
        let ghost p = Progress { text: out@, pos: pos as int };
        let mut at: usize = pos;
        let mut i: u64 = 0;
        while i < size
            invariant
                i <= size,
                length == data@.len(),
                self@.wf(),
                p == (Progress { text: old(out)@, pos: pos as int }),
                jump_table_entries(self@, data@, table, size as nat, p) == jump_table_entries(
                    self@,
                    data@,
                    table,
                    (size - i) as nat,
                    Progress { text: out@, pos: at as int },
                ),
                lines::goes_on(old(out)@, out@),
            decreases size - i,
        {
            let ghost before = out@;
            let value: u32 = read_u32(data, at)?;
            let target: u64 = offset_address(table, to_i32(value) as i64);
            let target_name = self.name(target)?;
            let table_name = self.name(table)?;
            put_line_of_four(out, "\t.word ", target_name.as_str(), " - ", table_name.as_str());
            proof {
                lines::lemma_line_of_four_goes_on(
                    before,
                    "\t.word "@,
                    target_name@,
                    " - "@,
                    table_name@,
                );
                lines::lemma_goes_on(old(out)@, before, out@);
            }
            at = at + 4;
            i = i + 1;
        }
        Ok(at)
    }

    fn put_bytes(out: &mut String, data: &[u8], pos: usize, count: usize) -> (r: Result<
        usize,
        Error,
    >)
        ensures
            ({
                let p = Progress { text: old(out)@, pos: pos as int };
                match r {
                    Ok(next) => byte_entries(data@, count as nat, p) == Ok::<Progress, Error>(
                        Progress { text: final(out)@, pos: next as int },
                    ),
                    Err(error) => byte_entries(data@, count as nat, p) == Err::<Progress, Error>(
                        error,
                    ) && lines::goes_on(old(out)@, final(out)@),
                }
            }),
    {
        proof {
            lines::lemma_stays(out@);
        }
        let length: usize = data.len();
        let ghost p = Progress { text: out@, pos: pos as int };
        let mut at: usize = pos;
        let mut i: usize = 0;
        while i < count
            invariant
                i <= count,
                length == data@.len(),
                p == (Progress { text: old(out)@, pos: pos as int }),
                byte_entries(data@, count as nat, p) == byte_entries(
                    data@,
                    (count - i) as nat,
                    Progress { text: out@, pos: at as int },
                ),
                lines::goes_on(old(out)@, out@),
            decreases count - i,
        {
            let ghost before = out@;
            let value: u8 = read_u8(data, at)?;
            put_byte(out, value);
            proof {
                lines::lemma_line_of_two_goes_on(
                    before,
                    "\t.byte 0x"@,
                    fmt::hex_padded(value as nat, 2),
                );
                lines::lemma_goes_on(old(out)@, before, out@);
            }
            at = at + 1;
            i = i + 1;
        }
        Ok(at)
    }

    fn put_typed(
        out: &mut String,
        data: &[u8],
        pos: usize,
        address: u64,
        data_type: DataRefType,
        floats: &FloatTexts,
    ) -> (r: Result<usize, Error>)
        ensures
            ({
                let p = Progress { text: old(out)@, pos: pos as int };
                match r {
                    Ok(next) => typed_entry(floats@, data@, address, data_type, p) == Ok::<
                        Progress,
                        Error,
                    >(Progress { text: final(out)@, pos: next as int }),
                    Err(error) => typed_entry(floats@, data@, address, data_type, p) == Err::<
                        Progress,
                        Error,
                    >(error) && lines::goes_on(old(out)@, final(out)@) && (data_type
                        == DataRefType::Float128 || final(out)@ == old(out)@),
                }
            }),
    {
        proof {
            lines::lemma_stays(out@);
        }
        let length: usize = data.len();
        match data_type {
            DataRefType::Int8 | DataRefType::Object(_) | DataRefType::Unknown => {
                let value: u8 = read_u8(data, pos)?;
                put_byte(out, value);
                Ok(pos + 1)
            },
            DataRefType::Int16 => {
                let value: u16 = read_u16(data, pos)?;
                let digits = format_hex_padded(value as u64, 4);
                put_line_of_two(out, "\t.short 0x", digits.as_str());
                Ok(pos + 2)
            },
            DataRefType::Int32 => {
                let value: u32 = read_u32(data, pos)?;
                let digits = format_hex_padded(value as u64, 8);
                put_line_of_two(out, "\t.word 0x", digits.as_str());
                Ok(pos + 4)
            },
            DataRefType::Int64 => {
                let value: u64 = read_u64(data, pos)?;
                let digits = format_hex_padded(value, 16);
                put_line_of_two(out, "\t.quad 0x", digits.as_str());
                Ok(pos + 8)
            },
            DataRefType::Float32 => {
                let bits: u32 = read_u32(data, pos)?;
                let value: &str = match floats.get_single(bits) {
                    Some(value) => value.as_str(),
                    None => {
                        return Err(Error::FloatWithoutText { address });
                    },
                };
                let digits = format_decimal(bits as u64);
                put_line_of_four(out, "\t.word ", digits.as_str(), "  // float: ", value);
                Ok(pos + 4)
            },
            DataRefType::Float64 => {
                let bits: u64 = read_u64(data, pos)?;
                let value: &str = match floats.get_double(bits) {
                    Some(value) => value.as_str(),
                    None => {
                        return Err(Error::FloatWithoutText { address });
                    },
                };
                let digits = format_decimal(bits);
                put_line_of_four(out, "\t.quad ", digits.as_str(), "  // double: ", value);
                Ok(pos + 8)
            },
            DataRefType::Float128 => Self::put_bytes(out, data, pos, 16),
            _ => Err(Error::UnsupportedDataType),
        }
    }

    fn put_reference(
        &self,
        out: &mut String,
        data: &[u8],
        pos: usize,
        address: u64,
        target: u64,
    ) -> (r: Result<usize, Error>)
        requires
            self@.wf(),
        ensures
            ({
                let p = Progress { text: old(out)@, pos: pos as int };
                match r {
                    Ok(next) => reference_entry(self@, data@, address, target, p) == Ok::<
                        Progress,
                        Error,
                    >(Progress { text: final(out)@, pos: next as int }),
                    Err(error) => reference_entry(self@, data@, address, target, p) == Err::<
                        Progress,
                        Error,
                    >(error) && lines::goes_on(old(out)@, final(out)@) && (is_jump_table(
                        self@.refs,
                        address,
                        target,
                    ) || final(out)@ == old(out)@),
                }
            }),
    {
        proof {
            lines::lemma_stays(out@);
        }
        match self.references.get_type_of(target) {
            None => Err(Error::TargetWithoutType { address }),
            Some(DataRefType::SymbolAbsolute(addend)) => self.put_symbol(
                out,
                data,
                pos,
                address,
                target,
                addend,
            ),
            Some(DataRefType::Code) => match self.references.get_type_of(address) {
                Some(DataRefType::JumpTable(size)) => self.put_jump_table(
                    out,
                    data,
                    pos,
                    address,
                    size,
                ),
                _ => self.put_pointer(out, data, pos, address, target),
            },
            Some(_) => self.put_pointer(out, data, pos, address, target),
        }
    }

    /// Writes the next entry of the data, which starts at `pos`. The result is where the entry
    /// behind it starts. Where there is an error, nothing is written but the first parts of an entry
    /// that has more than one. `floats` says how the values of floating-point numbers are written.
    pub fn export_data_entry(
        &self,
        out: &mut String,
        data: &[u8],
        pos: usize,
        section_offset: u64,
        floats: &FloatTexts,
    ) -> (r: Result<usize, Error>)
        requires
            self@.wf(),
        ensures
            ({
                let p = Progress { text: old(out)@, pos: pos as int };
                match r {
                    Ok(next) => data_entry(self@, floats@, data@, section_offset, p) == Ok::<
                        Progress,
                        Error,
                    >(Progress { text: final(out)@, pos: next as int }),
                    Err(error) => data_entry(self@, floats@, data@, section_offset, p) == Err::<
                        Progress,
                        Error,
                    >(error) && lines::goes_on(old(out)@, final(out)@) && (is_in_parts(
                        self@.refs,
                        section_offset + pos,
                    ) || final(out)@ == old(out)@),
                }
            }),
    {
        proof {
            lines::lemma_stays(out@);
        }
        let length: usize = data.len();
        if pos as u64 > u64::MAX - section_offset {
            return Err(Error::Overflow);
        }
        let address: u64 = section_offset + pos as u64;
        match self.references.get_target_address(address) {
            Some(target) => self.put_reference(out, data, pos, address, target),
            None => match self.references.get_type_of(address) {
                Some(data_type) => Self::put_typed(
                    out,
                    data,
                    pos,
                    address,
                    data_type,
                    floats,
                ),
                None => {
                    let value: u8 = read_u8(data, pos)?;
                    put_byte(out, value);
                    Ok(pos + 1)
                },
            },
        }
    }

    /// Writes a part of the data of a section, from `pos` on, with its labels. Nothing is written
    /// where something refers into it.
    pub fn export_data_chunk(
        &self,
        out: &mut String,
        data: &[u8],
        pos: usize,
        length: u64,
        section_offset: u64,
        align: bool,
        floats: &FloatTexts,
    ) -> (r: Result<usize, Error>)
        requires
            self@.wf(),
        ensures
            ({
                let p = Progress { text: old(out)@, pos: pos as int };
                match r {
                    Ok(next) => data_chunk(
                        self@,
                        floats@,
                        data@,
                        section_offset,
                        length as int,
                        align,
                        p,
                    ) == Ok::<Progress, Error>(Progress { text: final(out)@, pos: next as int }),
                    Err(error) => data_chunk(
                        self@,
                        floats@,
                        data@,
                        section_offset,
                        length as int,
                        align,
                        p,
                    ) == Err::<Progress, Error>(error) && lines::goes_on(
                        old(out)@,
                        final(out)@,
                    ) && (is_begun(self@, section_offset, length as int, pos as int)
                        || final(out)@ == old(out)@),
                }
            }),
    {
        let ghost p = Progress { text: out@, pos: pos as int };
        proof {
            lines::lemma_stays(out@);
        }
        if length > u64::MAX - section_offset || pos as u64 > u64::MAX - section_offset - length {
            return Err(Error::Overflow);
        }
        let address: u64 = section_offset + pos as u64;
        let end: u64 = address + length;
        let missed: u64 = find_referenced(self.references, address, end);
        if missed < end {
            return Err(Error::MissedReference { address: missed });
        }
        if align {
            put_alignment(out, address);
        }
        let ghost start = out@;
        let names = self.nso.get_all_symbols(address, self.helper);
        put_global_labels(out, &names);
        proof {
            lines::lemma_line_of_two_goes_on(
                p.text,
                ".align "@,
                fmt::decimal(alignment(address)),
            );
            lines::lemma_global_labels_go_on(start, self@.names(address), 0);
            lines::lemma_goes_on(p.text, start, out@);
            lemma_next_referenced(self@.refs.types, address + 1, end as int);
        }
        let ghost labelled = Progress { text: out@, pos: pos as int };
        let mut at: usize = pos;
        while (at as u64) < end - section_offset
            invariant
                self@.wf(),
                section_offset <= address <= end,
                end == section_offset + pos + length,
                p == (Progress { text: old(out)@, pos: pos as int }),
                data_chunk(self@, floats@, data@, section_offset, length as int, align, p) == (
                match data_entries(self@, floats@, data@, section_offset, pos + length, labelled) {
                    Err(error) => Err::<Progress, Error>(error),
                    Ok(next) => if next.pos != pos + length {
                        Err(Error::ChunkOverrun { address })
                    } else {
                        Ok(next)
                    },
                }),
                data_entries(self@, floats@, data@, section_offset, pos + length, labelled) == data_entries(
                    self@,
                    floats@,
                    data@,
                    section_offset,
                    pos + length,
                    Progress { text: out@, pos: at as int },
                ),
                is_begun(self@, section_offset, length as int, pos as int),
                lines::goes_on(old(out)@, out@),
            decreases
                    if at < pos + length {
                        pos + length - at
                    } else {
                        0
                    },
        {
            let ghost reached = Progress { text: out@, pos: at as int };
            proof {
                lemma_entry_goes_on(self@, floats@, data@, section_offset, reached);
            }
            let next: usize = match self.export_data_entry(
                out,
                data,
                at,
                section_offset,
                floats,
            ) {
                Ok(next) => next,
                Err(error) => {
                    proof {
                        lines::lemma_goes_on(old(out)@, reached.text, out@);
                    }
                    return Err(error);
                },
            };
            proof {
                lines::lemma_goes_on(old(out)@, reached.text, out@);
            }
            if next <= at {
                return Err(Error::EmptyJumpTable { address: section_offset + at as u64 });
            }
            at = next;
        }
        if at as u64 != end - section_offset {
            return Err(Error::ChunkOverrun { address });
        }
        Ok(at)
    }
}

/// Finds the first address behind `address` that something refers to, at most `end`.
pub fn find_referenced(references: &References, address: u64, end: u64) -> (r: u64)
    ensures
        r == next_referenced(references@.types, address + 1, end as int),
{
    if address >= end {
        return end;
    }
    let mut at: u64 = address + 1;
    while at < end
        invariant
            address < at <= end,
            next_referenced(references@.types, address + 1, end as int) == next_referenced(
                references@.types,
                at as int,
                end as int,
            ),
        decreases end - at,
    {
        if references.has_references_to(at) {
            return at;
        }
        at = at + 1;
    }
    end
}

fn put_alignment(out: &mut String, address: u64)
    ensures
        final(out)@ == aligned(old(out)@, address),
{
    let bits: u64 = if address % 16 == 0 {
        4
    } else if address % 8 == 0 {
        3
    } else if address % 4 == 0 {
        2
    } else {
        1
    };
    if bits > 1 {
        put_line_of_two(out, ".align ", format_decimal(bits).as_str());
    }
}

/// `next_referenced` is the first address from `from` on that something refers to.
pub proof fn lemma_next_referenced(types: Map<u64, DataRefType>, from: int, end: int)
    ensures
        ({
            let next = next_referenced(types, from, end);
            &&& next <= end
            &&& from <= end ==> from <= next
            &&& next < end ==> types.contains_key(next as u64)
            &&& forall|a: int| from <= a < next ==> !types.contains_key(#[trigger] (a as u64))
        }),
    decreases end - from,
{
    if from < end && !types.contains_key(from as u64) {
        lemma_next_referenced(types, from + 1, end);
    }
}

/// All data of a section, piece by piece. A piece reaches up to the next address that something
/// refers to.
pub open spec fn data_chunks(
    e: ExportView,
    floats: FloatView,
    data: Seq<u8>,
    offset: u64,
    p: Progress,
) -> Result<Progress, Error>
    decreases data.len() - p.pos,
{
    if p.pos >= data.len() {
        Ok(p)
    } else {
        let end = next_referenced(e.refs.types, offset + p.pos + 1, offset + data.len()) - offset;
        match data_chunk(e, floats, data, offset, end - p.pos, true, p) {
            Err(error) => Err(error),
            Ok(next) => {
                proof {
                    lemma_next_referenced(
                        e.refs.types,
                        offset + p.pos + 1,
                        offset + data.len(),
                    );
                }
                data_chunks(e, floats, data, offset, next)
            },
        }
    }
}

/// A section of data.
pub open spec fn data_section(
    e: ExportView,
    floats: FloatView,
    header: Seq<char>,
    size: u64,
    offset: u64,
) -> Result<Seq<char>, Error> {
    let memory = e.nso.file.memory;
    if offset + size > memory.len() {
        Err(Error::OutOfBounds)
    } else {
        let start = lines::line(lines::line(""@, header), ""@);
        match data_chunks(
            e,
            floats,
            memory.subrange(offset as int, offset + size),
            offset,
            Progress { text: start, pos: 0 },
        ) {
            Err(error) => Err(error),
            Ok(end) => Ok(end.text),
        }
    }
}

impl<'a> Exporter<'a> {
    /// Writes the data of `size` bytes at `offset` as a section.
    pub fn export_data_section(
        &self,
        header: &str,
        size: u64,
        offset: u64,
        floats: &FloatTexts,
    ) -> (r: Result<String, Error>)
        requires
            self@.wf(),
        ensures
            match r {
                Ok(text) => data_section(self@, floats@, header@, size, offset) == Ok::<Seq<char>, Error>(
                    text@,
                ),
                Err(error) => data_section(self@, floats@, header@, size, offset) == Err::<
                    Seq<char>,
                    Error,
                >(error),
            },
    {
        let total: u64 = self.nso.file.memory.len() as u64;
        if offset > total || size > total - offset {
            return Err(Error::OutOfBounds);
        }
        let start: usize = offset as usize;
        let end: usize = (offset + size) as usize;
        let data: &[u8] = slice_subrange(self.nso.file.memory.as_slice(), start, end);
        let length: usize = data.len();
        let mut out = String::from_str("");
        put_line(&mut out, header);
        put_line(&mut out, "");
        let ghost first = Progress { text: out@, pos: 0 };
        let mut pos: usize = 0;
        while pos < length
            invariant
                self@.wf(),
                pos <= length,
                length == data@.len(),
                length == size,
                offset + length <= self@.nso.file.memory.len(),
                self@.nso.file.memory.len() <= u64::MAX,
                data@ == self@.nso.file.memory.subrange(offset as int, offset + size),
                data_section(self@, floats@, header@, size, offset) == (match data_chunks(
                    self@,
                    floats@,
                    data@,
                    offset,
                    first,
                ) {
                    Err(error) => Err::<Seq<char>, Error>(error),
                    Ok(end) => Ok(end.text),
                }),
                data_chunks(self@, floats@, data@, offset, first) == data_chunks(
                    self@,
                    floats@,
                    data@,
                    offset,
                    Progress { text: out@, pos: pos as int },
                ),
            decreases length - pos,
        {
            let address: u64 = offset + pos as u64;
            let next: u64 = find_referenced(self.references, address, offset + size);
            proof {
                lemma_next_referenced(
                    self@.refs.types,
                    offset + pos + 1,
                    offset + length,
                );
            }
            pos = self.export_data_chunk(
                &mut out,
                data,
                pos,
                next - address,
                offset,
                true,
                floats,
            )?;
        }
        Ok(out)
    }
}

proof fn lemma_numbers_go_on(data: Seq<u8>, directive: Seq<char>, size: nat, p: Progress)
    ensures
        number_entry(data, directive, size, p) matches Ok(next) ==> lines::goes_on(
            p.text,
            next.text,
        ),
{
    if let Ok(value) = bytes::le_read(data, p.pos, size) {
        lines::lemma_line_of_two_goes_on(
            p.text,
            directive,
            fmt::hex_padded(value as nat, 2 * size),
        );
    }
}

proof fn lemma_bytes_go_on(data: Seq<u8>, count: nat, p: Progress)
    ensures
        byte_entries(data, count, p) matches Ok(next) ==> lines::goes_on(p.text, next.text),
    decreases count,
{
    if count == 0 {
        assert(p.text.take(p.text.len() as int) =~= p.text);
    } else if let Ok(next) = number_entry(data, "\t.byte 0x"@, 1, p) {
        lemma_numbers_go_on(data, "\t.byte 0x"@, 1, p);
        lemma_bytes_go_on(data, (count - 1) as nat, next);
        if let Ok(last) = byte_entries(data, (count - 1) as nat, next) {
            lines::lemma_goes_on(p.text, next.text, last.text);
        }
    }
}

proof fn lemma_jump_entry_goes_on(e: ExportView, data: Seq<u8>, table: u64, p: Progress)
    ensures
        jump_entry(e, data, table, p) matches Ok(next) ==> lines::goes_on(p.text, next.text),
{
    if let Ok(value) = bytes::le_read(data, p.pos, 4) {
        let target = bytes::wrap64(table + bytes::signed(value, 0x8000_0000));
        if let Ok(target_name) = e.name(target) {
            if let Ok(table_name) = e.name(table) {
                lines::lemma_line_of_four_goes_on(
                    p.text,
                    "\t.word "@,
                    target_name,
                    " - "@,
                    table_name,
                );
            }
        }
    }
}

proof fn lemma_jump_table_goes_on(
    e: ExportView,
    data: Seq<u8>,
    table: u64,
    count: nat,
    p: Progress,
)
    ensures
        jump_table_entries(e, data, table, count, p) matches Ok(next) ==> lines::goes_on(
            p.text,
            next.text,
        ),
    decreases count,
{
    if count == 0 {
        assert(p.text.take(p.text.len() as int) =~= p.text);
    } else if let Ok(next) = jump_entry(e, data, table, p) {
        lemma_jump_entry_goes_on(e, data, table, p);
        lemma_jump_table_goes_on(e, data, table, (count - 1) as nat, next);
        if let Ok(last) = jump_table_entries(e, data, table, (count - 1) as nat, next) {
            lines::lemma_goes_on(p.text, next.text, last.text);
        }
    }
}

proof fn lemma_typed_goes_on(
    floats: FloatView,
    data: Seq<u8>,
    address: u64,
    data_type: DataRefType,
    p: Progress,
)
    ensures
        typed_entry(floats, data, address, data_type, p) matches Ok(next) ==> lines::goes_on(
            p.text,
            next.text,
        ),
{
    lemma_numbers_go_on(data, "\t.byte 0x"@, 1, p);
    lemma_numbers_go_on(data, "\t.short 0x"@, 2, p);
    lemma_numbers_go_on(data, "\t.word 0x"@, 4, p);
    lemma_numbers_go_on(data, "\t.quad 0x"@, 8, p);
    lemma_bytes_go_on(data, 16, p);
    if let Ok(value) = bytes::le_read(data, p.pos, 4) {
        lines::lemma_line_of_four_goes_on(
            p.text,
            "\t.word "@,
            fmt::decimal(value),
            "  // float: "@,
            floats.singles[value as u32],
        );
    }
    if let Ok(value) = bytes::le_read(data, p.pos, 8) {
        lines::lemma_line_of_four_goes_on(
            p.text,
            "\t.quad "@,
            fmt::decimal(value),
            "  // double: "@,
            floats.doubles[value as u64],
        );
    }
}

proof fn lemma_reference_goes_on(
    e: ExportView,
    data: Seq<u8>,
    address: u64,
    target: u64,
    p: Progress,
)
    ensures
        reference_entry(e, data, address, target, p) matches Ok(next) ==> lines::goes_on(
            p.text,
            next.text,
        ),
{
    if let Ok(name) = e.name(target) {
        lines::lemma_line_of_two_goes_on(p.text, "\t.quad "@, name);
    }
    if e.refs.types.contains_key(target) {
        match e.refs.types[target] {
            DataRefType::SymbolAbsolute(addend) => {
                if let Ok(name) = lookup::entry_name(e.nso, target) {
                    lines::lemma_line_of_four_goes_on(
                        p.text,
                        "\t.quad "@,
                        name,
                        "+"@,
                        fmt::decimal(addend as int),
                    );
                }
            },
            DataRefType::Code => {
                if e.refs.types.contains_key(address) {
                    if let DataRefType::JumpTable(size) = e.refs.types[address] {
                        lemma_jump_table_goes_on(e, data, address, size as nat, p);
                    }
                }
            },
            _ => {},
        }
    }
}

proof fn lemma_entry_goes_on(
    e: ExportView,
    floats: FloatView,
    data: Seq<u8>,
    section_offset: u64,
    p: Progress,
)
    ensures
        data_entry(e, floats, data, section_offset, p) matches Ok(next) ==> lines::goes_on(
            p.text,
            next.text,
        ),
{
    if let Ok(address) = address_at(section_offset, p.pos) {
        if e.refs.sources.contains_key(address) {
            lemma_reference_goes_on(e, data, address, e.refs.sources[address].1, p);
        } else if e.refs.types.contains_key(address) {
            lemma_typed_goes_on(floats, data, address, e.refs.types[address], p);
        } else {
            lemma_numbers_go_on(data, "\t.byte 0x"@, 1, p);
        }
    }
}

proof fn lemma_entries_go_on(
    e: ExportView,
    floats: FloatView,
    data: Seq<u8>,
    section_offset: u64,
    end: int,
    p: Progress,
)
    ensures
        data_entries(e, floats, data, section_offset, end, p) matches Ok(next) ==> lines::goes_on(
            p.text,
            next.text,
        ),
    decreases
            if p.pos < end {
                end - p.pos
            } else {
                0
            },
{
    if p.pos < 0 || p.pos >= end {
        assert(p.text.take(p.text.len() as int) =~= p.text);
    } else if let Ok(next) = data_entry(e, floats, data, section_offset, p) {
        if next.pos > p.pos {
            lemma_entry_goes_on(e, floats, data, section_offset, p);
            lemma_entries_go_on(e, floats, data, section_offset, end, next);
            if let Ok(last) = data_entries(e, floats, data, section_offset, end, next) {
                lines::lemma_goes_on(p.text, next.text, last.text);
            }
        }
    }
}

/// A piece of data has the labels of its address.
pub proof fn lemma_chunk_is_labelled(
    e: ExportView,
    floats: FloatView,
    data: Seq<u8>,
    section_offset: u64,
    length: int,
    align: bool,
    p: Progress,
)
    ensures
        data_chunk(e, floats, data, section_offset, length, align, p) matches Ok(next) ==> next.pos
            == p.pos + length && lines::goes_on(p.text, next.text) && lines::is_labelled(
            next.text,
            e.names((section_offset + p.pos) as u64),
        ),
{
    if let Ok(next) = data_chunk(e, floats, data, section_offset, length, align, p) {
        let address = (section_offset + p.pos) as u64;
        let start = if align {
            aligned(p.text, address)
        } else {
            p.text
        };
        lines::lemma_line_of_two_goes_on(
            p.text,
            ".align "@,
            fmt::decimal(alignment(address)),
        );
        assert(p.text.take(p.text.len() as int) =~= p.text);
        assert(lines::goes_on(p.text, start));
        let labelled = lines::global_labels(start, e.names(address), 0);
        lines::lemma_global_labels_go_on(start, e.names(address), 0);
        lemma_entries_go_on(
            e,
            floats,
            data,
            section_offset,
            p.pos + length,
            Progress { text: labelled, pos: p.pos },
        );
        assert(lines::goes_on(labelled, next.text));
        lines::lemma_goes_on(p.text, start, labelled);
        lines::lemma_goes_on(p.text, labelled, next.text);
    }
}

proof fn lemma_chunks_are_labelled(
    e: ExportView,
    floats: FloatView,
    data: Seq<u8>,
    offset: u64,
    p: Progress,
    address: u64,
)
    requires
        0 <= p.pos <= data.len(),
        offset + data.len() <= u64::MAX,
        offset + p.pos <= address < offset + data.len(),
        e.refs.types.contains_key(address) || address == offset + p.pos,
    ensures
        data_chunks(e, floats, data, offset, p) matches Ok(last) ==> lines::is_labelled(
            last.text,
            e.names(address),
        ),
    decreases data.len() - p.pos,
{
    let end = next_referenced(e.refs.types, offset + p.pos + 1, offset + data.len()) - offset;
    lemma_next_referenced(e.refs.types, offset + p.pos + 1, offset + data.len());
    lemma_chunk_is_labelled(e, floats, data, offset, end - p.pos, true, p);
    if let Ok(next) = data_chunk(e, floats, data, offset, end - p.pos, true, p) {
        if address == offset + p.pos {
            lemma_chunks_go_on(e, floats, data, offset, next);
            if let Ok(last) = data_chunks(e, floats, data, offset, next) {
                lines::lemma_stays_labelled(next.text, last.text, e.names(address));
            }
        } else {
            if address < offset + end {
                assert(!e.refs.types.contains_key(address as int as u64));
            }
            lemma_chunks_are_labelled(e, floats, data, offset, next, address);
        }
    }
}

proof fn lemma_chunks_go_on(
    e: ExportView,
    floats: FloatView,
    data: Seq<u8>,
    offset: u64,
    p: Progress,
)
    ensures
        data_chunks(e, floats, data, offset, p) matches Ok(last) ==> lines::goes_on(
            p.text,
            last.text,
        ),
    decreases data.len() - p.pos,
{
    if p.pos >= data.len() {
        assert(p.text.take(p.text.len() as int) =~= p.text);
    } else {
        let end = next_referenced(e.refs.types, offset + p.pos + 1, offset + data.len()) - offset;
        lemma_next_referenced(e.refs.types, offset + p.pos + 1, offset + data.len());
        lemma_chunk_is_labelled(e, floats, data, offset, end - p.pos, true, p);
        if let Ok(next) = data_chunk(e, floats, data, offset, end - p.pos, true, p) {
            lemma_chunks_go_on(e, floats, data, offset, next);
            if let Ok(last) = data_chunks(e, floats, data, offset, next) {
                lines::lemma_goes_on(p.text, next.text, last.text);
            }
        }
    }
}

/// In a section of data, each address that something refers to gets the labels of all its names.
pub proof fn law_referenced_data_is_labelled(
    e: ExportView,
    floats: FloatView,
    header: Seq<char>,
    size: u64,
    offset: u64,
    address: u64,
)
    requires
        data_section(e, floats, header, size, offset) is Ok,
        e.nso.file.memory.len() <= u64::MAX,
        offset <= address < offset + size,
        e.refs.types.contains_key(address),
    ensures
        lines::is_labelled(data_section(e, floats, header, size, offset)->Ok_0, e.names(address)),
{
    let memory = e.nso.file.memory;
    let start = lines::line(lines::line(""@, header), ""@);
    lemma_chunks_are_labelled(
        e,
        floats,
        memory.subrange(offset as int, offset + size),
        offset,
        Progress { text: start, pos: 0 },
        address,
    );
}

/// Two outcomes that differ only in the text that was there before.
pub open spec fn appends(
    text: Seq<char>,
    outcome: Result<Progress, Error>,
    alone: Result<Progress, Error>,
) -> bool {
    match (outcome, alone) {
        (Ok(next), Ok(part)) => next.text == text + part.text && next.pos == part.pos,
        (Err(a), Err(b)) => a == b,
        _ => false,
    }
}

/// Nothing is written yet, and the next part starts at `pos`.
pub open spec fn blank(pos: int) -> Progress {
    Progress { text: Seq::empty(), pos }
}

proof fn lemma_jump_entry_appends(e: ExportView, data: Seq<u8>, table: u64, p: Progress)
    ensures
        appends(p.text, jump_entry(e, data, table, p), jump_entry(e, data, table, blank(p.pos))),
{
    if let Ok(next) = jump_entry(e, data, table, p) {
        let alone = jump_entry(e, data, table, blank(p.pos))->Ok_0;
        assert(next.text =~= p.text + alone.text);
    }
}

proof fn lemma_jump_table_appends(
    e: ExportView,
    data: Seq<u8>,
    table: u64,
    count: nat,
    p: Progress,
)
    ensures
        appends(
            p.text,
            jump_table_entries(e, data, table, count, p),
            jump_table_entries(e, data, table, count, blank(p.pos)),
        ),
    decreases count,
{
    if count == 0 {
        assert(p.text + blank(p.pos).text =~= p.text);
    } else {
        lemma_jump_entry_appends(e, data, table, p);
        if let Ok(next) = jump_entry(e, data, table, p) {
            let alone = jump_entry(e, data, table, blank(p.pos))->Ok_0;
            let fewer = (count - 1) as nat;
            lemma_jump_table_appends(e, data, table, fewer, next);
            lemma_jump_table_appends(e, data, table, fewer, alone);
            if let Ok(rest) = jump_table_entries(e, data, table, fewer, blank(next.pos)) {
                assert(p.text + alone.text + rest.text =~= p.text + (alone.text + rest.text));
            }
        }
    }
}

proof fn lemma_reference_appends(
    e: ExportView,
    data: Seq<u8>,
    address: u64,
    target: u64,
    p: Progress,
)
    ensures
        appends(
            p.text,
            reference_entry(e, data, address, target, p),
            reference_entry(e, data, address, target, blank(p.pos)),
        ),
{
    if e.refs.types.contains_key(address) {
        if let DataRefType::JumpTable(size) = e.refs.types[address] {
            lemma_jump_table_appends(e, data, address, size as nat, p);
        }
    }
    if let Ok(next) = reference_entry(e, data, address, target, p) {
        let alone = reference_entry(e, data, address, target, blank(p.pos))->Ok_0;
        assert(next.text =~= p.text + alone.text);
    }
}

/// One of the entries up to `end` starts at `pos`.
pub open spec fn is_entry(
    e: ExportView,
    floats: FloatView,
    data: Seq<u8>,
    section_offset: u64,
    end: int,
    p: Progress,
    pos: int,
) -> bool
    decreases
            if p.pos < end {
                end - p.pos
            } else {
                0
            },
{
    if p.pos < 0 || p.pos >= end {
        false
    } else if p.pos == pos {
        true
    } else {
        match data_entry(e, floats, data, section_offset, p) {
            Err(_) => false,
            Ok(next) => next.pos > p.pos && is_entry(
                e,
                floats,
                data,
                section_offset,
                end,
                next,
                pos,
            ),
        }
    }
}

/// One of the entries of a section starts at `pos`. This is not so for what lies in the middle of a
/// wider entry.
pub open spec fn is_section_entry(
    e: ExportView,
    floats: FloatView,
    data: Seq<u8>,
    offset: u64,
    p: Progress,
    pos: int,
) -> bool
    decreases data.len() - p.pos,
{
    let address = (offset + p.pos) as u64;
    let end = next_referenced(e.refs.types, offset + p.pos + 1, offset + data.len()) - offset;
    if p.pos >= data.len() {
        false
    } else if pos < end {
        let labelled = lines::global_labels(aligned(p.text, address), e.names(address), 0);
        is_entry(e, floats, data, offset, end, Progress { text: labelled, pos: p.pos }, pos)
    } else {
        match data_chunk(e, floats, data, offset, end - p.pos, true, p) {
            Err(_) => false,
            Ok(next) => {
                proof {
                    lemma_next_referenced(
                        e.refs.types,
                        offset + p.pos + 1,
                        offset + data.len(),
                    );
                }
                is_section_entry(e, floats, data, offset, next, pos)
            },
        }
    }
}

/// What is written for the data at `pos`, which refers to something.
pub open spec fn reference_text(e: ExportView, data: Seq<u8>, offset: u64, pos: int) -> Result<
    Seq<char>,
    Error,
> {
    let address = (offset + pos) as u64;
    match reference_entry(e, data, address, e.refs.sources[address].1, blank(pos)) {
        Err(error) => Err(error),
        Ok(alone) => Ok(alone.text),
    }
}

/// `text` names what the data at `pos` refers to.
pub open spec fn is_reference_written(
    e: ExportView,
    data: Seq<u8>,
    offset: u64,
    pos: int,
    text: Seq<char>,
) -> bool {
    reference_text(e, data, offset, pos) matches Ok(part) && lines::is_written(text, part)
}

proof fn lemma_entries_refer(
    e: ExportView,
    floats: FloatView,
    data: Seq<u8>,
    offset: u64,
    end: int,
    p: Progress,
    pos: int,
)
    requires
        offset + end <= u64::MAX,
        is_entry(e, floats, data, offset, end, p, pos),
        e.refs.sources.contains_key((offset + pos) as u64),
    ensures
        data_entries(e, floats, data, offset, end, p) matches Ok(last) ==> is_reference_written(
            e,
            data,
            offset,
            pos,
            last.text,
        ),
    decreases
            if p.pos < end {
                end - p.pos
            } else {
                0
            },
{
    if let Ok(next) = data_entry(e, floats, data, offset, p) {
        lemma_entries_go_on(e, floats, data, offset, end, next);
        if p.pos != pos {
            lemma_entries_refer(e, floats, data, offset, end, next, pos);
        } else if let Ok(last) = data_entries(e, floats, data, offset, end, next) {
            let address = (offset + pos) as u64;
            lemma_reference_appends(e, data, address, e.refs.sources[address].1, p);
            let part = reference_text(e, data, offset, pos)->Ok_0;
            lines::lemma_ends_written(next.text, p.text, part);
            lines::lemma_stays_written(next.text, last.text, part);
        }
    }
}

proof fn lemma_chunks_refer(
    e: ExportView,
    floats: FloatView,
    data: Seq<u8>,
    offset: u64,
    p: Progress,
    pos: int,
)
    requires
        0 <= p.pos,
        offset + data.len() <= u64::MAX,
        is_section_entry(e, floats, data, offset, p, pos),
        e.refs.sources.contains_key((offset + pos) as u64),
    ensures
        data_chunks(e, floats, data, offset, p) matches Ok(last) ==> is_reference_written(
            e,
            data,
            offset,
            pos,
            last.text,
        ),
    decreases data.len() - p.pos,
{
    let address = (offset + p.pos) as u64;
    let end = next_referenced(e.refs.types, offset + p.pos + 1, offset + data.len()) - offset;
    lemma_next_referenced(e.refs.types, offset + p.pos + 1, offset + data.len());
    if let Ok(next) = data_chunk(e, floats, data, offset, end - p.pos, true, p) {
        lemma_chunk_is_labelled(e, floats, data, offset, end - p.pos, true, p);
        lemma_chunks_go_on(e, floats, data, offset, next);
        if pos < end {
            let labelled = lines::global_labels(aligned(p.text, address), e.names(address), 0);
            lemma_entries_refer(
                e,
                floats,
                data,
                offset,
                end,
                Progress { text: labelled, pos: p.pos },
                pos,
            );
            if let Ok(last) = data_chunks(e, floats, data, offset, next) {
                let part = reference_text(e, data, offset, pos)->Ok_0;
                lines::lemma_stays_written(next.text, last.text, part);
            }
        } else {
            lemma_chunks_refer(e, floats, data, offset, next, pos);
        }
    }
}

/// In a section of data, what refers to something is written with the name of its target. Only what
/// lies in the middle of a wider entry is not.
pub proof fn law_data_refers_by_name(
    e: ExportView,
    floats: FloatView,
    header: Seq<char>,
    size: u64,
    offset: u64,
    pos: int,
)
    requires
        data_section(e, floats, header, size, offset) is Ok,
        e.nso.file.memory.len() <= u64::MAX,
        0 <= pos < size,
        e.refs.sources.contains_key((offset + pos) as u64),
        is_section_entry(
            e,
            floats,
            e.nso.file.memory.subrange(offset as int, offset + size),
            offset,
            Progress { text: lines::line(lines::line(""@, header), ""@), pos: 0 },
            pos,
        ),
    ensures
        is_reference_written(
            e,
            e.nso.file.memory.subrange(offset as int, offset + size),
            offset,
            pos,
            data_section(e, floats, header, size, offset)->Ok_0,
        ),
{
    let memory = e.nso.file.memory;
    let start = lines::line(lines::line(""@, header), ""@);
    lemma_chunks_refer(
        e,
        floats,
        memory.subrange(offset as int, offset + size),
        offset,
        Progress { text: start, pos: 0 },
        pos,
    );
}

/// A pointer that is written by name held the address of what is named.
pub proof fn law_pointers_keep_their_value(
    e: ExportView,
    data: Seq<u8>,
    address: u64,
    target: u64,
    p: Progress,
)
    requires
        pointer_entry(e, data, address, target, p) is Ok,
    ensures
        bytes::le_read(data, p.pos, 8) == Ok::<int, Error>(target as int),
        e.name(target) matches Ok(name) && pointer_entry(e, data, address, target, p)->Ok_0.text
            == p.text + "\t.quad "@ + name + "\n"@,
{
}

/// The address that an entry of the jump table at `table` leads to.
pub open spec fn jump_destination(data: Seq<u8>, table: u64, pos: int) -> u64 {
    bytes::wrap64(table + bytes::signed(bytes::le_value(data, pos, 4), 0x8000_0000))
}

/// An entry of a jump table is written as the difference of two names, and the addresses that they
/// stand for differ by the number that was there.
pub proof fn law_jump_entries_keep_their_value(
    e: ExportView,
    data: Seq<u8>,
    table: u64,
    p: Progress,
)
    requires
        jump_entry(e, data, table, p) is Ok,
    ensures
        ({
            let target = jump_destination(data, table, p.pos);
            &&& e.name(target) matches Ok(a) && e.name(table) matches Ok(b) && jump_entry(
                e,
                data,
                table,
                p,
            )->Ok_0.text == p.text + "\t.word "@ + a + " - "@ + b + "\n"@
            &&& bytes::wrap64(target - table) == bytes::wrap64(
                bytes::signed(bytes::le_value(data, p.pos, 4), 0x8000_0000),
            )
        }),
{
    let distance = bytes::signed(bytes::le_value(data, p.pos, 4), 0x8000_0000);
    let sum = table + distance;
    let size = 0x1_0000_0000_0000_0000int;
    assert(0 <= sum % size < size);
    assert(sum % size - table == distance + size * (-(sum / size)));
    vstd::arithmetic::div_mod::lemma_mod_multiples_vanish(-(sum / size), distance, size);
}

/// Data is not written for want of the text of a floating-point number.
pub open spec fn lacks_text(r: Result<Progress, Error>) -> bool {
    r matches Err(Error::FloatWithoutText { .. })
}

proof fn lemma_jump_table_lacks_no_text(
    e: ExportView,
    data: Seq<u8>,
    table: u64,
    count: nat,
    p: Progress,
)
    ensures
        !lacks_text(jump_table_entries(e, data, table, count, p)),
    decreases count,
{
    if count > 0 {
        lookup::lemma_name_error(e.nso, e.lookup, table);
        lookup::lemma_name_error(e.nso, e.lookup, jump_destination(data, table, p.pos));
        if let Ok(next) = jump_entry(e, data, table, p) {
            lemma_jump_table_lacks_no_text(e, data, table, (count - 1) as nat, next);
        }
    }
}

proof fn lemma_bytes_lack_no_text(data: Seq<u8>, count: nat, p: Progress)
    ensures
        !lacks_text(byte_entries(data, count, p)),
    decreases count,
{
    if count > 0 {
        if let Ok(next) = number_entry(data, "\t.byte 0x"@, 1, p) {
            lemma_bytes_lack_no_text(data, (count - 1) as nat, next);
        }
    }
}

proof fn lemma_entry_lacks_no_text(
    e: ExportView,
    floats: FloatView,
    data: Seq<u8>,
    section_offset: u64,
    p: Progress,
)
    requires
        floats::is_all_known(floats, e.nso.file.memory, e.refs.types),
        section_offset + data.len() <= e.nso.file.memory.len(),
        data == e.nso.file.memory.subrange(
            section_offset as int,
            section_offset + data.len(),
        ),
    ensures
        !lacks_text(data_entry(e, floats, data, section_offset, p)),
{
    let memory = e.nso.file.memory;
    let end = section_offset + data.len();
    if let Ok(address) = address_at(section_offset, p.pos) {
        if e.refs.sources.contains_key(address) {
            lookup::lemma_name_error(e.nso, e.lookup, e.refs.sources[address].1);
            if e.refs.types.contains_key(address) {
                if let DataRefType::JumpTable(size) = e.refs.types[address] {
                    lemma_jump_table_lacks_no_text(e, data, address, size as nat, p);
                }
            }
        } else if e.refs.types.contains_key(address) {
            lemma_bytes_lack_no_text(data, 16, p);
            floats::lemma_is_known(floats, memory, e.refs.types, section_offset + p.pos);
            if 0 <= p.pos && p.pos + 4 <= data.len() {
                bytes::lemma_value_in_part(memory, section_offset as int, end, p.pos, 4);
            }
            if 0 <= p.pos && p.pos + 8 <= data.len() {
                bytes::lemma_value_in_part(memory, section_offset as int, end, p.pos, 8);
            }
        }
    }
}

proof fn lemma_entries_lack_no_text(
    e: ExportView,
    floats: FloatView,
    data: Seq<u8>,
    section_offset: u64,
    end: int,
    p: Progress,
)
    requires
        floats::is_all_known(floats, e.nso.file.memory, e.refs.types),
        section_offset + data.len() <= e.nso.file.memory.len(),
        data == e.nso.file.memory.subrange(
            section_offset as int,
            section_offset + data.len(),
        ),
    ensures
        !lacks_text(data_entries(e, floats, data, section_offset, end, p)),
    decreases
            if p.pos < end {
                end - p.pos
            } else {
                0
            },
{
    if 0 <= p.pos < end {
        lemma_entry_lacks_no_text(e, floats, data, section_offset, p);
        if let Ok(next) = data_entry(e, floats, data, section_offset, p) {
            if next.pos > p.pos {
                lemma_entries_lack_no_text(e, floats, data, section_offset, end, next);
            }
        }
    }
}

/// Where it is known how all floating-point numbers that [`NSO::get_floats`] finds are written, no part
/// of the data of a binary lacks the text of one.
pub proof fn law_found_floats_suffice(
    e: ExportView,
    floats: FloatView,
    data: Seq<u8>,
    section_offset: u64,
    length: int,
    align: bool,
    p: Progress,
)
    requires
        floats::is_all_known(floats, e.nso.file.memory, e.refs.types),
        section_offset + data.len() <= e.nso.file.memory.len(),
        data == e.nso.file.memory.subrange(
            section_offset as int,
            section_offset + data.len(),
        ),
    ensures
        !lacks_text(data_chunk(e, floats, data, section_offset, length, align, p)),
{
    let address = (section_offset + p.pos) as u64;
    let start = if align {
        aligned(p.text, address)
    } else {
        p.text
    };
    let labelled = lines::global_labels(start, e.names(address), 0);
    lemma_entries_lack_no_text(
        e,
        floats,
        data,
        section_offset,
        p.pos + length,
        Progress { text: labelled, pos: p.pos },
    );
}

proof fn lemma_chunks_lack_no_text(
    e: ExportView,
    floats: FloatView,
    data: Seq<u8>,
    offset: u64,
    p: Progress,
)
    requires
        floats::is_all_known(floats, e.nso.file.memory, e.refs.types),
        offset + data.len() <= e.nso.file.memory.len(),
        data == e.nso.file.memory.subrange(offset as int, offset + data.len()),
    ensures
        !lacks_text(data_chunks(e, floats, data, offset, p)),
    decreases data.len() - p.pos,
{
    if p.pos < data.len() {
        let end = next_referenced(e.refs.types, offset + p.pos + 1, offset + data.len()) - offset;
        lemma_next_referenced(e.refs.types, offset + p.pos + 1, offset + data.len());
        law_found_floats_suffice(e, floats, data, offset, end - p.pos, true, p);
        if let Ok(next) = data_chunk(e, floats, data, offset, end - p.pos, true, p) {
            lemma_chunks_lack_no_text(e, floats, data, offset, next);
        }
    }
}

/// The same holds of whole sections.
pub proof fn law_found_floats_suffice_for_sections(
    e: ExportView,
    floats: FloatView,
    header: Seq<char>,
    size: u64,
    offset: u64,
)
    requires
        floats::is_all_known(floats, e.nso.file.memory, e.refs.types),
    ensures
        !(data_section(e, floats, header, size, offset) matches Err(
            Error::FloatWithoutText { .. },
        )),
{
    let memory = e.nso.file.memory;
    if offset + size <= memory.len() {
        let data = memory.subrange(offset as int, offset + size);
        let start = lines::line(lines::line(""@, header), ""@);
        lemma_chunks_lack_no_text(e, floats, data, offset, Progress { text: start, pos: 0 });
    }
}

/// A word that refers to a symbol held the distance from it, and is written as the name of the symbol
/// and that distance.
pub proof fn law_symbol_references_keep_their_value(
    e: ExportView,
    data: Seq<u8>,
    address: u64,
    target: u64,
    addend: i64,
    p: Progress,
)
    requires
        symbol_entry(e, data, address, target, addend, p) is Ok,
    ensures
        0 <= p.pos && p.pos + 8 <= data.len(),
        bytes::le_value(data, p.pos, 8) == addend || bytes::le_value(data, p.pos, 8) == addend
            + 0x1_0000_0000_0000_0000,
        ({
            let index = (target - e.nso.symbol_offset) / 24;
            let symbol = e.nso.symbols[index];
            let next = symbol_entry(e, data, address, target, addend, p)->Ok_0;
            &&& target >= e.nso.symbol_offset
            &&& index < e.nso.symbols.len()
            &&& e.nso.strings.contains_key(symbol.str_table_offset as u64)
            &&& next.text == p.text + "\t.quad "@ + e.nso.strings[symbol.str_table_offset as u64]
                + "+"@ + fmt::decimal(addend as int) + "\n"@
            &&& next.pos == p.pos + 8
        }),
{
    bytes::law_lowest_byte_comes_first(data, p.pos, 8);
}

/// What refers to something is written as the type of its target says: a symbol with the distance from
/// it, the entries of a jump table, or else a pointer.
pub proof fn law_references_are_written_by_their_target(
    e: ExportView,
    data: Seq<u8>,
    address: u64,
    target: u64,
    p: Progress,
)
    requires
        reference_entry(e, data, address, target, p) is Ok,
    ensures
        e.refs.types.contains_key(target),
        ({
            let next = reference_entry(e, data, address, target, p)->Ok_0;
            let target_type = e.refs.types[target];
            &&& target_type is SymbolAbsolute ==> Ok::<Progress, Error>(next) == symbol_entry(
                e,
                data,
                address,
                target,
                target_type->SymbolAbsolute_0,
                p,
            )
            &&& target_type is Code && e.refs.types.contains_key(address)
                && e.refs.types[address] is JumpTable ==> next.pos == p.pos + 4
                * e.refs.types[address]->JumpTable_0
            &&& target_type !is SymbolAbsolute && !(target_type is Code
                && e.refs.types.contains_key(address) && e.refs.types[address] is JumpTable)
                ==> p.pos + 8 <= data.len() && bytes::le_value(data, p.pos, 8) == target && e.name(
                target,
            ) is Ok && next.text == p.text + "\t.quad "@ + e.name(target)->Ok_0 + "\n"@ && next.pos
                == p.pos + 8 && (e.refs.types.contains_key(address) ==> e.refs.types[address] is Object
                || e.refs.types[address] is Unknown || e.refs.types[address] is Int64)
        }),
{
    if e.refs.types.contains_key(address) {
        if let DataRefType::JumpTable(size) = e.refs.types[address] {
            lemma_jump_table_advances(e, data, address, size as nat, p);
        }
    }
}

proof fn lemma_jump_entry_of_table(
    e: ExportView,
    data: Seq<u8>,
    table: u64,
    count: nat,
    p: Progress,
    k: int,
)
    requires
        jump_table_entries(e, data, table, count, p) is Ok,
        0 <= k < count,
    ensures
        exists|before: Progress|
            before.pos == p.pos + 4 * k && jump_entry(e, data, table, before) is Ok
                && lines::goes_on(
                (#[trigger] jump_entry(e, data, table, before))->Ok_0.text,
                jump_table_entries(e, data, table, count, p)->Ok_0.text,
            ),
    decreases count,
{
    let next = jump_entry(e, data, table, p)->Ok_0;
    let fewer = (count - 1) as nat;
    if k > 0 {
        lemma_jump_entry_of_table(e, data, table, fewer, next, k - 1);
        let before = choose|before: Progress|
            before.pos == next.pos + 4 * (k - 1) && jump_entry(e, data, table, before) is Ok
                && lines::goes_on(
                (#[trigger] jump_entry(e, data, table, before))->Ok_0.text,
                jump_table_entries(e, data, table, fewer, next)->Ok_0.text,
            );
        assert(before.pos == p.pos + 4 * k);
    } else {
        lemma_jump_table_goes_on(e, data, table, fewer, next);
        assert(jump_entry(e, data, table, p) is Ok);
    }
}

/// A jump table is written entry by entry: for each of its entries there is a line, in their order.
pub proof fn law_jump_tables_are_written_entry_by_entry(
    e: ExportView,
    data: Seq<u8>,
    table: u64,
    count: nat,
    p: Progress,
    k: int,
)
    requires
        jump_table_entries(e, data, table, count, p) is Ok,
        0 <= k < count,
    ensures
        exists|before: Progress|
            before.pos == p.pos + 4 * k && jump_entry(e, data, table, before) is Ok
                && lines::goes_on(
                (#[trigger] jump_entry(e, data, table, before))->Ok_0.text,
                jump_table_entries(e, data, table, count, p)->Ok_0.text,
            ),
        jump_table_entries(e, data, table, count, p)->Ok_0.pos == p.pos + 4 * count,
{
    lemma_jump_entry_of_table(e, data, table, count, p, k);
    lemma_jump_table_advances(e, data, table, count, p);
}

/// `next` is `p` with a number of `size` bytes behind the directive: all of its hexadecimal digits, which
/// stand for what the data holds there.
pub open spec fn is_number_written(
    data: Seq<u8>,
    directive: Seq<char>,
    size: nat,
    p: Progress,
    next: Progress,
) -> bool {
    &&& p.pos + size <= data.len()
    &&& next.pos == p.pos + size
    &&& exists|digits: Seq<char>|
        digits.len() == 2 * size && #[trigger] fmt::number_of(digits, 16) == bytes::le_value(
            data,
            p.pos,
            size,
        ) && next.text == p.text + directive + digits + "\n"@
}

proof fn lemma_number_written(data: Seq<u8>, directive: Seq<char>, size: nat, p: Progress)
    requires
        number_entry(data, directive, size, p) is Ok,
        size == 1 || size == 2 || size == 4 || size == 8,
    ensures
        is_number_written(data, directive, size, p, number_entry(data, directive, size, p)->Ok_0),
{
    bytes::law_lowest_byte_comes_first(data, p.pos, size);
    let value = bytes::le_value(data, p.pos, size) as nat;
    fmt::law_zeros_do_not_change_the_number(value, 2 * size, true);
    fmt::lemma_few_digits(value, 2 * size, true);
    let digits = fmt::hex_padded(value, 2 * size);
    assert(fmt::number_of(digits, 16) == value);
}

/// Data of a known type is written by it: numbers in hexadecimal with the directive of their size,
/// floating-point numbers by their bits with their value in a comment. Objects, and what is not known,
/// are written byte by byte.
pub proof fn law_numbers_are_written_by_their_type(
    floats: FloatView,
    data: Seq<u8>,
    address: u64,
    data_type: DataRefType,
    p: Progress,
)
    requires
        typed_entry(floats, data, address, data_type, p) is Ok,
    ensures
        ({
            let next = typed_entry(floats, data, address, data_type, p)->Ok_0;
            &&& data_type is Int8 || data_type is Object || data_type is Unknown
                ==> is_number_written(data, "\t.byte 0x"@, 1, p, next)
            &&& data_type is Int16 ==> is_number_written(data, "\t.short 0x"@, 2, p, next)
            &&& data_type is Int32 ==> is_number_written(data, "\t.word 0x"@, 4, p, next)
            &&& data_type is Int64 ==> is_number_written(data, "\t.quad 0x"@, 8, p, next)
            &&& data_type is Float32 ==> next.pos == p.pos + 4 && next.text == p.text + "\t.word "@
                + fmt::decimal(bytes::le_value(data, p.pos, 4)) + "  // float: "@
                + floats.singles[bytes::le_value(data, p.pos, 4) as u32] + "\n"@
            &&& data_type is Float64 ==> next.pos == p.pos + 8 && next.text == p.text + "\t.quad "@
                + fmt::decimal(bytes::le_value(data, p.pos, 8)) + "  // double: "@
                + floats.doubles[bytes::le_value(data, p.pos, 8) as u64] + "\n"@
            &&& data_type is Float128 ==> next.pos == p.pos + 16 && next.text == p.text
                + lines::listing_of_bytes(data.subrange(p.pos, p.pos + 16))
            &&& !(data_type is Function) && !(data_type is Code) && !(data_type is JumpTable) && !(
            data_type is SymbolAbsolute) && !(data_type is Float8) && !(data_type is Float16)
        }),
{
    let next = typed_entry(floats, data, address, data_type, p)->Ok_0;
    match data_type {
        DataRefType::Int8 | DataRefType::Object(_) | DataRefType::Unknown => {
            lemma_number_written(data, "\t.byte 0x"@, 1, p);
        },
        DataRefType::Int16 => {
            lemma_number_written(data, "\t.short 0x"@, 2, p);
        },
        DataRefType::Int32 => {
            lemma_number_written(data, "\t.word 0x"@, 4, p);
        },
        DataRefType::Int64 => {
            lemma_number_written(data, "\t.quad 0x"@, 8, p);
        },
        DataRefType::Float128 => {
            lemma_bytes_listed(data, 16, p);
        },
        _ => {},
    }
}

proof fn lemma_bytes_listed(data: Seq<u8>, count: nat, p: Progress)
    requires
        byte_entries(data, count, p) is Ok,
        0 <= p.pos <= data.len() || count > 0,
    ensures
        count > 0 ==> 0 <= p.pos && p.pos + count <= data.len(),
        byte_entries(data, count, p)->Ok_0.pos == p.pos + count,
        byte_entries(data, count, p)->Ok_0.text == p.text + lines::listing_of_bytes(
            data.subrange(p.pos, p.pos + count),
        ),
    decreases count,
{
    let part = data.subrange(p.pos, p.pos + count);
    if count > 0 {
        let next = number_entry(data, "\t.byte 0x"@, 1, p)->Ok_0;
        lemma_bytes_listed(data, (count - 1) as nat, next);
        bytes::law_lowest_byte_comes_first(data, p.pos, 1);
        fmt::lemma_two_capital_digits(data[p.pos] as nat);
        reveal_strlit("\t.byte 0x");
        reveal_strlit("\n");
        let head = seq!['\t', '.', 'b', 'y', 't', 'e', ' ', '0', 'x'];
        assert("\t.byte 0x"@ =~= head);
        assert(part.skip(1) =~= data.subrange(p.pos + 1, p.pos + count));
        assert(byte_entries(data, count, p)->Ok_0.text =~= p.text + lines::listing_of_bytes(part));
    } else {
        assert(p.text + lines::listing_of_bytes(part) =~= p.text);
    }
}

/// Data that refers to something is written as a reference, whatever its type is. All else is written
/// by its type, and as a byte where it has none.
pub proof fn law_references_come_before_types(
    e: ExportView,
    floats: FloatView,
    data: Seq<u8>,
    section_offset: u64,
    p: Progress,
)
    requires
        section_offset + p.pos <= u64::MAX,
    ensures
        ({
            let address = (section_offset + p.pos) as u64;
            let next = data_entry(e, floats, data, section_offset, p);
            &&& e.refs.sources.contains_key(address) ==> next == reference_entry(
                e,
                data,
                address,
                e.refs.sources[address].1,
                p,
            )
            &&& !e.refs.sources.contains_key(address) && e.refs.types.contains_key(address) ==> next
                == typed_entry(floats, data, address, e.refs.types[address], p)
            &&& !e.refs.sources.contains_key(address) && !e.refs.types.contains_key(address) ==> next
                == typed_entry(floats, data, address, DataRefType::Unknown, p)
        }),
{
}

/// Data is aligned to the largest power of two up to sixteen that divides its address, if that is more
/// than two.
pub proof fn law_data_is_aligned(text: Seq<char>, address: u64)
    ensures
        address % 16 == 0 ==> aligned(text, address) == text + ".align 4\n"@,
        address % 16 == 8 ==> aligned(text, address) == text + ".align 3\n"@,
        address % 8 == 4 ==> aligned(text, address) == text + ".align 2\n"@,
        address % 4 != 0 ==> aligned(text, address) == text,
{
    reveal_strlit(".align ");
    reveal_strlit("\n");
    reveal_strlit(".align 4\n");
    reveal_strlit(".align 3\n");
    reveal_strlit(".align 2\n");
    assert(fmt::decimal(4) =~= seq!['4']);
    assert(fmt::decimal(3) =~= seq!['3']);
    assert(fmt::decimal(2) =~= seq!['2']);
    assert(".align "@ + seq!['4'] + "\n"@ =~= ".align 4\n"@);
    assert(".align "@ + seq!['3'] + "\n"@ =~= ".align 3\n"@);
    assert(".align "@ + seq!['2'] + "\n"@ =~= ".align 2\n"@);
    assert(text + ".align "@ + seq!['4'] + "\n"@ =~= text + ".align 4\n"@);
    assert(text + ".align "@ + seq!['3'] + "\n"@ =~= text + ".align 3\n"@);
    assert(text + ".align "@ + seq!['2'] + "\n"@ =~= text + ".align 2\n"@);
}

/// A piece of data begins with its alignment, if that is asked for, and all names of its address. It
/// ends exactly where it should, and nothing refers into it.
pub proof fn law_pieces_are_whole(
    e: ExportView,
    floats: FloatView,
    data: Seq<u8>,
    section_offset: u64,
    length: int,
    align: bool,
    p: Progress,
    a: u64,
)
    requires
        data_chunk(e, floats, data, section_offset, length, align, p) is Ok,
        0 <= p.pos,
        0 < length,
    ensures
        ({
            let next = data_chunk(e, floats, data, section_offset, length, align, p)->Ok_0;
            let address = (section_offset + p.pos) as u64;
            &&& next.pos == p.pos + length
            &&& address < a < section_offset + next.pos ==> !e.refs.types.contains_key(a)
            &&& lines::goes_on(
                lines::global_labels(
                    if align {
                        aligned(p.text, address)
                    } else {
                        p.text
                    },
                    e.names(address),
                    0,
                ),
                next.text,
            )
        }),
{
    let address = (section_offset + p.pos) as u64;
    let end = p.pos + length;
    lemma_next_referenced(e.refs.types, address + 1, section_offset + end);
    if address < a < section_offset + end {
        assert(!e.refs.types.contains_key(a as int as u64));
    }
    let start = if align {
        aligned(p.text, address)
    } else {
        p.text
    };
    lemma_entries_go_on(
        e,
        floats,
        data,
        section_offset,
        end,
        Progress { text: lines::global_labels(start, e.names(address), 0), pos: p.pos },
    );
}

proof fn lemma_chunks_reach_the_end(
    e: ExportView,
    floats: FloatView,
    data: Seq<u8>,
    offset: u64,
    p: Progress,
)
    requires
        0 <= p.pos <= data.len(),
    ensures
        data_chunks(e, floats, data, offset, p) matches Ok(last) ==> last.pos == data.len(),
    decreases data.len() - p.pos,
{
    if p.pos < data.len() {
        let end = next_referenced(e.refs.types, offset + p.pos + 1, offset + data.len()) - offset;
        lemma_next_referenced(e.refs.types, offset + p.pos + 1, offset + data.len());
        if let Ok(next) = data_chunk(e, floats, data, offset, end - p.pos, true, p) {
            lemma_chunks_reach_the_end(e, floats, data, offset, next);
        }
    }
}

/// A section of data begins with its header and an empty line, and is written up to its last byte.
pub proof fn law_sections_are_whole(
    e: ExportView,
    floats: FloatView,
    header: Seq<char>,
    size: u64,
    offset: u64,
)
    requires
        data_section(e, floats, header, size, offset) is Ok,
    ensures
        offset + size <= e.nso.file.memory.len(),
        lines::goes_on(header + "\n\n"@, data_section(e, floats, header, size, offset)->Ok_0),
        exists|last: Progress|
            last.pos == size && last.text == data_section(e, floats, header, size, offset)->Ok_0
                && #[trigger] data_chunks(
                e,
                floats,
                e.nso.file.memory.subrange(offset as int, offset + size),
                offset,
                Progress { text: header + "\n\n"@, pos: 0 },
            ) == Ok::<Progress, Error>(last),
{
    reveal_strlit("");
    reveal_strlit("\n");
    reveal_strlit("\n\n");
    let data = e.nso.file.memory.subrange(offset as int, offset + size);
    let start = lines::line(lines::line(""@, header), ""@);
    assert(start =~= header + "\n\n"@);
    let p = Progress { text: start, pos: 0 };
    lemma_chunks_go_on(e, floats, data, offset, p);
    lemma_chunks_reach_the_end(e, floats, data, offset, p);
    assert(data_chunks(e, floats, data, offset, p) is Ok);
}

/// A part of the data is begun exactly if nothing refers to any of its bytes but the first, and all of
/// them have addresses.
pub proof fn law_parts_are_begun_if_nothing_refers_into_them(
    e: ExportView,
    start: u64,
    length: int,
    pos: int,
    a: u64,
)
    requires
        0 <= pos,
        1 <= length,
    ensures
        is_begun(e, start, length, pos) ==> start + pos + length <= u64::MAX && (start + pos < a
            < start + pos + length ==> !e.refs.types.contains_key(a)),
        start + pos + length <= u64::MAX && (forall|b: u64|
            start + pos < b < start + pos + length ==> !#[trigger] e.refs.types.contains_key(b))
            ==> is_begun(e, start, length, pos),
{
    let end = start + pos + length;
    let next = next_referenced(e.refs.types, start + pos + 1, end);
    lemma_next_referenced(e.refs.types, start + pos + 1, end);
    if start + pos < a < next {
        assert(!e.refs.types.contains_key(a as int as u64));
    }
    if next < end && end <= u64::MAX {
        assert(e.refs.types.contains_key(next as u64));
    }
}

} // verus!
