//! Which section each address of a binary belongs to.

use rangemap::RangeMap;
use std::ops::Range;
use vstd::prelude::*;

use crate::error::Error;
use crate::nso::nso_header::{HeaderView, NsoHeader, NsoSegment};
use crate::ranges::{self, all_runs, insert_range, new_range_map, runs_overlapping, value_at};

verus! {

/// The kinds of sections, in the order in which they usually come.
#[derive(Debug, Clone, Copy, PartialEq, Eq, Structural)]
pub enum SectionType {
    Crt0,
    Text,
    Plt,
    ModuleName,
    RelDyn,
    RelaDyn,
    RelPlt,
    RelaPlt,
    Hash,
    GnuHash,
    Dynsym,
    Dynstr,
    Rodata,
    Embed,
    GccExceptTable,
    EhFrameHdr,
    EhFrame,
    NoteGnuBuildId,
    Data,
    Dynamic,
    UnknownData,
    DataRelaRo,
    DataRelRo,
    GotPlt,
    Got,
    PreinitArray,
    InitArray,
    FiniArray,
    Tdata,
    Tbss,
    Bss,
    Unknown,
    Empty,
    Align,
}

impl SectionType {
    /// The number that stands for the section type in a range map.
    pub open spec fn number(self) -> u64 {
        match self {
            SectionType::Crt0 => 0,
            SectionType::Text => 1,
            SectionType::Plt => 2,
            SectionType::ModuleName => 3,
            SectionType::RelDyn => 4,
            SectionType::RelaDyn => 5,
            SectionType::RelPlt => 6,
            SectionType::RelaPlt => 7,
            SectionType::Hash => 8,
            SectionType::GnuHash => 9,
            SectionType::Dynsym => 10,
            SectionType::Dynstr => 11,
            SectionType::Rodata => 12,
            SectionType::Embed => 13,
            SectionType::GccExceptTable => 14,
            SectionType::EhFrameHdr => 15,
            SectionType::EhFrame => 16,
            SectionType::NoteGnuBuildId => 17,
            SectionType::Data => 18,
            SectionType::Dynamic => 19,
            SectionType::UnknownData => 20,
            SectionType::DataRelaRo => 21,
            SectionType::DataRelRo => 22,
            SectionType::GotPlt => 23,
            SectionType::Got => 24,
            SectionType::PreinitArray => 25,
            SectionType::InitArray => 26,
            SectionType::FiniArray => 27,
            SectionType::Tdata => 28,
            SectionType::Tbss => 29,
            SectionType::Bss => 30,
            SectionType::Unknown => 31,
            SectionType::Empty => 32,
            SectionType::Align => 33,
        }
    }

    /// The section type that a number stands for.
    pub open spec fn numbered(number: u64) -> SectionType {
        if number == 0 {
            SectionType::Crt0
        } else if number == 1 {
            SectionType::Text
        } else if number == 2 {
            SectionType::Plt
        } else if number == 3 {
            SectionType::ModuleName
        } else if number == 4 {
            SectionType::RelDyn
        } else if number == 5 {
            SectionType::RelaDyn
        } else if number == 6 {
            SectionType::RelPlt
        } else if number == 7 {
            SectionType::RelaPlt
        } else if number == 8 {
            SectionType::Hash
        } else if number == 9 {
            SectionType::GnuHash
        } else if number == 10 {
            SectionType::Dynsym
        } else if number == 11 {
            SectionType::Dynstr
        } else if number == 12 {
            SectionType::Rodata
        } else if number == 13 {
            SectionType::Embed
        } else if number == 14 {
            SectionType::GccExceptTable
        } else if number == 15 {
            SectionType::EhFrameHdr
        } else if number == 16 {
            SectionType::EhFrame
        } else if number == 17 {
            SectionType::NoteGnuBuildId
        } else if number == 18 {
            SectionType::Data
        } else if number == 19 {
            SectionType::Dynamic
        } else if number == 20 {
            SectionType::UnknownData
        } else if number == 21 {
            SectionType::DataRelaRo
        } else if number == 22 {
            SectionType::DataRelRo
        } else if number == 23 {
            SectionType::GotPlt
        } else if number == 24 {
            SectionType::Got
        } else if number == 25 {
            SectionType::PreinitArray
        } else if number == 26 {
            SectionType::InitArray
        } else if number == 27 {
            SectionType::FiniArray
        } else if number == 28 {
            SectionType::Tdata
        } else if number == 29 {
            SectionType::Tbss
        } else if number == 30 {
            SectionType::Bss
        } else if number == 31 {
            SectionType::Unknown
        } else if number == 32 {
            SectionType::Empty
        } else {
            SectionType::Align
        }
    }

    /// There may be several sections of this type.
    pub open spec fn may_repeat(self) -> bool {
        self == SectionType::Unknown || self == SectionType::Empty || self == SectionType::Align
    }

    fn to_number(self) -> (r: u64)
        ensures
            r == self.number(),
            SectionType::numbered(r) == self,
    {
        match self {
            SectionType::Crt0 => 0,
            SectionType::Text => 1,
            SectionType::Plt => 2,
            SectionType::ModuleName => 3,
            SectionType::RelDyn => 4,
            SectionType::RelaDyn => 5,
            SectionType::RelPlt => 6,
            SectionType::RelaPlt => 7,
            SectionType::Hash => 8,
            SectionType::GnuHash => 9,
            SectionType::Dynsym => 10,
            SectionType::Dynstr => 11,
            SectionType::Rodata => 12,
            SectionType::Embed => 13,
            SectionType::GccExceptTable => 14,
            SectionType::EhFrameHdr => 15,
            SectionType::EhFrame => 16,
            SectionType::NoteGnuBuildId => 17,
            SectionType::Data => 18,
            SectionType::Dynamic => 19,
            SectionType::UnknownData => 20,
            SectionType::DataRelaRo => 21,
            SectionType::DataRelRo => 22,
            SectionType::GotPlt => 23,
            SectionType::Got => 24,
            SectionType::PreinitArray => 25,
            SectionType::InitArray => 26,
            SectionType::FiniArray => 27,
            SectionType::Tdata => 28,
            SectionType::Tbss => 29,
            SectionType::Bss => 30,
            SectionType::Unknown => 31,
            SectionType::Empty => 32,
            SectionType::Align => 33,
        }
    }

    fn from_number(number: u64) -> (r: SectionType)
        ensures
            r == SectionType::numbered(number),
    {
        if number == 0 {
            SectionType::Crt0
        } else if number == 1 {
            SectionType::Text
        } else if number == 2 {
            SectionType::Plt
        } else if number == 3 {
            SectionType::ModuleName
        } else if number == 4 {
            SectionType::RelDyn
        } else if number == 5 {
            SectionType::RelaDyn
        } else if number == 6 {
            SectionType::RelPlt
        } else if number == 7 {
            SectionType::RelaPlt
        } else if number == 8 {
            SectionType::Hash
        } else if number == 9 {
            SectionType::GnuHash
        } else if number == 10 {
            SectionType::Dynsym
        } else if number == 11 {
            SectionType::Dynstr
        } else if number == 12 {
            SectionType::Rodata
        } else if number == 13 {
            SectionType::Embed
        } else if number == 14 {
            SectionType::GccExceptTable
        } else if number == 15 {
            SectionType::EhFrameHdr
        } else if number == 16 {
            SectionType::EhFrame
        } else if number == 17 {
            SectionType::NoteGnuBuildId
        } else if number == 18 {
            SectionType::Data
        } else if number == 19 {
            SectionType::Dynamic
        } else if number == 20 {
            SectionType::UnknownData
        } else if number == 21 {
            SectionType::DataRelaRo
        } else if number == 22 {
            SectionType::DataRelRo
        } else if number == 23 {
            SectionType::GotPlt
        } else if number == 24 {
            SectionType::Got
        } else if number == 25 {
            SectionType::PreinitArray
        } else if number == 26 {
            SectionType::InitArray
        } else if number == 27 {
            SectionType::FiniArray
        } else if number == 28 {
            SectionType::Tdata
        } else if number == 29 {
            SectionType::Tbss
        } else if number == 30 {
            SectionType::Bss
        } else if number == 31 {
            SectionType::Unknown
        } else if number == 32 {
            SectionType::Empty
        } else {
            SectionType::Align
        }
    }
}

/// The sections of a binary.
pub struct SectionMap {
    map: RangeMap<u64, u64>,
}

impl View for SectionMap {
    type V = Map<u64, SectionType>;

    /// The section type of each address.
    closed spec fn view(&self) -> Map<u64, SectionType> {
        ranges::entries(self.map).map_values(|number: u64| SectionType::numbered(number))
    }
}

/// `start..end` is one section: the longest stretch of addresses of type `section_type`.
pub open spec fn is_section(
    m: Map<u64, SectionType>,
    start: u64,
    end: u64,
    section_type: SectionType,
) -> bool {
    &&& start < end
    &&& forall|a: u64| start <= a < end ==> #[trigger] m.contains_key(a) && m[a] == section_type
    &&& !(start > 0 && m.contains_key((start - 1) as u64) && m[(start - 1) as u64] == section_type)
    &&& !(m.contains_key(end) && m[end] == section_type)
}

/// The addresses of `start..end` belong to the section `section_type`, the others as in `m`.
pub open spec fn with_section(
    m: Map<u64, SectionType>,
    start: u64,
    end: u64,
    section_type: SectionType,
) -> Map<u64, SectionType> {
    Map::new(
        |a: u64| start <= a < end || m.contains_key(a),
        |a: u64|
            if start <= a < end {
                section_type
            } else {
                m[a]
            },
    )
}

/// A section that is known already overlaps `start..end`.
pub open spec fn is_occupied(m: Map<u64, SectionType>, start: u64, end: u64) -> bool {
    exists|s: u64, e: u64, t: SectionType| #[trigger]
        is_section(m, s, e, t) && start < e && s < end && t != SectionType::Unknown
}

/// There is a section of this type.
pub open spec fn has_type(m: Map<u64, SectionType>, section_type: SectionType) -> bool {
    exists|a: u64| #[trigger] m.contains_key(a) && m[a] == section_type
}

/// What comes of adding a section.
pub open spec fn inserted(
    m: Map<u64, SectionType>,
    start: u64,
    end: u64,
    section_type: SectionType,
) -> Result<Map<u64, SectionType>, Error> {
    if is_occupied(m, start, end) {
        Err(Error::SectionOccupied)
    } else if !section_type.may_repeat() && has_type(m, section_type) {
        Err(Error::SectionRepeated)
    } else {
        Ok(with_section(m, start, end, section_type))
    }
}

/// All numbers in `m` stand for a section type.
spec fn are_types(m: Map<u64, u64>) -> bool {
    forall|a: u64| #[trigger] m.contains_key(a) ==> m[a] <= SectionType::Align.number()
}

/// The section types that the numbers in `m` stand for.
spec fn typed(m: Map<u64, u64>) -> Map<u64, SectionType> {
    m.map_values(|number: u64| SectionType::numbered(number))
}

proof fn lemma_numbers(number: u64, section_type: SectionType)
    ensures
        number <= SectionType::Align.number() ==> SectionType::numbered(number).number() == number,
        SectionType::numbered(section_type.number()) == section_type,
        section_type.number() <= SectionType::Align.number(),
{
}

proof fn lemma_same_stretch(
    m: Map<u64, u64>,
    number: u64,
    types: Map<u64, SectionType>,
    t: SectionType,
    start: u64,
    end: u64,
)
    requires
        forall|a: u64|
            #![trigger m.contains_key(a)]
            #![trigger types.contains_key(a)]
            #![trigger m[a]]
            #![trigger types[a]]
            m.contains_key(a) == types.contains_key(a) && (m.contains_key(a) ==> (m[a] == number)
                == (types[a] == t)),
    ensures
        ranges::is_run(m, start, end, number) == is_section(types, start, end, t),
{
}

proof fn lemma_run_is_section(m: Map<u64, u64>, start: u64, end: u64, t: SectionType)
    requires
        are_types(m),
    ensures
        ranges::is_run(m, start, end, t.number()) == is_section(typed(m), start, end, t),
{
    let types = typed(m);
    assert forall|a: u64|
        #![trigger m.contains_key(a)]
        #![trigger types.contains_key(a)]
        #![trigger m[a]]
        #![trigger types[a]]
        m.contains_key(a) == types.contains_key(a) && (m.contains_key(a) ==> (m[a] == t.number())
            == (types[a] == t)) by {
        if m.contains_key(a) {
            lemma_numbers(m[a], t);
        }
    }
    lemma_same_stretch(m, t.number(), types, t, start, end);
}

proof fn lemma_with_section(m: Map<u64, u64>, start: u64, end: u64, t: SectionType)
    requires
        are_types(m),
    ensures
        typed(ranges::with_range(m, start, end, t.number())) == with_section(
            typed(m),
            start,
            end,
            t,
        ),
        are_types(ranges::with_range(m, start, end, t.number())),
{
    lemma_numbers(0, t);
    let after = ranges::with_range(m, start, end, t.number());
    assert(typed(after) =~= with_section(typed(m), start, end, t));
}

/// `start..end` is the first section of this type.
pub open spec fn is_first_section(
    m: Map<u64, SectionType>,
    section_type: SectionType,
    range: (u64, u64),
) -> bool {
    &&& is_section(m, range.0, range.1, section_type)
    &&& forall|a: u64| a < range.0 && #[trigger] m.contains_key(a) ==> m[a] != section_type
}

/// The first section of this type, if there is any.
pub open spec fn section_range(m: Map<u64, SectionType>, section_type: SectionType) -> Option<
    (u64, u64),
> {
    if exists|range: (u64, u64)| is_first_section(m, section_type, range) {
        Some(choose|range: (u64, u64)| is_first_section(m, section_type, range))
    } else {
        None
    }
}

pub proof fn lemma_first_section(m: Map<u64, SectionType>, t: SectionType, range: (u64, u64))
    requires
        is_first_section(m, t, range),
    ensures
        section_range(m, t) == Some(range),
{
    let other = choose|range: (u64, u64)| is_first_section(m, t, range);
    assert(m.contains_key(range.0) && m.contains_key(other.0));
    assert(range.0 == other.0);
    if range.1 < other.1 {
        assert(m.contains_key(range.1));
    } else if other.1 < range.1 {
        assert(m.contains_key(other.1));
    }
}

/// The start of the section around `a`.
proof fn lemma_section_start(m: Map<u64, SectionType>, a: u64) -> (start: u64)
    requires
        m.contains_key(a),
    ensures
        start <= a,
        forall|b: u64| start <= b <= a ==> #[trigger] m.contains_key(b) && m[b] == m[a],
        !(start > 0 && m.contains_key((start - 1) as u64) && m[(start - 1) as u64] == m[a]),
    decreases a,
{
    if a == 0 {
        a
    } else {
        let below = (a - 1) as u64;
        if m.contains_key(below) && m[below] == m[a] {
            lemma_section_start(m, below)
        } else {
            a
        }
    }
}

/// The end of the section around `a`.
proof fn lemma_section_end(m: Map<u64, SectionType>, a: u64) -> (end: u64)
    requires
        m.contains_key(a),
        !m.contains_key(u64::MAX),
    ensures
        a < end,
        forall|b: u64| a <= b < end ==> #[trigger] m.contains_key(b) && m[b] == m[a],
        !(m.contains_key(end) && m[end] == m[a]),
    decreases u64::MAX - a,
{
    let above = (a + 1) as u64;
    if m.contains_key(above) && m[above] == m[a] {
        lemma_section_end(m, above)
    } else {
        above
    }
}

/// Adding a section leaves every address that belongs to a known section as it was.
pub proof fn law_known_sections_stay(
    m: Map<u64, SectionType>,
    start: u64,
    end: u64,
    section_type: SectionType,
    a: u64,
)
    requires
        inserted(m, start, end, section_type) is Ok,
        !m.contains_key(u64::MAX),
        m.contains_key(a),
        m[a] != SectionType::Unknown,
    ensures
        inserted(m, start, end, section_type)->Ok_0.contains_key(a),
        inserted(m, start, end, section_type)->Ok_0[a] == m[a],
{
    if start <= a < end {
        let s = lemma_section_start(m, a);
        let e = lemma_section_end(m, a);
        assert(is_section(m, s, e, m[a]));
    }
}

/// Every type that may not repeat has at most one section.
pub open spec fn has_single_sections(m: Map<u64, SectionType>) -> bool {
    forall|a: u64, b: u64, c: u64|
        #![trigger m.contains_key(a), m.contains_key(b), m.contains_key(c)]
        a <= b <= c && m.contains_key(a) && m.contains_key(c) && m[a] == m[c]
            && !m[a].may_repeat() ==> m.contains_key(b) && m[b] == m[a]
}

/// Adding sections never gives a type that may not repeat a second section.
pub proof fn law_sections_stay_single(
    m: Map<u64, SectionType>,
    start: u64,
    end: u64,
    section_type: SectionType,
)
    requires
        has_single_sections(m),
        !m.contains_key(u64::MAX),
        inserted(m, start, end, section_type) is Ok,
    ensures
        has_single_sections(inserted(m, start, end, section_type)->Ok_0),
{
    let after = inserted(m, start, end, section_type)->Ok_0;
    assert forall|a: u64, b: u64, c: u64|
        #![trigger after.contains_key(a), after.contains_key(b), after.contains_key(c)]
        a <= b <= c && after.contains_key(a) && after.contains_key(c) && after[a] == after[c]
            && !after[a].may_repeat() implies after.contains_key(b) && after[b] == after[a] by {
        if start <= a < end && start <= c < end {
        } else {
            if start <= a < end {
                assert(m.contains_key(c) && has_type(m, section_type));
            } else if start <= c < end {
                assert(m.contains_key(a) && has_type(m, section_type));
            } else {
                assert(m.contains_key(a) && m.contains_key(c));
                if !m.contains_key(b) {
                    assert(false);
                }
                law_known_sections_stay(m, start, end, section_type, b);
            }
        }
    }
}

/// `start` rounded up to a multiple of `align`.
pub open spec fn aligned(start: int, align: int) -> int {
    (start + align - 1) / align * align
}

/// What comes of filling up to a multiple of `align`.
pub open spec fn align_inserted(m: Map<u64, SectionType>, start: u64, align: u64) -> Result<
    Map<u64, SectionType>,
    Error,
> {
    let end = aligned(start as int, align as int);
    if end > start {
        inserted(m, start, end as u64, SectionType::Align)
    } else {
        Ok(m)
    }
}

/// The end of the last segment.
pub open spec fn max_address(header: HeaderView) -> int {
    let text = header.end(NsoSegment::Text);
    let rodata = header.end(NsoSegment::Rodata);
    let data = header.end(NsoSegment::Data);
    if text >= rodata && text >= data {
        text
    } else if rodata >= data {
        rodata
    } else {
        data
    }
}

/// `a` belongs to one of the segments.
pub open spec fn is_in_segment(header: HeaderView, a: u64) -> bool {
    exists|segment: NsoSegment| header.offset(segment) <= a < #[trigger] header.end(segment)
}

/// Before anything is known, the segments are unknown sections, and between them is nothing.
pub open spec fn initial_sections(header: HeaderView) -> Map<u64, SectionType> {
    Map::new(
        |a: u64| a < max_address(header),
        |a: u64|
            if is_in_segment(header, a) {
                SectionType::Unknown
            } else {
                SectionType::Empty
            },
    )
}

/// A segment has a place in the 32-bit address space.
pub open spec fn is_placed(header: HeaderView, segment: NsoSegment) -> bool {
    header.segment(segment).mem_size > 0 && header.end(segment) <= u32::MAX
}

/// All segments have a place in the 32-bit address space.
pub open spec fn are_placed(header: HeaderView) -> bool {
    is_placed(header, NsoSegment::Text) && is_placed(header, NsoSegment::Rodata) && is_placed(
        header,
        NsoSegment::Data,
    )
}

impl SectionMap {
    #[verifier::type_invariant]
    spec fn has_types(self) -> bool {
        are_types(ranges::entries(self.map))
    }

    /// The sections as they are before anything is known.
    pub fn new(header: &NsoHeader) -> (r: Result<Self, Error>)
        requires
            are_placed(header@),
        ensures
            r matches Ok(sections) && sections@ == initial_sections(header@),
    {
        let text: u64 = header.get_segment_mem_offset(&NsoSegment::Text) as u64;
        let text_end: u64 = text + header.get_segment_mem_size(&NsoSegment::Text) as u64;
        let rodata: u64 = header.get_segment_mem_offset(&NsoSegment::Rodata) as u64;
        let rodata_end: u64 = rodata + header.get_segment_mem_size(&NsoSegment::Rodata) as u64;
        let data: u64 = header.get_segment_mem_offset(&NsoSegment::Data) as u64;
        let data_end: u64 = data + header.get_segment_mem_size(&NsoSegment::Data) as u64;
        let max: u64 = if text_end >= rodata_end && text_end >= data_end {
            text_end
        } else if rodata_end >= data_end {
            rodata_end
        } else {
            data_end
        };
        let mut map = new_range_map();
        insert_range(&mut map, 0, max, SectionType::Empty.to_number());
        let unknown: u64 = SectionType::Unknown.to_number();
        insert_range(&mut map, text, text_end, unknown);
        insert_range(&mut map, rodata, rodata_end, unknown);
        insert_range(&mut map, data, data_end, unknown);
        let ghost m = ranges::entries(map);
        proof {
            assert forall|a: u64| is_in_segment(header@, a) <==> (text <= a < text_end || rodata <= a
                < rodata_end || data <= a < data_end) by {
                if text <= a < text_end {
                    assert(header@.offset(NsoSegment::Text) <= a < header@.end(NsoSegment::Text));
                }
                if rodata <= a < rodata_end {
                    assert(header@.offset(NsoSegment::Rodata) <= a < header@.end(
                        NsoSegment::Rodata,
                    ));
                }
                if data <= a < data_end {
                    assert(header@.offset(NsoSegment::Data) <= a < header@.end(NsoSegment::Data));
                }
                if is_in_segment(header@, a) {
                    let segment = choose|segment: NsoSegment|
                        header@.offset(segment) <= a < #[trigger] header@.end(segment);
                    match segment {
                        NsoSegment::Text => {},
                        NsoSegment::Rodata => {},
                        NsoSegment::Data => {},
                    }
                }
            }
            assert(typed(m) =~= initial_sections(header@));
        }
        Ok(SectionMap { map })
    }

    /// Adds a section, which must not overlap any that is known already.
    pub fn insert(&mut self, start: u64, end: u64, section_type: SectionType) -> (r: Result<
        (),
        Error,
    >)
        requires
            inserted(old(self)@, start, end, section_type) is Ok ==> start < end,
        ensures
            match r {
                Ok(()) => inserted(old(self)@, start, end, section_type) == Ok::<
                    Map<u64, SectionType>,
                    Error,
                >(final(self)@),
                Err(e) => final(self)@ == old(self)@ && inserted(
                    old(self)@,
                    start,
                    end,
                    section_type,
                ) == Err::<Map<u64, SectionType>, Error>(e),
            },
    {
        proof {
            use_type_invariant(&*self);
        }
        let ghost m = ranges::entries(self.map);
        let unknown: u64 = SectionType::Unknown.to_number();
        let overlapping = runs_overlapping(&self.map, start, end);
        let mut i: usize = 0;
        while i < overlapping.len()
            invariant
                i <= overlapping@.len(),
                m == ranges::entries(self.map),
                are_types(m),
                self@ == typed(m),
                old(self)@ == typed(m),
                unknown == SectionType::Unknown.number(),
                ranges::are_runs(m, overlapping@),
                ranges::are_overlaps(m, start, end, overlapping@),
                forall|k: int| 0 <= k < i ==> (#[trigger] overlapping@[k]).2 == unknown,
            decreases overlapping@.len() - i,
        {
            let run: (u64, u64, u64) = overlapping[i];
            if run.2 != unknown {
                proof {
                    assert(ranges::is_run(
                        m,
                        overlapping@[i as int].0,
                        overlapping@[i as int].1,
                        overlapping@[i as int].2,
                    ));
                    assert(m.contains_key(run.0));
                    let t = SectionType::numbered(run.2);
                    lemma_numbers(run.2, t);
                    lemma_run_is_section(m, run.0, run.1, t);
                    assert(is_section(self@, run.0, run.1, t));
                }
                return Err(Error::SectionOccupied);
            }
            i = i + 1;
        }
        proof {
            if is_occupied(self@, start, end) {
                let (s, e, t) = choose|s: u64, e: u64, t: SectionType| #[trigger]
                    is_section(self@, s, e, t) && start < e && s < end && t
                        != SectionType::Unknown;
                lemma_run_is_section(m, s, e, t);
                lemma_numbers(0, t);
                assert(ranges::is_run(m, s, e, t.number()));
                assert(overlapping@.contains((s, e, t.number())));
                let k = choose|k: int|
                    0 <= k < overlapping@.len() && overlapping@[k] == (s, e, t.number());
                assert(overlapping@[k].2 == unknown);
                lemma_numbers(unknown, t);
            }
        }
        let number: u64 = section_type.to_number();
        if section_type != SectionType::Unknown && section_type != SectionType::Empty
            && section_type != SectionType::Align && self.has_number(number) {
            proof {
                let a = choose|a: u64| #[trigger] m.contains_key(a) && m[a] == number;
                lemma_numbers(number, section_type);
                assert(self@.contains_key(a) && self@[a] == section_type);
            }
            return Err(Error::SectionRepeated);
        }
        proof {
            if !section_type.may_repeat() && has_type(self@, section_type) {
                let a = choose|a: u64| #[trigger] self@.contains_key(a) && self@[a] == section_type;
                assert(m.contains_key(a));
                lemma_numbers(m[a], section_type);
            }
            lemma_with_section(m, start, end, section_type);
        }
        let mut map = new_range_map();
        std::mem::swap(&mut self.map, &mut map);
        insert_range(&mut map, start, end, number);
        self.map = map;
        Ok(())
    }

    fn has_number(&self, number: u64) -> (r: bool)
        ensures
            r == exists|a: u64| #[trigger]
                ranges::entries(self.map).contains_key(a) && ranges::entries(self.map)[a] == number,
    {
        let ghost m = ranges::entries(self.map);
        let runs = all_runs(&self.map);
        let mut i: usize = 0;
        while i < runs.len()
            invariant
                i <= runs@.len(),
                m == ranges::entries(self.map),
                ranges::are_runs(m, runs@),
                forall|k: int| 0 <= k < i ==> (#[trigger] runs@[k]).2 != number,
            decreases runs@.len() - i,
        {
            assert(ranges::is_run(m, runs@[i as int].0, runs@[i as int].1, runs@[i as int].2));
            if runs[i].2 == number {
                assert(m.contains_key(runs@[i as int].0));
                return true;
            }
            i = i + 1;
        }
        proof {
            assert forall|a: u64| #[trigger] m.contains_key(a) implies m[a] != number by {
                assert(ranges::covers(runs@, a));
                let k = choose|k: int|
                    0 <= k < runs@.len() && (#[trigger] runs@[k]).0 <= a < runs@[k].1;
                assert(ranges::is_run(m, runs@[k].0, runs@[k].1, runs@[k].2));
            }
        }
        false
    }

    /// Adds a section of `size` bytes.
    pub fn insert_size(&mut self, start: u64, size: u64, section_type: SectionType) -> (r: Result<
        (),
        Error,
    >)
        requires
            start + size <= u64::MAX,
            inserted(old(self)@, start, (start + size) as u64, section_type) is Ok ==> size > 0,
        ensures
            match r {
                Ok(()) => inserted(old(self)@, start, (start + size) as u64, section_type) == Ok::<
                    Map<u64, SectionType>,
                    Error,
                >(final(self)@),
                Err(e) => final(self)@ == old(self)@ && inserted(
                    old(self)@,
                    start,
                    (start + size) as u64,
                    section_type,
                ) == Err::<Map<u64, SectionType>, Error>(e),
            },
    {
        self.insert(start, start + size, section_type)
    }

    /// Marks the addresses from `start` to the next multiple of `align` as filling.
    pub fn insert_align(&mut self, start: u64, align: u64) -> (r: Result<(), Error>)
        requires
            align > 0,
            start + align - 1 <= u64::MAX,
        ensures
            match r {
                Ok(()) => align_inserted(old(self)@, start, align) == Ok::<
                    Map<u64, SectionType>,
                    Error,
                >(final(self)@),
                Err(e) => final(self)@ == old(self)@ && align_inserted(old(self)@, start, align)
                    == Err::<Map<u64, SectionType>, Error>(e),
            },
    {
        let last: u64 = start + (align - 1);
        assert(last / align * align <= last) by (nonlinear_arith)
            requires
                align > 0,
        ;
        let end: u64 = last / align * align;
        if end > start {
            self.insert(start, end, SectionType::Align)?;
        }
        Ok(())
    }

    /// The type of the section that `address` belongs to.
    pub fn get(&self, address: u64) -> (r: Option<SectionType>)
        ensures
            r == (if self@.contains_key(address) {
                Some(self@[address])
            } else {
                None
            }),
    {
        match value_at(&self.map, address) {
            Some(number) => Some(SectionType::from_number(number)),
            None => None,
        }
    }

    /// The first section of a type.
    pub fn get_range(&self, stype: &SectionType) -> (r: Option<Range<u64>>)
        ensures
            match r {
                Some(range) => section_range(self@, *stype) == Some((range.start, range.end)),
                None => section_range(self@, *stype) is None && !has_type(self@, *stype),
            },
    {
        proof {
            use_type_invariant(self);
        }
        let ghost m = ranges::entries(self.map);
        let number: u64 = stype.to_number();
        let runs = all_runs(&self.map);
        let mut i: usize = 0;
        while i < runs.len()
            invariant
                i <= runs@.len(),
                m == ranges::entries(self.map),
                are_types(m),
                self@ == typed(m),
                number == stype.number(),
                ranges::are_runs(m, runs@),
                forall|a: u64| #[trigger] m.contains_key(a) ==> ranges::covers(runs@, a),
                forall|k: int| 0 <= k < i ==> (#[trigger] runs@[k]).2 != number,
            decreases runs@.len() - i,
        {
            let run: (u64, u64, u64) = runs[i];
            assert(ranges::is_run(m, runs@[i as int].0, runs@[i as int].1, runs@[i as int].2));
            if run.2 == number {
                proof {
                    lemma_run_is_section(m, run.0, run.1, *stype);
                    assert forall|a: u64| a < run.0 && #[trigger] self@.contains_key(a) implies self@[a]
                        != *stype by {
                        assert(m.contains_key(a));
                        let k = choose|k: int|
                            0 <= k < runs@.len() && (#[trigger] runs@[k]).0 <= a < runs@[k].1;
                        if k >= i {
                            if k > i {
                                assert(runs@[i as int].1 <= runs@[k].0);
                            }
                        } else {
                            assert(ranges::is_run(m, runs@[k].0, runs@[k].1, runs@[k].2));
                            lemma_numbers(m[a], *stype);
                        }
                    }
                    lemma_first_section(self@, *stype, (run.0, run.1));
                }
                return Some(run.0..run.1);
            }
            i = i + 1;
        }
        proof {
            assert forall|a: u64| #[trigger] self@.contains_key(a) implies self@[a] != *stype by {
                assert(m.contains_key(a));
                let k = choose|k: int|
                    0 <= k < runs@.len() && (#[trigger] runs@[k]).0 <= a < runs@[k].1;
                assert(ranges::is_run(m, runs@[k].0, runs@[k].1, runs@[k].2));
                lemma_numbers(m[a], *stype);
            }
            if exists|range: (u64, u64)| is_first_section(self@, *stype, range) {
                let range = choose|range: (u64, u64)| is_first_section(self@, *stype, range);
                assert(self@.contains_key(range.0));
            }
        }
        None
    }

    /// All sections, lowest first.
    pub fn iter(&self) -> (r: Vec<(u64, u64, SectionType)>)
        ensures
            forall|i: int|
                0 <= i < r@.len() ==> is_section(
                    self@,
                    (#[trigger] r@[i]).0,
                    r@[i].1,
                    r@[i].2,
                ),
            forall|i: int, j: int|
                0 <= i < j < r@.len() ==> (#[trigger] r@[i]).1 <= (#[trigger] r@[j]).0,
            forall|a: u64| #[trigger]
                self@.contains_key(a) ==> exists|i: int|
                    0 <= i < r@.len() && (#[trigger] r@[i]).0 <= a < r@[i].1,
    {
        proof {
            use_type_invariant(self);
        }
        let ghost m = ranges::entries(self.map);
        let runs = all_runs(&self.map);
        let mut list: Vec<(u64, u64, SectionType)> = Vec::new();
        let mut i: usize = 0;
        while i < runs.len()
            invariant
                i <= runs@.len(),
                list@.len() == i,
                m == ranges::entries(self.map),
                are_types(m),
                self@ == typed(m),
                ranges::are_runs(m, runs@),
                forall|k: int|
                    0 <= k < i ==> is_section(
                        self@,
                        (#[trigger] list@[k]).0,
                        list@[k].1,
                        list@[k].2,
                    ) && list@[k].0 == runs@[k].0 && list@[k].1 == runs@[k].1,
            decreases runs@.len() - i,
        {
            let run: (u64, u64, u64) = runs[i];
            proof {
                assert(ranges::is_run(m, runs@[i as int].0, runs@[i as int].1, runs@[i as int].2));
                assert(m.contains_key(run.0));
                let t = SectionType::numbered(run.2);
                lemma_numbers(run.2, t);
                lemma_run_is_section(m, run.0, run.1, t);
            }
            list.push((run.0, run.1, SectionType::from_number(run.2)));
            i = i + 1;
        }
        proof {
            assert forall|i: int, j: int| 0 <= i < j < list@.len() implies (#[trigger] list@[i]).1 <= (
            #[trigger] list@[j]).0 by {
                assert(runs@[i].1 <= runs@[j].0);
            }
            assert forall|a: u64| #[trigger] self@.contains_key(a) implies exists|i: int|
                0 <= i < list@.len() && (#[trigger] list@[i]).0 <= a < list@[i].1 by {
                assert(m.contains_key(a));
                let k = choose|k: int|
                    0 <= k < runs@.len() && (#[trigger] runs@[k]).0 <= a < runs@[k].1;
                assert(list@[k].0 <= a < list@[k].1);
            }
        }
        list
    }

    /// Checks that every address belongs to a known section.
    pub fn final_check(&self) -> (r: Result<(), Error>)
        ensures
            r == (if has_type(self@, SectionType::Unknown) {
                Err(Error::SectionUnknown)
            } else {
                Ok(())
            }),
    {
        proof {
            use_type_invariant(self);
        }
        let ghost m = ranges::entries(self.map);
        let unknown: u64 = SectionType::Unknown.to_number();
        if self.has_number(unknown) {
            proof {
                let a = choose|a: u64| #[trigger] m.contains_key(a) && m[a] == unknown;
                assert(self@.contains_key(a) && self@[a] == SectionType::Unknown);
            }
            return Err(Error::SectionUnknown);
        }
        proof {
            if has_type(self@, SectionType::Unknown) {
                let a = choose|a: u64| #[trigger]
                    self@.contains_key(a) && self@[a] == SectionType::Unknown;
                assert(m.contains_key(a));
                lemma_numbers(m[a], SectionType::Unknown);
            }
        }
        Ok(())
    }
}

/// The addresses of this type are those of `start..end`, no more and no fewer.
pub open spec fn is_whole(
    m: Map<u64, SectionType>,
    start: int,
    end: int,
    section_type: SectionType,
) -> bool {
    &&& 0 <= start < end
    &&& forall|a: u64| start <= a < end ==> #[trigger] m.contains_key(a)
    &&& forall|a: u64| #[trigger]
        m.contains_key(a) ==> (m[a] == section_type <==> start <= a < end)
}

/// A whole section is what a look for its type finds.
pub proof fn lemma_whole_section(m: Map<u64, SectionType>, start: int, end: int, t: SectionType)
    requires
        is_whole(m, start, end, t),
        end <= u64::MAX,
    ensures
        section_range(m, t) == Some((start as u64, end as u64)),
{
    assert(is_first_section(m, t, (start as u64, end as u64)));
    lemma_first_section(m, t, (start as u64, end as u64));
}

/// A section that is added has the addresses that it was given, and all sections that were known before
/// keep theirs. Types that may repeat are left aside.
pub proof fn law_sections_keep_their_addresses(
    m: Map<u64, SectionType>,
    start: u64,
    end: u64,
    section_type: SectionType,
    s: int,
    e: int,
    t: SectionType,
)
    requires
        inserted(m, start, end, section_type) is Ok,
        !m.contains_key(u64::MAX),
        start < end,
    ensures
        !section_type.may_repeat() ==> is_whole(
            inserted(m, start, end, section_type)->Ok_0,
            start as int,
            end as int,
            section_type,
        ),
        !t.may_repeat() && is_whole(m, s, e, t) && e <= u64::MAX ==> is_whole(
            inserted(m, start, end, section_type)->Ok_0,
            s,
            e,
            t,
        ),
{
    let after = inserted(m, start, end, section_type)->Ok_0;
    if !section_type.may_repeat() {
        assert forall|a: u64| #[trigger] after.contains_key(a) implies (after[a] == section_type
            <==> start <= a < end) by {
            if !(start <= a < end) {
                assert(m.contains_key(a));
            }
        }
    }
    if !t.may_repeat() && is_whole(m, s, e, t) && e <= u64::MAX {
        assert forall|a: u64| s <= a < e implies #[trigger] after.contains_key(a) by {
            assert(m.contains_key(a));
        }
        assert forall|a: u64| #[trigger] after.contains_key(a) implies (after[a] == t <==> s <= a
            < e) by {
            if s <= a < e {
                assert(m.contains_key(a));
                law_known_sections_stay(m, start, end, section_type, a);
            } else if start <= a < end {
                if section_type == t {
                    assert(m.contains_key(s as u64));
                    assert(has_type(m, t));
                }
            } else {
                assert(m.contains_key(a));
            }
        }
    }
}

/// Filling goes to the next multiple of the alignment, and nowhere if `start` is one.
pub proof fn law_filling_ends_at_a_multiple(start: int, align: int)
    requires
        start >= 0,
        align > 0,
    ensures
        aligned(start, align) % align == 0,
        start <= aligned(start, align) < start + align,
        start % align == 0 ==> aligned(start, align) == start,
{
    let last = start + align - 1;
    vstd::arithmetic::div_mod::lemma_fundamental_div_mod(last, align);
    vstd::arithmetic::div_mod::lemma_mod_bound(last, align);
    vstd::arithmetic::div_mod::lemma_mod_multiples_basic(last / align, align);
    vstd::arithmetic::mul::lemma_mul_is_commutative(last / align, align);
    if start % align == 0 {
        let end = aligned(start, align);
        let gap = end - start;
        vstd::arithmetic::div_mod::lemma_sub_mod_noop(end, start, align);
        vstd::arithmetic::div_mod::lemma_small_mod(0, align as nat);
        assert(gap % align == 0);
        vstd::arithmetic::div_mod::lemma_small_mod(gap as nat, align as nat);
    }
}

} // verus!
