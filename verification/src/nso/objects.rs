//! The data that belongs to an object.

use std::collections::{BTreeMap, HashSet, VecDeque};

use indexmap::IndexSet;
use vstd::prelude::*;
use vstd::slice::*;

use crate::error::Error;
use crate::file_list::{self, Info, Object};
use crate::fmt;
use crate::hacks::{self, Hacks};
use crate::lines::{self, put_decimal, put_line, put_line_of_four};
use crate::nso::adrp;
use crate::nso::data::{self, find_referenced, ExportView, Exporter, Progress};
use crate::nso::floats::{FloatTexts, FloatView};
use crate::nso::lookup::NsoLookupHelper;
use crate::nso::nso::NSO;
use crate::nso::section_map::{self, SectionType};
use crate::ordered::{self, ordered_keys};
use crate::reference_tracker::References;
use crate::sets::{self, insert_member, list_members, new_index_set};
use crate::strings::text_eq;

verus! {

/// Where the piece of data at `target` ends: at the next address that something refers to, at most
/// at the end of its section.
pub open spec fn piece_end(e: ExportView, t: SectionType, target: u64) -> Result<u64, Error> {
    match section_map::section_range(e.nso.sections, t) {
        None => Err(Error::SectionMissing),
        Some((_, end)) => Ok(
            data::next_referenced(e.refs.types, target + 1, end as int) as u64,
        ),
    }
}

/// The addresses from `start` up to `end`.
pub open spec fn addresses(start: int, end: int) -> Seq<u64> {
    Seq::new(
        if start < end {
            (end - start) as nat
        } else {
            0
        },
        |i: int| (start + i) as u64,
    )
}

/// What a reference to `target` means for an object: the addresses that belong to the object as
/// well, and whether the target is data of the object.
pub open spec fn reached(e: ExportView, target: u64) -> Result<(Seq<u64>, bool), Error> {
    if !e.nso.sections.contains_key(target) {
        Err(Error::SectionMissing)
    } else {
        match e.nso.sections[target] {
            SectionType::Rodata | SectionType::Data => match piece_end(
                e,
                e.nso.sections[target],
                target,
            ) {
                Err(error) => Err(error),
                Ok(end) => Ok((addresses(target as int, end as int), true)),
            },
            SectionType::Bss | SectionType::Embed => Ok((Seq::empty(), true)),
            SectionType::Got => Ok((seq![target], false)),
            SectionType::Dynsym
            | SectionType::Plt
            | SectionType::Text
            | SectionType::GotPlt => Ok((Seq::empty(), false)),
            _ => Err(Error::UnhandledSection),
        }
    }
}

/// Follows the references from the addresses in `queue`, first one first, each address once. Gives
/// the data that they point to, by the address that points there.
pub open spec fn gathered(
    e: ExportView,
    queue: Seq<u64>,
    handled: Set<u64>,
    found: Map<u64, u64>,
) -> Result<Map<u64, u64>, Error>
    decreases adrp::unvisited(handled), queue.len(),
{
    if queue.len() == 0 {
        Ok(found)
    } else {
        let source = queue[0];
        let rest = queue.subrange(1, queue.len() as int);
        if handled.contains(source) {
            gathered(e, rest, handled, found)
        } else {
            proof {
                adrp::lemma_visit(handled, source);
            }
            if !e.refs.sources.contains_key(source) {
                gathered(e, rest, handled.insert(source), found)
            } else {
                let target = e.refs.sources[source].1;
                match reached(e, target) {
                    Err(error) => Err(error),
                    Ok((more, kept)) => gathered(
                        e,
                        rest + more,
                        handled.insert(source),
                        if kept {
                            found.insert(source, target)
                        } else {
                            found
                        },
                    ),
                }
            }
        }
    }
}

/// The addresses of the instructions of an object.
pub open spec fn instruction_addresses(start: int, end: int) -> Seq<u64>
    decreases end + 4 - start,
{
    if start >= end {
        Seq::empty()
    } else {
        seq![start as u64] + instruction_addresses(start + 4, end)
    }
}

/// The data that an object refers to, in the order of the addresses that refer to it.
pub open spec fn object_targets(e: ExportView, infos: Seq<Info>) -> Result<Seq<u64>, Error> {
    match file_list::text_bounds(infos) {
        Err(error) => Err(error),
        Ok((start, end)) => match gathered(
            e,
            instruction_addresses(start as int, end as int),
            Set::empty(),
            Map::empty(),
        ) {
            Err(error) => Err(error),
            Ok(found) => Ok(ordered::values_from(found, 0)),
        },
    }
}

/// A section of an object file.
pub enum ReferencedSection {
    Rodata(String),
    Data,
    Bss,
    Embed,
}

/// What a [`ReferencedSection`] says.
pub enum ReferencedView {
    Rodata(Seq<char>),
    Data,
    Bss,
    Embed,
}

impl View for ReferencedSection {
    type V = ReferencedView;

    open spec fn view(&self) -> ReferencedView {
        match self {
            ReferencedSection::Rodata(name) => ReferencedView::Rodata(name@),
            ReferencedSection::Data => ReferencedView::Data,
            ReferencedSection::Bss => ReferencedView::Bss,
            ReferencedSection::Embed => ReferencedView::Embed,
        }
    }
}

impl ReferencedView {
    /// The name of the section.
    pub open spec fn name(self) -> Seq<char> {
        match self {
            ReferencedView::Rodata(name) => name,
            ReferencedView::Data => ".data"@,
            ReferencedView::Bss => ".bss"@,
            ReferencedView::Embed => ".embed"@,
        }
    }

    /// What the section is for.
    pub open spec fn permissions(self) -> Seq<char> {
        match self {
            ReferencedView::Rodata(_) => "\"a\""@,
            ReferencedView::Data => "\"aw\""@,
            ReferencedView::Bss => "\"aw\",@nobits"@,
            ReferencedView::Embed => "\"a\""@,
        }
    }
}

/// The name of the first part of `.rodata` from `from` on that holds `target`.
pub open spec fn rodata_name(
    subsections: Seq<(u64, u64, Seq<char>)>,
    target: u64,
    from: int,
) -> Seq<char>
    decreases subsections.len() - from,
{
    if from < 0 || from >= subsections.len() {
        ".rodata"@
    } else if subsections[from].0 <= target < subsections[from].1 {
        subsections[from].2
    } else {
        rodata_name(subsections, target, from + 1)
    }
}

/// The section of the object file that data goes to.
pub open spec fn object_section(
    e: ExportView,
    subsections: Seq<(u64, u64, Seq<char>)>,
    target: u64,
) -> Result<ReferencedView, Error> {
    if !e.nso.sections.contains_key(target) {
        Err(Error::SectionMissing)
    } else {
        match e.nso.sections[target] {
            SectionType::Rodata => Ok(ReferencedView::Rodata(rodata_name(subsections, target, 0))),
            SectionType::Data => Ok(ReferencedView::Data),
            SectionType::Bss => Ok(ReferencedView::Bss),
            SectionType::Embed => Ok(ReferencedView::Embed),
            _ => Err(Error::UnhandledSection),
        }
    }
}

/// The pieces of data of one section of an object file.
pub struct GroupView {
    pub section: ReferencedView,
    pub pieces: Seq<(u64, u64)>,
}

/// The first group from `from` on that is for the section.
pub open spec fn group_index(groups: Seq<GroupView>, section: ReferencedView, from: int) -> Option<
    int,
>
    decreases groups.len() - from,
{
    if from < 0 || from >= groups.len() {
        None
    } else if groups[from].section == section {
        Some(from)
    } else {
        group_index(groups, section, from + 1)
    }
}

/// The groups with one more piece, unless it is there already.
pub open spec fn with_piece(
    groups: Seq<GroupView>,
    section: ReferencedView,
    piece: (u64, u64),
) -> Seq<GroupView> {
    match group_index(groups, section, 0) {
        Some(i) => groups.update(
            i,
            GroupView { section, pieces: sets::with_member(groups[i].pieces, piece) },
        ),
        None => groups.push(GroupView { section, pieces: seq![piece] }),
    }
}

/// The groups with the pieces at the targets from `from` on.
pub open spec fn grouped(
    e: ExportView,
    subsections: Seq<(u64, u64, Seq<char>)>,
    targets: Seq<u64>,
    from: int,
    groups: Seq<GroupView>,
) -> Result<Seq<GroupView>, Error>
    decreases targets.len() - from,
{
    if from < 0 || from >= targets.len() {
        Ok(groups)
    } else {
        match object_section(e, subsections, targets[from]) {
            Err(error) => Err(error),
            Ok(section) => match piece_end(e, e.nso.sections[targets[from]], targets[from]) {
                Err(error) => Err(error),
                Ok(end) => grouped(
                    e,
                    subsections,
                    targets,
                    from + 1,
                    with_piece(groups, section, (targets[from], end)),
                ),
            },
        }
    }
}

/// `text` with a piece of data and an empty line.
pub open spec fn piece_text(
    e: ExportView,
    floats: FloatView,
    section: ReferencedView,
    piece: (u64, u64),
    text: Seq<char>,
) -> Result<Seq<char>, Error> {
    let (start, end) = piece;
    if section is Bss {
        if end < start {
            Err(Error::Overflow)
        } else {
            Ok(
                lines::line(
                    lines::line_of_two(text, "\t.skip "@, fmt::decimal(end - start)),
                    ""@,
                ),
            )
        }
    } else if end < start || end > e.nso.file.memory.len() {
        Err(Error::OutOfBounds)
    } else {
        match data::data_chunk(
            e,
            floats,
            e.nso.file.memory.subrange(start as int, end as int),
            start,
            end - start,
            false,
            Progress { text, pos: 0 },
        ) {
            Err(error) => Err(error),
            Ok(p) => Ok(lines::line(p.text, ""@)),
        }
    }
}

/// `text` with the pieces from `from` on.
pub open spec fn pieces_text(
    e: ExportView,
    floats: FloatView,
    group: GroupView,
    from: int,
    text: Seq<char>,
) -> Result<Seq<char>, Error>
    decreases group.pieces.len() - from,
{
    if from < 0 || from >= group.pieces.len() {
        Ok(text)
    } else {
        match piece_text(e, floats, group.section, group.pieces[from], text) {
            Err(error) => Err(error),
            Ok(next) => pieces_text(e, floats, group, from + 1, next),
        }
    }
}

/// `text` with the line that starts a section of an object file.
pub open spec fn group_start(section: ReferencedView, text: Seq<char>) -> Seq<char> {
    let a = lines::line(lines::line(text, ""@), ""@);
    let b = lines::line_of_four(
        a,
        ".section "@,
        section.name(),
        ", "@,
        section.permissions(),
    );
    lines::line(b, ""@)
}

/// `text` with the groups from `from` on.
pub open spec fn groups_text(
    e: ExportView,
    floats: FloatView,
    groups: Seq<GroupView>,
    from: int,
    text: Seq<char>,
) -> Result<Seq<char>, Error>
    decreases groups.len() - from,
{
    if from < 0 || from >= groups.len() {
        Ok(text)
    } else {
        match pieces_text(e, floats, groups[from], 0, group_start(groups[from].section, text)) {
            Err(error) => Err(error),
            Ok(next) => groups_text(e, floats, groups, from + 1, next),
        }
    }
}

/// The data of an object. The sections come in the order in which the object first refers to them.
pub open spec fn object_data(
    e: ExportView,
    floats: FloatView,
    infos: Seq<Info>,
    subsections: Seq<(u64, u64, Seq<char>)>,
) -> Result<Seq<char>, Error> {
    match object_targets(e, infos) {
        Err(error) => Err(error),
        Ok(targets) => match grouped(e, subsections, targets, 0, Seq::empty()) {
            Err(error) => Err(error),
            Ok(groups) => groups_text(e, floats, groups, 0, ""@),
        },
    }
}

struct Group {
    section: ReferencedSection,
    pieces: IndexSet<(u64, u64)>,
}

impl View for Group {
    type V = GroupView;

    closed spec fn view(&self) -> GroupView {
        GroupView { section: self.section@, pieces: sets::members(self.pieces) }
    }
}

spec fn group_views(groups: Seq<Group>) -> Seq<GroupView> {
    groups.map_values(|g: Group| g@)
}

impl<'a> Exporter<'a> {
    fn find_piece_end(&self, t: SectionType, target: u64) -> (r: Result<u64, Error>)
        ensures
            r == piece_end(self@, t, target),
    {
        match self.nso.sections.get_range(&t) {
            None => Err(Error::SectionMissing),
            Some(range) => Ok(find_referenced(self.references, target, range.end)),
        }
    }

    fn follow(&self, target: u64, queue: &mut VecDeque<u64>) -> (r: Result<bool, Error>)
        ensures
            match r {
                Ok(kept) => reached(self@, target) matches Ok((more, k)) && k == kept
                    && final(queue)@ == old(queue)@ + more,
                Err(error) => reached(self@, target) == Err::<(Seq<u64>, bool), Error>(error),
            },
    {
        let section = match self.nso.sections.get(target) {
            Some(section) => section,
            None => {
                return Err(Error::SectionMissing);
            },
        };
        match section {
            SectionType::Rodata | SectionType::Data => {
                let end: u64 = self.find_piece_end(section, target)?;
                let ghost before = queue@;
                let mut t: u64 = target;
                assert(before + addresses(target as int, target as int) =~= before);
                while t < end
                    invariant
                        target <= t,
                        t <= end || t == target,
                        queue@ == before + addresses(target as int, t as int),
                    decreases end - t,
                {
                    queue.push_back(t);
                    assert(before + addresses(target as int, t + 1) =~= (before + addresses(
                        target as int,
                        t as int,
                    )).push(t));
                    t = t + 1;
                }
                assert(addresses(target as int, t as int) =~= addresses(
                    target as int,
                    end as int,
                ));
                Ok(true)
            },
            SectionType::Bss | SectionType::Embed => {
                assert(queue@ + Seq::<u64>::empty() =~= queue@);
                Ok(true)
            },
            SectionType::Got => {
                let ghost before = queue@;
                queue.push_back(target);
                assert(before.push(target) =~= before + seq![target]);
                Ok(false)
            },
            SectionType::Dynsym | SectionType::Plt | SectionType::Text | SectionType::GotPlt => {
                assert(queue@ + Seq::<u64>::empty() =~= queue@);
                Ok(false)
            },
            _ => Err(Error::UnhandledSection),
        }
    }

    fn gather(&self, start: u32, end: u32) -> (r: Result<BTreeMap<u64, u64>, Error>)
        ensures
            ({
                let wanted = gathered(
                    self@,
                    instruction_addresses(start as int, end as int),
                    Set::empty(),
                    Map::empty(),
                );
                match r {
                    Ok(found) => wanted == Ok::<Map<u64, u64>, Error>(found@),
                    Err(error) => wanted == Err::<Map<u64, u64>, Error>(error),
                }
            }),
    {
        let ghost all = instruction_addresses(start as int, end as int);
        let mut queue: VecDeque<u64> = VecDeque::new();
        let mut address: u64 = start as u64;
        assert(queue@ + all =~= all);
        while address < end as u64
            invariant
                all == instruction_addresses(start as int, end as int),
                queue@ + instruction_addresses(address as int, end as int) == all,
                address <= end + 3 || address == start,
            decreases end + 4 - address,
        {
            let ghost before = queue@;
            queue.push_back(address);
            assert(queue@ + instruction_addresses(address + 4, end as int) =~= before
                + instruction_addresses(address as int, end as int));
            address = address + 4;
        }
        assert(queue@ =~= all);
        let mut handled: HashSet<u64> = HashSet::new();
        let mut found: BTreeMap<u64, u64> = BTreeMap::new();
        let ghost wanted = gathered(self@, all, Set::empty(), Map::empty());
        assert(handled@ =~= Set::<u64>::empty());
        assert(found@ =~= Map::<u64, u64>::empty());
        loop
            invariant
                wanted == gathered(
                    self@,
                    instruction_addresses(start as int, end as int),
                    Set::empty(),
                    Map::empty(),
                ),
                wanted == gathered(self@, queue@, handled@, found@),
            ensures
                wanted == Ok::<Map<u64, u64>, Error>(found@),
            decreases adrp::unvisited(handled@), queue@.len(),
        {
            let source: u64 = match queue.pop_front() {
                Some(source) => source,
                None => {
                    break;
                },
            };
            if handled.contains(&source) {
                continue;
            }
            proof {
                adrp::lemma_visit(handled@, source);
            }
            handled.insert(source);
            if let Some(target) = self.references.get_target_address(source) {
                if self.follow(target, &mut queue)? {
                    found.insert(source, target);
                }
            }
        }
        Ok(found)
    }

    fn find_object_section(&self, subsections: &Vec<(u64, u64, String)>, target: u64) -> (r: Result<
        (ReferencedSection, SectionType),
        Error,
    >)
        ensures
            match r {
                Ok((section, t)) => object_section(
                    self@,
                    hacks::subsection_views(subsections@),
                    target,
                ) == Ok::<ReferencedView, Error>(section@) && self@.nso.sections[target] == t,
                Err(error) => object_section(
                    self@,
                    hacks::subsection_views(subsections@),
                    target,
                ) == Err::<ReferencedView, Error>(error),
            },
    {
        match self.nso.sections.get(target) {
            None => Err(Error::SectionMissing),
            Some(SectionType::Rodata) => Ok(
                (
                    ReferencedSection::Rodata(find_rodata_name(subsections, target)),
                    SectionType::Rodata,
                ),
            ),
            Some(SectionType::Data) => Ok((ReferencedSection::Data, SectionType::Data)),
            Some(SectionType::Bss) => Ok((ReferencedSection::Bss, SectionType::Bss)),
            Some(SectionType::Embed) => Ok((ReferencedSection::Embed, SectionType::Embed)),
            Some(_) => Err(Error::UnhandledSection),
        }
    }

    fn group(&self, found: &BTreeMap<u64, u64>, subsections: &Vec<(u64, u64, String)>) -> (r: Result<
        Vec<Group>,
        Error,
    >)
        ensures
            ({
                let wanted = grouped(
                    self@,
                    hacks::subsection_views(subsections@),
                    ordered::values_from(found@, 0),
                    0,
                    Seq::empty(),
                );
                match r {
                    Ok(groups) => wanted == Ok::<Seq<GroupView>, Error>(group_views(groups@)),
                    Err(error) => wanted == Err::<Seq<GroupView>, Error>(error),
                }
            }),
    {
        let sources = ordered_keys(found);
        let ghost views = hacks::subsection_views(subsections@);
        let ghost targets = ordered::values_from(found@, 0);
        proof {
            ordered::lemma_values_in_order(found@, sources@);
        }
        let mut groups: Vec<Group> = Vec::new();
        assert(group_views(groups@) =~= Seq::<GroupView>::empty());
        let ghost wanted = grouped(self@, views, targets, 0, Seq::empty());
        let mut i: usize = 0;
        while i < sources.len()
            invariant
                i <= sources@.len(),
                views == hacks::subsection_views(subsections@),
                ordered::are_keys(found@, sources@),
                targets == ordered::values_from(found@, 0),
                targets == sources@.map_values(|k: u64| found@[k]),
                wanted == grouped(self@, views, targets, 0, Seq::empty()),
                wanted == grouped(self@, views, targets, i as int, group_views(groups@)),
            decreases sources@.len() - i,
        {
            assert(found@.contains_key(sources@[i as int]));
            assert(targets[i as int] == found@[sources@[i as int]]);
            if let Some(target) = found.get(&sources[i]) {
                let target: u64 = *target;
                let (section, t) = self.find_object_section(subsections, target)?;
                let end: u64 = self.find_piece_end(t, target)?;
                add_piece(&mut groups, section, (target, end));
            }
            i = i + 1;
        }
        Ok(groups)
    }

    fn put_piece(
        &self,
        out: &mut String,
        section: &ReferencedSection,
        piece: (u64, u64),
        floats: &FloatTexts,
    ) -> (r: Result<(), Error>)
        requires
            self@.wf(),
        ensures
            match r {
                Ok(()) => piece_text(self@, floats@, section@, piece, old(out)@) == Ok::<
                    Seq<char>,
                    Error,
                >(final(out)@),
                Err(error) => piece_text(self@, floats@, section@, piece, old(out)@) == Err::<
                    Seq<char>,
                    Error,
                >(error),
            },
    {
        let (start, end): (u64, u64) = piece;
        if let ReferencedSection::Bss = section {
            if end < start {
                return Err(Error::Overflow);
            }
            put_decimal(out, "\t.skip ", end - start);
        } else {
            if end < start || end > self.nso.file.memory.len() as u64 {
                return Err(Error::OutOfBounds);
            }
            let data: &[u8] = slice_subrange(
                self.nso.file.memory.as_slice(),
                start as usize,
                end as usize,
            );
            self.export_data_chunk(out, data, 0, end - start, start, false, floats)?;
        }
        put_line(out, "");
        Ok(())
    }

    fn put_group(&self, out: &mut String, group: &Group, floats: &FloatTexts) -> (r: Result<
        (),
        Error,
    >)
        requires
            self@.wf(),
        ensures
            ({
                let wanted = pieces_text(
                    self@,
                    floats@,
                    group@,
                    0,
                    group_start(group@.section, old(out)@),
                );
                match r {
                    Ok(()) => wanted == Ok::<Seq<char>, Error>(final(out)@),
                    Err(error) => wanted == Err::<Seq<char>, Error>(error),
                }
            }),
    {
        let ghost wanted = pieces_text(
            self@,
            floats@,
            group@,
            0,
            group_start(group@.section, out@),
        );
        put_line(out, "");
        put_line(out, "");
        match &group.section {
            ReferencedSection::Rodata(name) => {
                put_line_of_four(out, ".section ", name.as_str(), ", ", "\"a\"");
            },
            ReferencedSection::Data => {
                put_line_of_four(out, ".section ", ".data", ", ", "\"aw\"");
            },
            ReferencedSection::Bss => {
                put_line_of_four(out, ".section ", ".bss", ", ", "\"aw\",@nobits");
            },
            ReferencedSection::Embed => {
                put_line_of_four(out, ".section ", ".embed", ", ", "\"a\"");
            },
        }
        put_line(out, "");
        let pieces = list_members(&group.pieces);
        let mut i: usize = 0;
        while i < pieces.len()
            invariant
                i <= pieces@.len(),
                self@.wf(),
                pieces@ == group@.pieces,
                wanted == pieces_text(
                    self@,
                    floats@,
                    group@,
                    0,
                    group_start(group@.section, old(out)@),
                ),
                wanted == pieces_text(self@, floats@, group@, i as int, out@),
            decreases pieces@.len() - i,
        {
            self.put_piece(out, &group.section, pieces[i], floats)?;
            i = i + 1;
        }
        Ok(())
    }

    /// Writes the data that an object refers to. `subsections` are the parts of `.rodata` that have
    /// a section of their own.
    pub fn export_object_data(
        &self,
        obj: &Object,
        subsections: &Vec<(u64, u64, String)>,
        floats: &FloatTexts,
    ) -> (r: Result<String, Error>)
        requires
            self@.wf(),
        ensures
            ({
                let wanted = object_data(
                    self@,
                    floats@,
                    obj.text_section@,
                    hacks::subsection_views(subsections@),
                );
                match r {
                    Ok(text) => wanted == Ok::<Seq<char>, Error>(text@),
                    Err(error) => wanted == Err::<Seq<char>, Error>(error),
                }
            }),
    {
        let (start, end): (u32, u32) = obj.get_text_bounds()?;
        let found = self.gather(start, end)?;
        let groups = self.group(&found, subsections)?;
        let ghost wanted = object_data(
            self@,
            floats@,
            obj.text_section@,
            hacks::subsection_views(subsections@),
        );
        let ghost views = group_views(groups@);
        let mut out = String::from_str("");
        let mut i: usize = 0;
        while i < groups.len()
            invariant
                i <= groups@.len(),
                self@.wf(),
                views == group_views(groups@),
                wanted == object_data(
                    self@,
                    floats@,
                    obj.text_section@,
                    hacks::subsection_views(subsections@),
                ),
                wanted == groups_text(self@, floats@, views, i as int, out@),
            decreases groups@.len() - i,
        {
            assert(views[i as int] == groups@[i as int]@);
            self.put_group(&mut out, &groups[i], floats)?;
            i = i + 1;
        }
        Ok(out)
    }
}

fn find_rodata_name(subsections: &Vec<(u64, u64, String)>, target: u64) -> (r: String)
    ensures
        r@ == rodata_name(hacks::subsection_views(subsections@), target, 0),
{
    let ghost views = hacks::subsection_views(subsections@);
    let mut i: usize = 0;
    while i < subsections.len()
        invariant
            i <= subsections@.len(),
            views == hacks::subsection_views(subsections@),
            rodata_name(views, target, 0) == rodata_name(views, target, i as int),
        decreases subsections@.len() - i,
    {
        assert(views[i as int].2 == subsections@[i as int].2@);
        if subsections[i].0 <= target && target < subsections[i].1 {
            return subsections[i].2.clone();
        }
        i = i + 1;
    }
    String::from_str(".rodata")
}

fn is_same_section(a: &ReferencedSection, b: &ReferencedSection) -> (r: bool)
    ensures
        r == (a@ == b@),
{
    match (a, b) {
        (ReferencedSection::Rodata(x), ReferencedSection::Rodata(y)) => text_eq(
            x.as_str(),
            y.as_str(),
        ),
        (ReferencedSection::Data, ReferencedSection::Data) => true,
        (ReferencedSection::Bss, ReferencedSection::Bss) => true,
        (ReferencedSection::Embed, ReferencedSection::Embed) => true,
        _ => false,
    }
}

fn add_piece(groups: &mut Vec<Group>, section: ReferencedSection, piece: (u64, u64))
    ensures
        group_views(final(groups)@) == with_piece(group_views(old(groups)@), section@, piece),
{
    let ghost before = groups@;
    let ghost views = group_views(before);
    let mut i: usize = 0;
    while i < groups.len()
        invariant
            i <= groups@.len(),
            groups@ == before,
            before == old(groups)@,
            views == group_views(before),
            group_index(views, section@, 0) == group_index(views, section@, i as int),
        decreases groups@.len() - i,
    {
        assert(views[i as int] == groups@[i as int]@);
        if is_same_section(&groups[i].section, &section) {
            insert_member(&mut groups[i].pieces, piece);
            assert(group_views(groups@) =~= with_piece(views, section@, piece));
            return ;
        }
        i = i + 1;
    }
    let mut pieces = new_index_set();
    insert_member(&mut pieces, piece);
    assert(sets::members(pieces) =~= seq![piece]);
    groups.push(Group { section, pieces });
    assert(group_views(groups@) =~= with_piece(views, section@, piece));
}

impl NSO {
    /// Writes the data that an object refers to, with the parts of `.rodata` that `hacks` knows.
    pub fn export_referenced_data<H: Hacks + ?Sized>(
        &self,
        obj: &Object,
        references: &References,
        helper: &NsoLookupHelper,
        hacks: &H,
        floats: &FloatTexts,
    ) -> (r: Result<String, Error>)
        requires
            helper@.fits(self@.symbols.len()),
        ensures
            ({
                let e = ExportView { nso: self@, lookup: helper@, refs: references@ };
                let wanted = object_data(e, floats@, obj.text_section@, hacks.rodata_subsections());
                match r {
                    Ok(text) => wanted == Ok::<Seq<char>, Error>(text@),
                    Err(error) => wanted == Err::<Seq<char>, Error>(error),
                }
            }),
    {
        let subsections = hacks.get_rodata_subsections();
        let exporter = Exporter { nso: self, helper, references };
        exporter.export_object_data(obj, &subsections, floats)
    }
}

/// `handled` is closed under following references, and `found` is the data that it refers to: each
/// address in it that refers to data of an object does so in `found`, and all that belongs to the
/// object with that data is in it as well.
pub open spec fn is_complete(e: ExportView, handled: Set<u64>, found: Map<u64, u64>) -> bool {
    &&& forall|s: u64| #[trigger]
        handled.contains(s) && e.refs.sources.contains_key(s) ==> is_followed(
            e,
            handled,
            found,
            s,
        )
    &&& forall|s: u64| #[trigger]
        found.contains_key(s) ==> handled.contains(s) && e.refs.sources.contains_key(s)
            && found[s] == e.refs.sources[s].1
}

/// The reference at `s` has been followed.
pub open spec fn is_followed(
    e: ExportView,
    handled: Set<u64>,
    found: Map<u64, u64>,
    s: u64,
) -> bool {
    reached(e, e.refs.sources[s].1) matches Ok((more, kept)) && {
        &&& forall|i: int| 0 <= i < more.len() ==> handled.contains(#[trigger] more[i])
        &&& kept ==> found.contains_key(s)
    }
}

/// All references from `handled` have been followed, but for what still waits in `queue`.
spec fn is_under_way(
    e: ExportView,
    queue: Seq<u64>,
    handled: Set<u64>,
    found: Map<u64, u64>,
) -> bool {
    &&& forall|s: u64| #[trigger]
        handled.contains(s) && e.refs.sources.contains_key(s) ==> (reached(
            e,
            e.refs.sources[s].1,
        ) matches Ok((more, kept)) && {
            &&& forall|i: int|
                0 <= i < more.len() ==> handled.contains(#[trigger] more[i]) || queue.contains(
                    more[i],
                )
            &&& kept ==> found.contains_key(s)
        })
    &&& forall|s: u64| #[trigger]
        found.contains_key(s) ==> handled.contains(s) && e.refs.sources.contains_key(s)
            && found[s] == e.refs.sources[s].1
}

/// All of `part` is in `all`.
pub open spec fn is_within(part: Seq<u64>, all: Set<u64>) -> bool {
    forall|i: int| 0 <= i < part.len() ==> all.contains(#[trigger] part[i])
}

proof fn lemma_under_way(
    e: ExportView,
    queue: Seq<u64>,
    handled: Set<u64>,
    found: Map<u64, u64>,
    rest: Seq<u64>,
    more: Seq<u64>,
    after: Map<u64, u64>,
)
    requires
        is_under_way(e, queue, handled, found),
        queue.len() > 0,
        rest == queue.subrange(1, queue.len() as int),
        e.refs.sources.contains_key(queue[0]) ==> (reached(
            e,
            e.refs.sources[queue[0]].1,
        ) matches Ok((m, kept)) && m == more && after == (if kept {
            found.insert(queue[0], e.refs.sources[queue[0]].1)
        } else {
            found
        })),
        !e.refs.sources.contains_key(queue[0]) ==> more.len() == 0 && after == found,
    ensures
        is_under_way(e, rest + more, handled.insert(queue[0]), after),
{
    let source = queue[0];
    let next = handled.insert(source);
    let waiting = rest + more;
    assert forall|x: u64| queue.contains(x) implies next.contains(x) || waiting.contains(x) by {
        let k = choose|k: int| 0 <= k < queue.len() && queue[k] == x;
        if k > 0 {
            assert(waiting[k - 1] == x);
        }
    }
    assert forall|s: u64| #[trigger]
        next.contains(s) && e.refs.sources.contains_key(s) implies (reached(
        e,
        e.refs.sources[s].1,
    ) matches Ok((m, kept)) && {
        &&& forall|i: int|
            0 <= i < m.len() ==> next.contains(#[trigger] m[i]) || waiting.contains(m[i])
        &&& kept ==> after.contains_key(s)
    }) by {
        if handled.contains(s) {
            let (m, kept) = reached(e, e.refs.sources[s].1)->Ok_0;
            assert forall|i: int| 0 <= i < m.len() implies next.contains(#[trigger] m[i])
                || waiting.contains(m[i]) by {
                assert(handled.contains(m[i]) || queue.contains(m[i]));
            }
        } else {
            assert forall|i: int| 0 <= i < more.len() implies next.contains(#[trigger] more[i])
                || waiting.contains(more[i]) by {
                assert(waiting[rest.len() + i] == more[i]);
            }
        }
    }
}

proof fn lemma_gathered(
    e: ExportView,
    queue: Seq<u64>,
    handled: Set<u64>,
    found: Map<u64, u64>,
) -> (all: Set<u64>)
    requires
        is_under_way(e, queue, handled, found),
        gathered(e, queue, handled, found) is Ok,
    ensures
        is_complete(e, all, gathered(e, queue, handled, found)->Ok_0),
        is_within(queue, all),
        handled.subset_of(all),
    decreases adrp::unvisited(handled), queue.len(),
{
    if queue.len() == 0 {
        assert forall|s: u64| #[trigger]
            handled.contains(s) && e.refs.sources.contains_key(s) implies is_followed(
            e,
            handled,
            found,
            s,
        ) by {
            let (more, kept) = reached(e, e.refs.sources[s].1)->Ok_0;
            assert forall|i: int| 0 <= i < more.len() implies handled.contains(
                #[trigger] more[i],
            ) by {
                assert(handled.contains(more[i]) || queue.contains(more[i]));
            }
        }
        handled
    } else {
        let source = queue[0];
        let rest = queue.subrange(1, queue.len() as int);
        if handled.contains(source) {
            assert(is_under_way(e, rest, handled, found)) by {
                assert forall|x: u64| queue.contains(x) implies handled.contains(x)
                    || rest.contains(x) by {
                    let k = choose|k: int| 0 <= k < queue.len() && queue[k] == x;
                    if k > 0 {
                        assert(rest[k - 1] == x);
                    }
                }
                assert forall|s: u64| #[trigger]
                    handled.contains(s) && e.refs.sources.contains_key(s) implies (reached(
                    e,
                    e.refs.sources[s].1,
                ) matches Ok((m, kept)) && {
                    &&& forall|i: int|
                        0 <= i < m.len() ==> handled.contains(#[trigger] m[i]) || rest.contains(
                            m[i],
                        )
                    &&& kept ==> found.contains_key(s)
                }) by {
                    let (m, kept) = reached(e, e.refs.sources[s].1)->Ok_0;
                    assert forall|i: int| 0 <= i < m.len() implies handled.contains(
                        #[trigger] m[i],
                    ) || rest.contains(m[i]) by {
                        assert(handled.contains(m[i]) || queue.contains(m[i]));
                    }
                }
            }
            let all = lemma_gathered(e, rest, handled, found);
            assert(is_within(queue, all)) by {
                assert forall|i: int| 0 <= i < queue.len() implies all.contains(
                    #[trigger] queue[i],
                ) by {
                    if i > 0 {
                        assert(rest[i - 1] == queue[i]);
                    }
                }
            }
            all
        } else {
            adrp::lemma_visit(handled, source);
            let (more, after) = if e.refs.sources.contains_key(source) {
                let target = e.refs.sources[source].1;
                let (more, kept) = reached(e, target)->Ok_0;
                (
                    more,
                    if kept {
                        found.insert(source, target)
                    } else {
                        found
                    },
                )
            } else {
                (Seq::empty(), found)
            };
            lemma_under_way(e, queue, handled, found, rest, more, after);
            if !e.refs.sources.contains_key(source) {
                assert(rest + more =~= rest);
            }
            let all = lemma_gathered(e, rest + more, handled.insert(source), after);
            assert(all.contains(source));
            assert(is_within(queue, all)) by {
                assert forall|i: int| 0 <= i < queue.len() implies all.contains(
                    #[trigger] queue[i],
                ) by {
                    if i > 0 {
                        assert((rest + more)[i - 1] == queue[i]);
                    }
                }
            }
            all
        }
    }
}

/// An object file has all the data that its code refers to, directly or through other data: there
/// is a set of addresses that holds the instructions of the object and all that belongs to data
/// which the set refers to, and that data is what is written.
pub proof fn law_object_data_is_complete(e: ExportView, start: int, end: int)
    requires
        gathered(e, instruction_addresses(start, end), Set::empty(), Map::empty()) is Ok,
    ensures
        exists|all: Set<u64>|
            is_within(instruction_addresses(start, end), all) && #[trigger] is_complete(
                e,
                all,
                gathered(
                    e,
                    instruction_addresses(start, end),
                    Set::empty(),
                    Map::empty(),
                )->Ok_0,
            ),
{
    let all = lemma_gathered(
        e,
        instruction_addresses(start, end),
        Set::empty(),
        Map::empty(),
    );
}

/// A piece of data reaches from its target up to the next address that something refers to, or to the
/// end of its section where there is none before it.
pub proof fn law_pieces_end_at_the_next_reference(
    e: ExportView,
    t: SectionType,
    target: u64,
    a: u64,
)
    requires
        piece_end(e, t, target) is Ok,
        e.nso.sections.contains_key(target),
        e.nso.sections[target] == t,
        target < section_map::section_range(e.nso.sections, t)->Some_0.1,
    ensures
        ({
            let end = piece_end(e, t, target)->Ok_0;
            let limit = section_map::section_range(e.nso.sections, t)->Some_0.1;
            &&& section_map::section_range(e.nso.sections, t) is Some
            &&& target < end <= limit
            &&& target < a < end ==> !e.refs.types.contains_key(a)
            &&& end < limit ==> e.refs.types.contains_key(end)
        }),
{
    let limit = section_map::section_range(e.nso.sections, t)->Some_0.1;
    data::lemma_next_referenced(e.refs.types, target + 1, limit as int);
    let end = data::next_referenced(e.refs.types, target + 1, limit as int);
    if target < a < end {
        assert(!e.refs.types.contains_key(a as int as u64));
    }
}

/// In the file of an object, a piece of `.bss` takes up as many bytes as it has.
pub proof fn law_bss_pieces_keep_their_size(
    e: ExportView,
    floats: FloatView,
    target: u64,
    size: u64,
    text: Seq<char>,
)
    requires
        target + size <= u64::MAX,
    ensures
        piece_text(e, floats, ReferencedView::Bss, (target, (target + size) as u64), text) == Ok::<
            Seq<char>,
            Error,
        >(text + "\t.skip "@ + fmt::decimal(size as int) + "\n\n"@),
        size > 0 ==> piece_text(
            e,
            floats,
            ReferencedView::Bss,
            ((target + size) as u64, target),
            text,
        ) is Err,
{
    reveal_strlit("");
    reveal_strlit("\n");
    reveal_strlit("\n\n");
    let digits = fmt::decimal(size as int);
    assert(text + "\t.skip "@ + digits + "\n"@ + ""@ + "\n"@ =~= text + "\t.skip "@ + digits
        + "\n\n"@);
}

/// All other pieces are written as the data that is at their place, up to their end, and are followed
/// by an empty line.
pub proof fn law_pieces_are_written_from_their_place(
    e: ExportView,
    floats: FloatView,
    section: ReferencedView,
    start: u64,
    end: u64,
    text: Seq<char>,
)
    requires
        section !is Bss,
        piece_text(e, floats, section, (start, end), text) is Ok,
    ensures
        start <= end <= e.nso.file.memory.len(),
        exists|data: Seq<u8>, last: Progress|
            data.len() == end - start && (forall|k: int|
                0 <= k < data.len() ==> #[trigger] data[k] == e.nso.file.memory[start + k])
                && last.pos == end - start && #[trigger] data::data_chunk(
                e,
                floats,
                data,
                start,
                end - start,
                false,
                Progress { text, pos: 0 },
            ) == Ok::<Progress, Error>(last) && #[trigger] (last.text + "\n"@) == piece_text(
                e,
                floats,
                section,
                (start, end),
                text,
            )->Ok_0,
{
    reveal_strlit("");
    let data = e.nso.file.memory.subrange(start as int, end as int);
    let last = data::data_chunk(
        e,
        floats,
        data,
        start,
        end - start,
        false,
        Progress { text, pos: 0 },
    )->Ok_0;
    assert(last.text + ""@ + "\n"@ =~= last.text + "\n"@);
}

/// A section of an object file begins with its name and what it is for, between empty lines.
pub proof fn law_object_sections_are_announced(name: Seq<char>, text: Seq<char>)
    ensures
        group_start(ReferencedView::Rodata(name), text) == text + "\n\n.section "@ + name
            + ", \"a\"\n\n"@,
        group_start(ReferencedView::Data, text) == text + "\n\n.section .data, \"aw\"\n\n"@,
        group_start(ReferencedView::Bss, text) == text
            + "\n\n.section .bss, \"aw\",@nobits\n\n"@,
        group_start(ReferencedView::Embed, text) == text + "\n\n.section .embed, \"a\"\n\n"@,
{
    reveal_strlit("");
    reveal_strlit("\n");
    reveal_strlit(".section ");
    reveal_strlit(", ");
    reveal_strlit("\"a\"");
    reveal_strlit("\"aw\"");
    reveal_strlit("\"aw\",@nobits");
    reveal_strlit(".data");
    reveal_strlit(".bss");
    reveal_strlit(".embed");
    reveal_strlit("\n\n.section ");
    reveal_strlit(", \"a\"\n\n");
    reveal_strlit("\n\n.section .data, \"aw\"\n\n");
    reveal_strlit("\n\n.section .bss, \"aw\",@nobits\n\n");
    reveal_strlit("\n\n.section .embed, \"a\"\n\n");
    assert(group_start(ReferencedView::Rodata(name), text) =~= text + "\n\n.section "@ + name
        + ", \"a\"\n\n"@);
    assert(group_start(ReferencedView::Data, text) =~= text
        + "\n\n.section .data, \"aw\"\n\n"@);
    assert(group_start(ReferencedView::Bss, text) =~= text
        + "\n\n.section .bss, \"aw\",@nobits\n\n"@);
    assert(group_start(ReferencedView::Embed, text) =~= text
        + "\n\n.section .embed, \"a\"\n\n"@);
}

/// Read-only data goes to the first of the known parts that holds it, and to `.rodata` where none
/// does.
pub proof fn law_rodata_goes_to_its_part(
    subsections: Seq<(u64, u64, Seq<char>)>,
    target: u64,
    from: int,
)
    requires
        0 <= from <= subsections.len(),
    ensures
        (forall|k: int|
            from <= k < subsections.len() ==> !((#[trigger] subsections[k]).0 <= target
                < subsections[k].1)) ==> rodata_name(subsections, target, from) == ".rodata"@,
        forall|k: int|
            from <= k < subsections.len() && (#[trigger] subsections[k]).0 <= target
                < subsections[k].1 && (forall|j: int|
                from <= j < k ==> !((#[trigger] subsections[j]).0 <= target < subsections[j].1))
                ==> rodata_name(subsections, target, from) == subsections[k].2,
    decreases subsections.len() - from,
{
    if from < subsections.len() {
        law_rodata_goes_to_its_part(subsections, target, from + 1);
    }
}

/// Data keeps its section in the file of an object. What is in any other section is not data of an
/// object.
pub proof fn law_data_keeps_its_section(
    e: ExportView,
    subsections: Seq<(u64, u64, Seq<char>)>,
    target: u64,
)
    requires
        e.nso.sections.contains_key(target),
    ensures
        ({
            let section = object_section(e, subsections, target);
            let t = e.nso.sections[target];
            &&& t == SectionType::Rodata <==> section is Ok && section->Ok_0 is Rodata
            &&& t == SectionType::Data <==> section is Ok && section->Ok_0 is Data
            &&& t == SectionType::Bss <==> section is Ok && section->Ok_0 is Bss
            &&& t == SectionType::Embed <==> section is Ok && section->Ok_0 is Embed
            &&& section is Ok && section->Ok_0 is Rodata ==> section->Ok_0->Rodata_0 == rodata_name(
                subsections,
                target,
                0,
            )
        }),
{
}

/// What a reference reaches: data is reached with all bytes up to where its piece ends, which may refer
/// to more. `.bss` and embedded strings are reached, but refer to nothing. An entry of the global
/// offset table is not data of the object, but what it refers to may be. Code, stubs and symbols
/// belong to no object's data.
pub proof fn law_references_reach_by_section(e: ExportView, target: u64, a: u64)
    requires
        e.nso.sections.contains_key(target),
        reached(e, target) is Ok,
    ensures
        ({
            let (more, kept) = reached(e, target)->Ok_0;
            let t = e.nso.sections[target];
            &&& kept <==> t == SectionType::Rodata || t == SectionType::Data || t
                == SectionType::Bss || t == SectionType::Embed
            &&& t == SectionType::Rodata || t == SectionType::Data ==> (more.contains(a) <==> target
                <= a < piece_end(e, t, target)->Ok_0)
            &&& t == SectionType::Got ==> (more.contains(a) <==> a == target)
            &&& t != SectionType::Rodata && t != SectionType::Data && t != SectionType::Got
                ==> !more.contains(a)
        }),
{
    let (more, kept) = reached(e, target)->Ok_0;
    let t = e.nso.sections[target];
    if t == SectionType::Rodata || t == SectionType::Data {
        let end = piece_end(e, t, target)->Ok_0;
        if target <= a < end {
            assert(more[a - target] == a);
        }
    }
    if t == SectionType::Got {
        assert(more[0] == target);
    }
}

/// The instructions of an object are all four bytes from its start up to its end.
pub proof fn law_objects_have_all_their_instructions(start: int, end: int, a: u64)
    requires
        0 <= start,
        end <= u64::MAX,
    ensures
        instruction_addresses(start, end).contains(a) <==> start <= a < end && (a - start) % 4 == 0,
    decreases end + 4 - start,
{
    if start < end {
        law_objects_have_all_their_instructions(start + 4, end, a);
        let rest = instruction_addresses(start + 4, end);
        let all = instruction_addresses(start, end);
        assert(all[0] == start as u64);
        if rest.contains(a) {
            let k = rest.index_of(a);
            assert(all[k + 1] == a);
        }
        if all.contains(a) {
            let k = all.index_of(a);
            if k > 0 {
                assert(rest[k - 1] == a);
            }
        }
    }
}

/// Some group for the section has the piece.
pub open spec fn has_piece(groups: Seq<GroupView>, section: ReferencedView, piece: (u64, u64)) -> bool {
    exists|g: int|
        0 <= g < groups.len() && (#[trigger] groups[g]).section == section
            && groups[g].pieces.contains(piece)
}

proof fn lemma_group_index(groups: Seq<GroupView>, section: ReferencedView, from: int)
    requires
        0 <= from <= groups.len(),
    ensures
        group_index(groups, section, from) matches Some(k) ==> from <= k < groups.len()
            && groups[k].section == section,
        group_index(groups, section, from) is None ==> forall|k: int|
            from <= k < groups.len() ==> (#[trigger] groups[k]).section != section,
    decreases groups.len() - from,
{
    if from < groups.len() {
        lemma_group_index(groups, section, from + 1);
    }
}

proof fn lemma_piece_added(
    groups: Seq<GroupView>,
    section: ReferencedView,
    piece: (u64, u64),
    other: ReferencedView,
    another: (u64, u64),
)
    ensures
        has_piece(with_piece(groups, section, piece), other, another) <==> has_piece(
            groups,
            other,
            another,
        ) || (other == section && another == piece),
{
    let after = with_piece(groups, section, piece);
    lemma_group_index(groups, section, 0);
    match group_index(groups, section, 0) {
        Some(i) => {
            let before = groups[i].pieces;
            let now = sets::with_member(before, piece);
            assert(forall|x: (u64, u64)| now.contains(x) <==> before.contains(x) || x == piece) by {
                sets::law_members_are_added_once(before, piece);
            }
            if has_piece(groups, other, another) {
                let g = choose|g: int|
                    0 <= g < groups.len() && (#[trigger] groups[g]).section == other
                        && groups[g].pieces.contains(another);
                assert(after[g].section == other && after[g].pieces.contains(another));
            }
            if other == section && another == piece {
                assert(after[i].section == section && after[i].pieces.contains(piece));
            }
            if has_piece(after, other, another) {
                let g = choose|g: int|
                    0 <= g < after.len() && (#[trigger] after[g]).section == other
                        && after[g].pieces.contains(another);
                assert(groups[g].section == other);
            }
        },
        None => {
            if has_piece(groups, other, another) {
                let g = choose|g: int|
                    0 <= g < groups.len() && (#[trigger] groups[g]).section == other
                        && groups[g].pieces.contains(another);
                assert(after[g].section == other && after[g].pieces.contains(another));
            }
            let last = groups.len() as int;
            assert(after[last].section == section && after[last].pieces[0] == piece);
            assert(after[last].pieces.contains(piece));
            if has_piece(after, other, another) {
                let g = choose|g: int|
                    0 <= g < after.len() && (#[trigger] after[g]).section == other
                        && after[g].pieces.contains(another);
                if g < last {
                    assert(groups[g].section == other && groups[g].pieces.contains(another));
                }
            }
        },
    }
}

/// The piece of data at `target` belongs to the section.
pub open spec fn is_piece_at(
    e: ExportView,
    subsections: Seq<(u64, u64, Seq<char>)>,
    target: u64,
    section: ReferencedView,
    piece: (u64, u64),
) -> bool {
    &&& object_section(e, subsections, target) == Ok::<ReferencedView, Error>(section)
    &&& piece.0 == target
    &&& piece_end(e, e.nso.sections[target], target) == Ok::<u64, Error>(piece.1)
}

proof fn lemma_pieces_are_grouped(
    e: ExportView,
    subsections: Seq<(u64, u64, Seq<char>)>,
    targets: Seq<u64>,
    from: int,
    groups: Seq<GroupView>,
    section: ReferencedView,
    piece: (u64, u64),
)
    requires
        grouped(e, subsections, targets, from, groups) is Ok,
        0 <= from <= targets.len(),
    ensures
        has_piece(grouped(e, subsections, targets, from, groups)->Ok_0, section, piece)
            <==> has_piece(groups, section, piece) || exists|i: int|
            from <= i < targets.len() && is_piece_at(
                e,
                subsections,
                #[trigger] targets[i],
                section,
                piece,
            ),
        forall|i: int|
            from <= i < targets.len() ==> object_section(
                e,
                subsections,
                #[trigger] targets[i],
            ) is Ok,
    decreases targets.len() - from,
{
    if from < targets.len() {
        let target = targets[from];
        let own = object_section(e, subsections, target)->Ok_0;
        let end = piece_end(e, e.nso.sections[target], target)->Ok_0;
        let next = with_piece(groups, own, (target, end));
        lemma_pieces_are_grouped(e, subsections, targets, from + 1, next, section, piece);
        lemma_piece_added(groups, own, (target, end), section, piece);
        if is_piece_at(e, subsections, target, section, piece) {
            assert(section == own && piece == (target, end));
        }
    }
}

/// The pieces of data of an object are exactly those at its targets, each in the section that it
/// belongs to.
pub proof fn law_objects_have_the_pieces_of_their_targets(
    e: ExportView,
    subsections: Seq<(u64, u64, Seq<char>)>,
    targets: Seq<u64>,
    section: ReferencedView,
    piece: (u64, u64),
)
    requires
        grouped(e, subsections, targets, 0, Seq::empty()) is Ok,
    ensures
        has_piece(grouped(e, subsections, targets, 0, Seq::empty())->Ok_0, section, piece)
            <==> exists|i: int|
            0 <= i < targets.len() && is_piece_at(
                e,
                subsections,
                #[trigger] targets[i],
                section,
                piece,
            ),
{
    lemma_pieces_are_grouped(e, subsections, targets, 0, Seq::empty(), section, piece);
}

/// Somewhere in `text` there is the piece of data of the section.
pub open spec fn is_piece_written(
    e: ExportView,
    floats: FloatView,
    section: ReferencedView,
    piece: (u64, u64),
    text: Seq<char>,
) -> bool {
    exists|before: Seq<char>|
        piece_text(e, floats, section, piece, before) is Ok && lines::goes_on(
            (#[trigger] piece_text(e, floats, section, piece, before))->Ok_0,
            text,
        )
}

proof fn lemma_piece_goes_on(
    e: ExportView,
    floats: FloatView,
    section: ReferencedView,
    piece: (u64, u64),
    text: Seq<char>,
)
    ensures
        piece_text(e, floats, section, piece, text) matches Ok(next) ==> lines::goes_on(text, next),
{
    let (start, end) = piece;
    if let Ok(next) = piece_text(e, floats, section, piece, text) {
        if section is Bss {
            let a = lines::line_of_two(text, "\t.skip "@, fmt::decimal(end - start));
            lines::lemma_line_of_two_goes_on(text, "\t.skip "@, fmt::decimal(end - start));
            lines::lemma_line_goes_on(a, ""@);
            lines::lemma_goes_on(text, a, next);
        } else {
            let data = e.nso.file.memory.subrange(start as int, end as int);
            let p = Progress { text, pos: 0 };
            data::lemma_chunk_is_labelled(e, floats, data, start, end - start, false, p);
            let last = data::data_chunk(e, floats, data, start, end - start, false, p)->Ok_0;
            lines::lemma_line_goes_on(last.text, ""@);
            lines::lemma_goes_on(text, last.text, next);
        }
    }
}

proof fn lemma_pieces_written(
    e: ExportView,
    floats: FloatView,
    group: GroupView,
    from: int,
    text: Seq<char>,
    k: int,
)
    requires
        pieces_text(e, floats, group, from, text) is Ok,
        0 <= from <= group.pieces.len(),
    ensures
        lines::goes_on(text, pieces_text(e, floats, group, from, text)->Ok_0),
        from <= k < group.pieces.len() ==> is_piece_written(
            e,
            floats,
            group.section,
            group.pieces[k],
            pieces_text(e, floats, group, from, text)->Ok_0,
        ),
    decreases group.pieces.len() - from,
{
    lines::lemma_stays(text);
    if from < group.pieces.len() {
        let next = piece_text(e, floats, group.section, group.pieces[from], text)->Ok_0;
        lemma_pieces_written(e, floats, group, from + 1, next, k);
        lemma_piece_goes_on(e, floats, group.section, group.pieces[from], text);
        lines::lemma_goes_on(text, next, pieces_text(e, floats, group, from, text)->Ok_0);
        if k == from {
            assert(piece_text(e, floats, group.section, group.pieces[k], text) is Ok);
        }
    }
}

proof fn lemma_groups_written(
    e: ExportView,
    floats: FloatView,
    groups: Seq<GroupView>,
    from: int,
    text: Seq<char>,
    g: int,
    k: int,
)
    requires
        groups_text(e, floats, groups, from, text) is Ok,
        0 <= from <= groups.len(),
    ensures
        lines::goes_on(text, groups_text(e, floats, groups, from, text)->Ok_0),
        from <= g < groups.len() && 0 <= k < groups[g].pieces.len() ==> is_piece_written(
            e,
            floats,
            groups[g].section,
            groups[g].pieces[k],
            groups_text(e, floats, groups, from, text)->Ok_0,
        ),
    decreases groups.len() - from,
{
    lines::lemma_stays(text);
    if from < groups.len() {
        let group = groups[from];
        let start = group_start(group.section, text);
        let next = pieces_text(e, floats, group, 0, start)->Ok_0;
        let all = groups_text(e, floats, groups, from, text)->Ok_0;
        let a = lines::line(text, ""@);
        let b = lines::line(a, ""@);
        let c = lines::line_of_four(
            b,
            ".section "@,
            group.section.name(),
            ", "@,
            group.section.permissions(),
        );
        lines::lemma_line_goes_on(text, ""@);
        lines::lemma_line_goes_on(a, ""@);
        lines::lemma_line_of_four_goes_on(
            b,
            ".section "@,
            group.section.name(),
            ", "@,
            group.section.permissions(),
        );
        lines::lemma_line_goes_on(c, ""@);
        lines::lemma_goes_on(text, a, b);
        lines::lemma_goes_on(text, b, c);
        lines::lemma_goes_on(text, c, start);
        lemma_pieces_written(e, floats, group, 0, start, k);
        lines::lemma_goes_on(text, start, next);
        lemma_groups_written(e, floats, groups, from + 1, next, g, k);
        lines::lemma_goes_on(text, next, all);
        if g == from && 0 <= k < group.pieces.len() {
            let piece = group.pieces[k];
            let before = choose|before: Seq<char>|
                piece_text(e, floats, group.section, piece, before) is Ok && lines::goes_on(
                    (#[trigger] piece_text(e, floats, group.section, piece, before))->Ok_0,
                    next,
                );
            lines::lemma_goes_on(
                piece_text(e, floats, group.section, piece, before)->Ok_0,
                next,
                all,
            );
            assert(is_piece_written(e, floats, group.section, piece, all));
        }
    }
}

/// In the file of an object, the data at each of its targets is written.
pub proof fn law_all_data_of_an_object_is_written(
    e: ExportView,
    floats: FloatView,
    infos: Seq<Info>,
    subsections: Seq<(u64, u64, Seq<char>)>,
    section: ReferencedView,
    i: int,
)
    requires
        object_data(e, floats, infos, subsections) is Ok,
        0 <= i < object_targets(e, infos)->Ok_0.len(),
        object_section(e, subsections, object_targets(e, infos)->Ok_0[i]) == Ok::<
            ReferencedView,
            Error,
        >(section),
    ensures
        ({
            let target = object_targets(e, infos)->Ok_0[i];
            let end = piece_end(e, e.nso.sections[target], target);
            end is Ok && is_piece_written(
                e,
                floats,
                section,
                (target, end->Ok_0),
                object_data(e, floats, infos, subsections)->Ok_0,
            )
        }),
{
    let targets = object_targets(e, infos)->Ok_0;
    let groups = grouped(e, subsections, targets, 0, Seq::empty())->Ok_0;
    let target = targets[i];
    lemma_ends_are_known(e, subsections, targets, 0, Seq::empty(), i);
    let piece = (target, piece_end(e, e.nso.sections[target], target)->Ok_0);
    lemma_pieces_are_grouped(e, subsections, targets, 0, Seq::empty(), section, piece);
    assert(is_piece_at(e, subsections, targets[i], section, piece));
    let g = choose|g: int|
        0 <= g < groups.len() && (#[trigger] groups[g]).section == section
            && groups[g].pieces.contains(piece);
    let k = groups[g].pieces.index_of(piece);
    lemma_groups_written(e, floats, groups, 0, ""@, g, k);
}

proof fn lemma_ends_are_known(
    e: ExportView,
    subsections: Seq<(u64, u64, Seq<char>)>,
    targets: Seq<u64>,
    from: int,
    groups: Seq<GroupView>,
    i: int,
)
    requires
        grouped(e, subsections, targets, from, groups) is Ok,
        0 <= from <= i < targets.len(),
    ensures
        piece_end(e, e.nso.sections[targets[i]], targets[i]) is Ok,
    decreases targets.len() - from,
{
    if from < i {
        let target = targets[from];
        let own = object_section(e, subsections, target)->Ok_0;
        let end = piece_end(e, e.nso.sections[target], target)->Ok_0;
        lemma_ends_are_known(
            e,
            subsections,
            targets,
            from + 1,
            with_piece(groups, own, (target, end)),
            i,
        );
    }
}

/// The data of an object is that which the addresses of its instructions lead to, in the order of the
/// addresses that refer to it.
pub proof fn law_targets_are_what_the_code_leads_to(e: ExportView, infos: Seq<Info>)
    requires
        object_targets(e, infos) is Ok,
    ensures
        ({
            let (start, end) = file_list::text_bounds(infos)->Ok_0;
            let found = gathered(
                e,
                instruction_addresses(start as int, end as int),
                Set::empty(),
                Map::empty(),
            )->Ok_0;
            &&& file_list::text_bounds(infos) is Ok
            &&& forall|keys: Seq<u64>| #[trigger]
                ordered::are_keys(found, keys) ==> object_targets(e, infos)->Ok_0.len()
                    == keys.len() && forall|k: int|
                    0 <= k < keys.len() ==> #[trigger] object_targets(e, infos)->Ok_0[k]
                        == found[keys[k]]
        }),
{
    let (start, end) = file_list::text_bounds(infos)->Ok_0;
    let found = gathered(
        e,
        instruction_addresses(start as int, end as int),
        Set::empty(),
        Map::empty(),
    )->Ok_0;
    assert forall|keys: Seq<u64>| #[trigger] ordered::are_keys(found, keys) implies object_targets(
        e,
        infos,
    )->Ok_0.len() == keys.len() && forall|k: int|
        0 <= k < keys.len() ==> #[trigger] object_targets(e, infos)->Ok_0[k] == found[keys[k]] by {
        ordered::lemma_values_in_order(found, keys);
    }
}

} // verus!
