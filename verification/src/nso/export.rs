//! Splitting a binary into files.

use vstd::prelude::*;
use vstd::string::*;

use crate::error::Error;
use crate::file_list::{FileList, Info, Object};
use crate::hacks::{self, Hacks};
use crate::nso::code;
use crate::nso::data::{ExportView, Exporter};
use crate::nso::floats::{FloatTexts, FloatView};
use crate::nso::lookup::{self, NsoLookupHelper};
use crate::nso::nso::{self, NsoView, NSO};
use crate::nso::objects;
use crate::nso::section_map::{self, SectionType};
use crate::nso::sections::{self, export_relocations};
use crate::nso::text::TextView;
use crate::reference_tracker::{References, Tables};
use crate::strings::{self, text_ends_in, text_eq};

verus! {

/// The files that a binary can be written to.
#[derive(Clone, Copy, Debug, PartialEq, Eq, Structural)]
pub enum Part {
    SymbolList,
    GotPlt,
    Got,
    InitArray,
    Crt0,
    UnknownDataGap,
    EhFrame,
    ModuleName,
    RelaDyn,
    RelaPlt,
    Dynamic,
    Dynsym,
    Dynstr,
    Hash,
    GnuHash,
    EhFrameHdr,
    Embed,
    Plt,
    Text,
    Bss,
    Data,
    Rodata,
}

impl Part {
    /// The name of the file.
    pub open spec fn name(self) -> Seq<char> {
        match self {
            Part::SymbolList => "exported_symbols.sym"@,
            Part::GotPlt => "got.plt.s"@,
            Part::Got => "got.s"@,
            Part::InitArray => "init_array.s"@,
            Part::Crt0 => "crt0.s"@,
            Part::UnknownDataGap => "unknown_data_gap.s"@,
            Part::EhFrame => "eh_frame.s"@,
            Part::ModuleName => "module_name.s"@,
            Part::RelaDyn => "rela.dyn.s"@,
            Part::RelaPlt => "rela.plt.s"@,
            Part::Dynamic => "dynamic.s"@,
            Part::Dynsym => "dynsym.s"@,
            Part::Dynstr => "dynstr.s"@,
            Part::Hash => "hash.s"@,
            Part::GnuHash => "gnu_hash.s"@,
            Part::EhFrameHdr => "eh_frame_hdr.s"@,
            Part::Embed => "embed.s"@,
            Part::Plt => "plt.s"@,
            Part::Text => "text.s"@,
            Part::Bss => "bss.s"@,
            Part::Data => "data.s"@,
            Part::Rodata => "rodata.s"@,
        }
    }

    /// The name of the file that the part is written to.
    pub fn file_name(&self) -> (r: &'static str)
        ensures
            r@ == self.name(),
    {
        match self {
            Part::SymbolList => "exported_symbols.sym",
            Part::GotPlt => "got.plt.s",
            Part::Got => "got.s",
            Part::InitArray => "init_array.s",
            Part::Crt0 => "crt0.s",
            Part::UnknownDataGap => "unknown_data_gap.s",
            Part::EhFrame => "eh_frame.s",
            Part::ModuleName => "module_name.s",
            Part::RelaDyn => "rela.dyn.s",
            Part::RelaPlt => "rela.plt.s",
            Part::Dynamic => "dynamic.s",
            Part::Dynsym => "dynsym.s",
            Part::Dynstr => "dynstr.s",
            Part::Hash => "hash.s",
            Part::GnuHash => "gnu_hash.s",
            Part::EhFrameHdr => "eh_frame_hdr.s",
            Part::Embed => "embed.s",
            Part::Plt => "plt.s",
            Part::Text => "text.s",
            Part::Bss => "bss.s",
            Part::Data => "data.s",
            Part::Rodata => "rodata.s",
        }
    }
}

/// All parts of a binary.
pub open spec fn all_parts() -> Seq<Part> {
    seq![
        Part::SymbolList,
        Part::GotPlt,
        Part::Got,
        Part::InitArray,
        Part::Crt0,
        Part::UnknownDataGap,
        Part::EhFrame,
        Part::ModuleName,
        Part::RelaDyn,
        Part::RelaPlt,
        Part::Dynamic,
        Part::Dynsym,
        Part::Dynstr,
        Part::Hash,
        Part::GnuHash,
        Part::EhFrameHdr,
        Part::Embed,
        Part::Plt,
        Part::Text,
        Part::Bss,
        Part::Data,
        Part::Rodata,
    ]
}

/// The parts that a linker cannot make by itself.
pub open spec fn relinkable_parts() -> Seq<Part> {
    seq![
        Part::SymbolList,
        Part::InitArray,
        Part::Crt0,
        Part::UnknownDataGap,
        Part::ModuleName,
        Part::Embed,
        Part::Text,
        Part::Bss,
        Part::Data,
        Part::Rodata,
    ]
}

/// What is written for a part.
pub open spec fn part_text(e: ExportView, floats: FloatView, part: Part) -> Result<Seq<char>, Error> {
    match part {
        Part::SymbolList => sections::symbol_list(e.nso),
        Part::GotPlt => sections::got_plt_text(e.nso),
        Part::Got => sections::got_text(e.nso),
        Part::InitArray => sections::init_array_text(e),
        Part::Crt0 => Ok(sections::crt0_text()),
        Part::UnknownDataGap => Ok(sections::unknown_data_gap_text()),
        Part::EhFrame => sections::raw_section(
            e.nso,
            SectionType::EhFrame,
            ".section \".eh_frame\", \"a\""@,
        ),
        Part::ModuleName => Ok(sections::module_name_text(e.nso.build_str)),
        Part::RelaDyn => Ok(sections::relocation_text(".rela.dyn"@, e.nso.reloc_dyn)),
        Part::RelaPlt => Ok(sections::relocation_text(".rela.plt"@, e.nso.reloc_plt)),
        Part::Dynamic => Ok(sections::dynamic_text(e.nso.dynamic)),
        Part::Dynsym => Ok(sections::symbol_table_text(e.nso.symbols)),
        Part::Dynstr => Ok(sections::string_table_text(e.nso.strings)),
        Part::Hash => Ok(sections::hash_text(e.nso.hash_table)),
        Part::GnuHash => Ok(sections::gnu_hash_text(e.nso.gnu_hash_table)),
        Part::EhFrameHdr => sections::raw_section(
            e.nso,
            SectionType::EhFrameHdr,
            ".section \".eh_frame_hdr\", \"a\""@,
        ),
        Part::Embed => Ok(sections::embed_text(e.nso, e.lookup)),
        Part::Plt => match nso::needed(e.nso.sections, SectionType::GotPlt) {
            Err(error) => Err(error),
            Ok(range) => code::plt_text(e.nso, e.lookup, e.nso.text, range),
        },
        Part::Text => code::code_text(e, e.nso.text),
        Part::Bss => sections::bss_text(e),
        Part::Data => sections::data_text(e, floats),
        Part::Rodata => sections::rodata_text(e, floats),
    }
}

/// `files` with those of the parts from `from` on: their names and what is in them.
pub open spec fn part_files(
    e: ExportView,
    floats: FloatView,
    parts: Seq<Part>,
    from: int,
    files: Seq<(Seq<char>, Seq<char>)>,
) -> Result<Seq<(Seq<char>, Seq<char>)>, Error>
    decreases parts.len() - from,
{
    if from < 0 || from >= parts.len() {
        Ok(files)
    } else {
        match part_text(e, floats, parts[from]) {
            Err(error) => Err(error),
            Ok(text) => part_files(
                e,
                floats,
                parts,
                from + 1,
                files.push((parts[from].name(), text)),
            ),
        }
    }
}

/// The files that the given parts of a binary are written to.
pub open spec fn exported(
    nso: NsoView,
    refs: Tables,
    floats: FloatView,
    parts: Seq<Part>,
) -> Result<Seq<(Seq<char>, Seq<char>)>, Error> {
    match lookup::lookup_of(nso) {
        Err(error) => Err(error),
        Ok(lookup) => part_files(ExportView { nso, lookup, refs }, floats, parts, 0, Seq::empty()),
    }
}

/// Files by their names and contents.
pub open spec fn file_views(files: Seq<(String, String)>) -> Seq<(Seq<char>, Seq<char>)> {
    files.map_values(|f: (String, String)| (f.0@, f.1@))
}

/// Nothing goes wrong with the parts from `from` on before the code is disassembled.
pub open spec fn reaches_code(e: ExportView, floats: FloatView, parts: Seq<Part>, from: int) -> bool
    decreases parts.len() - from,
{
    if from < 0 || from >= parts.len() {
        false
    } else {
        parts[from] == Part::Text || (part_text(e, floats, parts[from]) is Ok && reaches_code(
            e,
            floats,
            parts,
            from + 1,
        ))
    }
}

/// The code of a binary is disassembled for the given parts.
pub open spec fn disassembles(
    nso: NsoView,
    refs: Tables,
    floats: FloatView,
    parts: Seq<Part>,
) -> bool {
    lookup::lookup_of(nso) matches Ok(lookup) && reaches_code(
        ExportView { nso, lookup, refs },
        floats,
        parts,
        0,
    )
}

/// `r` holds the files that were wanted, or the error. The disassembler may fail where it is asked.
pub open spec fn are_files(
    wanted: Result<Seq<(Seq<char>, Seq<char>)>, Error>,
    asked: bool,
    r: Result<Vec<(String, String)>, Error>,
) -> bool {
    match r {
        Ok(files) => wanted == Ok::<Seq<(Seq<char>, Seq<char>)>, Error>(file_views(files@)),
        Err(error) => (error == Error::Disassembler && asked) || wanted == Err::<
            Seq<(Seq<char>, Seq<char>)>,
            Error,
        >(error),
    }
}

impl NSO {
    /// Writes a part of the binary. `floats` says how the values of floating-point numbers are written.
    pub fn export_part(
        &self,
        part: Part,
        references: &References,
        helper: &NsoLookupHelper,
        floats: &FloatTexts,
    ) -> (r: Result<String, Error>)
        requires
            helper@.fits(self@.symbols.len()),
        ensures
            ({
                let e = ExportView { nso: self@, lookup: helper@, refs: references@ };
                match r {
                    Ok(text) => part_text(e, floats@, part) == Ok::<Seq<char>, Error>(text@),
                    Err(error) => (error == Error::Disassembler && part == Part::Text) || part_text(
                        e,
                        floats@,
                        part,
                    ) == Err::<Seq<char>, Error>(error),
                }
            }),
    {
        match part {
            Part::SymbolList => self.export_symbol_list(),
            Part::GotPlt => self.export_got_plt(),
            Part::Got => self.export_got(),
            Part::InitArray => self.export_init_array(references, helper),
            Part::Crt0 => Ok(self.export_crt0()),
            Part::UnknownDataGap => Ok(self.export_unknown_data_gap()),
            Part::EhFrame => self.export_eh_frame(),
            Part::ModuleName => Ok(self.export_module_name()),
            Part::RelaDyn => Ok(export_relocations(".rela.dyn", &self.reloc_dyn_table)),
            Part::RelaPlt => Ok(export_relocations(".rela.plt", &self.reloc_plt_table)),
            Part::Dynamic => Ok(self.export_dynamic()),
            Part::Dynsym => Ok(self.export_dynsym()),
            Part::Dynstr => Ok(self.export_dynstr()),
            Part::Hash => Ok(self.export_hash()),
            Part::GnuHash => Ok(self.export_gnu_hash()),
            Part::EhFrameHdr => self.export_eh_frame_hdr(),
            Part::Embed => Ok(self.export_embed(helper)),
            Part::Plt => match self.sections.get_range(&SectionType::GotPlt) {
                Some(range) => self.text.export_plt(&range, helper, self),
                None => Err(Error::SectionMissing),
            },
            Part::Text => self.text.export_asm(references, helper, self),
            Part::Bss => self.export_bss(references, helper),
            Part::Data => self.export_data(references, helper, floats),
            Part::Rodata => self.export_rodata(references, helper, floats),
        }
    }

    fn export_parts(
        &self,
        parts: &Vec<Part>,
        references: &References,
        floats: &FloatTexts,
    ) -> (r: Result<Vec<(String, String)>, Error>)
        ensures
            are_files(
                exported(self@, references@, floats@, parts@),
                disassembles(self@, references@, floats@, parts@),
                r,
            ),
    {
        let helper = NsoLookupHelper::new(self)?;
        let ghost e = ExportView { nso: self@, lookup: helper@, refs: references@ };
        let mut files: Vec<(String, String)> = Vec::new();
        assert(file_views(files@) =~= Seq::empty());
        let mut i: usize = 0;
        while i < parts.len()
            invariant
                i <= parts@.len(),
                helper@.fits(self@.symbols.len()),
                e == (ExportView { nso: self@, lookup: helper@, refs: references@ }),
                exported(self@, references@, floats@, parts@) == part_files(
                    e,
                    floats@,
                    parts@,
                    i as int,
                    file_views(files@),
                ),
                reaches_code(e, floats@, parts@, i as int) ==> reaches_code(e, floats@, parts@, 0),
                disassembles(self@, references@, floats@, parts@) == reaches_code(e, floats@, parts@, 0),
            decreases parts@.len() - i,
        {
            let part: Part = parts[i];
            let text = self.export_part(part, references, &helper, floats)?;
            let ghost before = files@;
            files.push((String::from_str(part.file_name()), text));
            assert(file_views(files@) =~= file_views(before).push((part.name(), text@)));
            i = i + 1;
        }
        Ok(files)
    }

    /// Writes all parts of the binary.
    pub fn export_all(&self, references: &References, floats: &FloatTexts) -> (r: Result<
        Vec<(String, String)>,
        Error,
    >)
        ensures
            are_files(
                exported(self@, references@, floats@, all_parts()),
                disassembles(self@, references@, floats@, all_parts()),
                r,
            ),
    {
        let parts: Vec<Part> = vec![
            Part::SymbolList,
            Part::GotPlt,
            Part::Got,
            Part::InitArray,
            Part::Crt0,
            Part::UnknownDataGap,
            Part::EhFrame,
            Part::ModuleName,
            Part::RelaDyn,
            Part::RelaPlt,
            Part::Dynamic,
            Part::Dynsym,
            Part::Dynstr,
            Part::Hash,
            Part::GnuHash,
            Part::EhFrameHdr,
            Part::Embed,
            Part::Plt,
            Part::Text,
            Part::Bss,
            Part::Data,
            Part::Rodata,
        ];
        assert(parts@ =~= all_parts());
        self.export_parts(&parts, references, floats)
    }

    /// Writes the parts of the binary that a linker cannot make by itself.
    pub fn export_relinkable(&self, references: &References, floats: &FloatTexts) -> (r: Result<
        Vec<(String, String)>,
        Error,
    >)
        ensures
            are_files(
                exported(self@, references@, floats@, relinkable_parts()),
                disassembles(self@, references@, floats@, relinkable_parts()),
                r,
            ),
    {
        let parts: Vec<Part> = vec![
            Part::SymbolList,
            Part::InitArray,
            Part::Crt0,
            Part::UnknownDataGap,
            Part::ModuleName,
            Part::Embed,
            Part::Text,
            Part::Bss,
            Part::Data,
            Part::Rodata,
        ];
        assert(parts@ =~= relinkable_parts());
        self.export_parts(&parts, references, floats)
    }
}

/// The name of the assembly file of an object: its own name with `.s` in place of `.o`.
pub open spec fn assembly_name(name: Seq<char>) -> Seq<char> {
    if strings::ends_in(name, ".o"@) {
        name.take(name.len() - 2) + ".s"@
    } else {
        name + ".s"@
    }
}

/// The name of the object file of an object, which ends in `.o`.
pub open spec fn object_name(name: Seq<char>) -> Seq<char> {
    if strings::ends_in(name, ".o"@) {
        name
    } else {
        name + ".o"@
    }
}

pub fn make_assembly_name(name: &str) -> (r: String)
    ensures
        r@ == assembly_name(name@),
{
    proof {
        reveal_strlit(".o");
    }
    let mut result = if text_ends_in(name, ".o") {
        String::from_str(name.substring_char(0, name.unicode_len() - 2))
    } else {
        String::from_str(name)
    };
    result.append(".s");
    result
}

pub fn make_object_name(name: &str) -> (r: String)
    ensures
        r@ == object_name(name@),
{
    let mut result = String::from_str(name);
    if !text_ends_in(name, ".o") {
        result.append(".o");
    }
    result
}

/// What is written for an object: its code and its data.
pub open spec fn split_text(
    e: ExportView,
    floats: FloatView,
    infos: Seq<Info>,
    subsections: Seq<(u64, u64, Seq<char>)>,
) -> Result<Seq<char>, Error> {
    match code::both(
        code::object_text(e, e.nso.text, infos),
        objects::object_data(e, floats, infos, subsections),
    ) {
        Err(error) => Err(error),
        Ok((code, data)) => Ok(code + data),
    }
}

/// `files` with those of the objects from `from` on: the names of the objects and their assembly.
/// What belongs to no known object is left out.
pub open spec fn split_files(
    e: ExportView,
    floats: FloatView,
    list: Seq<(String, Object)>,
    subsections: Seq<(u64, u64, Seq<char>)>,
    from: int,
    files: Seq<(Seq<char>, Seq<char>)>,
) -> Result<Seq<(Seq<char>, Seq<char>)>, Error>
    decreases list.len() - from,
{
    if from < 0 || from >= list.len() {
        Ok(files)
    } else {
        let (name, obj) = list[from];
        if name@ == "UNKNOWN"@ {
            split_files(e, floats, list, subsections, from + 1, files)
        } else {
            match split_text(e, floats, obj.text_section@, subsections) {
                Err(error) => Err(error),
                Ok(text) => split_files(
                    e,
                    floats,
                    list,
                    subsections,
                    from + 1,
                    files.push((name@, text)),
                ),
            }
        }
    }
}

/// The assembly of all objects of a binary.
pub open spec fn split_objects(
    nso: NsoView,
    refs: Tables,
    floats: FloatView,
    list: Seq<(String, Object)>,
    subsections: Seq<(u64, u64, Seq<char>)>,
) -> Result<Seq<(Seq<char>, Seq<char>)>, Error> {
    match lookup::lookup_of(nso) {
        Err(error) => Err(error),
        Ok(lookup) => split_files(
            ExportView { nso, lookup, refs },
            floats,
            list,
            subsections,
            0,
            Seq::empty(),
        ),
    }
}

/// An object of a binary: its name, where its files are put, and its assembly.
pub struct SplitFile {
    pub name: String,
    pub assembly_path: String,
    pub object_path: String,
    pub text: String,
}

/// A [`SplitFile`] by its texts.
pub struct SplitFileView {
    pub name: Seq<char>,
    pub assembly_path: Seq<char>,
    pub object_path: Seq<char>,
    pub text: Seq<char>,
}

impl View for SplitFile {
    type V = SplitFileView;

    open spec fn view(&self) -> SplitFileView {
        SplitFileView {
            name: self.name@,
            assembly_path: self.assembly_path@,
            object_path: self.object_path@,
            text: self.text@,
        }
    }
}

/// The code of the first known object from `from` on can be found, so that it is disassembled.
pub open spec fn finds_code(text: TextView, list: Seq<(String, Object)>, from: int) -> bool
    decreases list.len() - from,
{
    if from < 0 || from >= list.len() {
        false
    } else if list[from].0@ == "UNKNOWN"@ {
        finds_code(text, list, from + 1)
    } else {
        code::object_code(text, list[from].1.text_section@) is Ok
    }
}

/// The code of one of the objects is disassembled.
pub open spec fn disassembles_objects(nso: NsoView, list: Seq<(String, Object)>) -> bool {
    lookup::lookup_of(nso) is Ok && finds_code(nso.text, list, 0)
}

impl NSO {
    /// Writes the code and the data of an object.
    pub fn export_object(
        &self,
        obj: &Object,
        subsections: &Vec<(u64, u64, String)>,
        references: &References,
        helper: &NsoLookupHelper,
        floats: &FloatTexts,
    ) -> (r: Result<String, Error>)
        requires
            helper@.fits(self@.symbols.len()),
        ensures
            ({
                let e = ExportView { nso: self@, lookup: helper@, refs: references@ };
                let wanted = split_text(
                    e,
                    floats@,
                    obj.text_section@,
                    hacks::subsection_views(subsections@),
                );
                match r {
                    Ok(text) => wanted == Ok::<Seq<char>, Error>(text@),
                    Err(error) => (error == Error::Disassembler && code::object_code(
                        self@.text,
                        obj.text_section@,
                    ) is Ok) || wanted == Err::<Seq<char>, Error>(error),
                }
            }),
    {
        let mut text = self.text.export_object_asm(obj, references, helper, self)?;
        let exporter = Exporter { nso: self, helper, references };
        let data = exporter.export_object_data(obj, subsections, floats)?;
        text.append(data.as_str());
        Ok(text)
    }

    /// Writes the assembly of all objects with the given parts of `.rodata`.
    pub fn split_with(
        &self,
        file_list: &FileList,
        subsections: &Vec<(u64, u64, String)>,
        references: &References,
        floats: &FloatTexts,
    ) -> (r: Result<Vec<(String, String)>, Error>)
        ensures
            are_files(
                split_objects(
                    self@,
                    references@,
                    floats@,
                    file_list@,
                    hacks::subsection_views(subsections@),
                ),
                disassembles_objects(self@, file_list@),
                r,
            ),
    {
        let helper = NsoLookupHelper::new(self)?;
        let ghost e = ExportView { nso: self@, lookup: helper@, refs: references@ };
        let ghost views = hacks::subsection_views(subsections@);
        let mut files: Vec<(String, String)> = Vec::new();
        assert(file_views(files@) =~= Seq::empty());
        let mut i: usize = 0;
        while i < file_list.len()
            invariant
                i <= file_list@.len(),
                helper@.fits(self@.symbols.len()),
                e == (ExportView { nso: self@, lookup: helper@, refs: references@ }),
                views == hacks::subsection_views(subsections@),
                split_objects(self@, references@, floats@, file_list@, views) == split_files(
                    e,
                    floats@,
                    file_list@,
                    views,
                    i as int,
                    file_views(files@),
                ),
                finds_code(self@.text, file_list@, i as int) ==> finds_code(
                    self@.text,
                    file_list@,
                    0,
                ) || files@.len() > 0,
                files@.len() > 0 ==> finds_code(self@.text, file_list@, 0),
                disassembles_objects(self@, file_list@) == finds_code(self@.text, file_list@, 0),
            decreases file_list@.len() - i,
        {
            if !text_eq(file_list[i].0.as_str(), "UNKNOWN") {
                let text = self.export_object(
                    &file_list[i].1,
                    subsections,
                    references,
                    &helper,
                    floats,
                )?;
                let ghost before = files@;
                files.push((file_list[i].0.clone(), text));
                assert(file_views(files@) =~= file_views(before).push(
                    (file_list@[i as int].0@, text@),
                ));
            }
            i = i + 1;
        }
        Ok(files)
    }

    /// Writes the assembly of all objects. What cannot be found out from the binary comes from
    /// `hacks`: the parts of `.rodata`, and where the files named by [`make_assembly_name`] and
    /// [`make_object_name`] are put. `floats` says how the values of floating-point numbers are written.
    pub fn split<H: Hacks + ?Sized>(
        &self,
        hacks: &H,
        file_list: &FileList,
        references: &References,
        floats: &FloatTexts,
    ) -> (r: Result<Vec<SplitFile>, Error>)
        ensures
            ({
                let wanted = split_objects(
                    self@,
                    references@,
                    floats@,
                    file_list@,
                    hacks.rodata_subsections(),
                );
                match r {
                    Ok(files) => wanted matches Ok(texts) && files@.len() == texts.len() && forall|
                        k: int,
                    |
                        0 <= k < texts.len() ==> (#[trigger] files@[k])@ == (SplitFileView {
                            name: texts[k].0,
                            assembly_path: hacks.object_path(assembly_name(texts[k].0)),
                            object_path: hacks.object_path(object_name(texts[k].0)),
                            text: texts[k].1,
                        }),
                    Err(error) => (error == Error::Disassembler && disassembles_objects(
                        self@,
                        file_list@,
                    )) || wanted == Err::<Seq<(Seq<char>, Seq<char>)>, Error>(error),
                }
            }),
    {
        let subsections = hacks.get_rodata_subsections();
        let texts = self.split_with(file_list, &subsections, references, floats)?;
        let mut files: Vec<SplitFile> = Vec::new();
        let mut i: usize = 0;
        while i < texts.len()
            invariant
                i <= texts@.len(),
                files@.len() == i,
                forall|k: int|
                    0 <= k < i ==> (#[trigger] files@[k])@ == (SplitFileView {
                        name: texts@[k].0@,
                        assembly_path: hacks.object_path(assembly_name(texts@[k].0@)),
                        object_path: hacks.object_path(object_name(texts@[k].0@)),
                        text: texts@[k].1@,
                    }),
            decreases texts@.len() - i,
        {
            let name = texts[i].0.clone();
            let assembly = make_assembly_name(name.as_str());
            let object = make_object_name(name.as_str());
            files.push(
                SplitFile {
                    assembly_path: hacks.get_object_path(assembly.as_str()),
                    object_path: hacks.get_object_path(object.as_str()),
                    text: texts[i].1.clone(),
                    name,
                },
            );
            i = i + 1;
        }
        Ok(files)
    }
}

proof fn lemma_files_stay(
    e: ExportView,
    floats: FloatView,
    list: Seq<(String, Object)>,
    subsections: Seq<(u64, u64, Seq<char>)>,
    from: int,
    files: Seq<(Seq<char>, Seq<char>)>,
    k: int,
)
    requires
        0 <= k < files.len(),
    ensures
        split_files(e, floats, list, subsections, from, files) matches Ok(all) ==> k < all.len() && all[k]
            == files[k],
    decreases list.len() - from,
{
    if 0 <= from < list.len() {
        let (name, obj) = list[from];
        if name@ == "UNKNOWN"@ {
            lemma_files_stay(e, floats, list, subsections, from + 1, files, k);
        } else if let Ok(text) = split_text(e, floats, obj.text_section@, subsections) {
            lemma_files_stay(e, floats, list, subsections, from + 1, files.push((name@, text)), k);
        }
    }
}

proof fn lemma_object_is_split(
    e: ExportView,
    floats: FloatView,
    list: Seq<(String, Object)>,
    subsections: Seq<(u64, u64, Seq<char>)>,
    from: int,
    files: Seq<(Seq<char>, Seq<char>)>,
    i: int,
)
    requires
        0 <= from <= i < list.len(),
        list[i].0@ != "UNKNOWN"@,
        split_files(e, floats, list, subsections, from, files) is Ok,
    ensures
        split_text(e, floats, list[i].1.text_section@, subsections) matches Ok(text) && split_files(
            e,
            floats,
            list,
            subsections,
            from,
            files,
        )->Ok_0.contains((list[i].0@, text)),
    decreases list.len() - from,
{
    let (name, obj) = list[from];
    if name@ == "UNKNOWN"@ {
        lemma_object_is_split(e, floats, list, subsections, from + 1, files, i);
    } else {
        let text = split_text(e, floats, obj.text_section@, subsections)->Ok_0;
        let more = files.push((name@, text));
        if from < i {
            lemma_object_is_split(e, floats, list, subsections, from + 1, more, i);
        } else {
            lemma_files_stay(e, floats, list, subsections, from + 1, more, files.len() as int);
            let all = split_files(e, floats, list, subsections, from, files)->Ok_0;
            assert(all[files.len() as int] == (name@, text));
        }
    }
}

/// Where a binary can be split, each of its known objects is: there is a file with its name, its
/// code and its data.
pub proof fn law_every_object_is_split(
    nso: NsoView,
    refs: Tables,
    floats: FloatView,
    list: Seq<(String, Object)>,
    subsections: Seq<(u64, u64, Seq<char>)>,
    i: int,
)
    requires
        split_objects(nso, refs, floats, list, subsections) is Ok,
        0 <= i < list.len(),
        list[i].0@ != "UNKNOWN"@,
    ensures
        lookup::lookup_of(nso) matches Ok(lookup) && split_text(
            ExportView { nso, lookup, refs },
            floats,
            list[i].1.text_section@,
            subsections,
        ) matches Ok(text) && split_objects(nso, refs, floats, list, subsections)->Ok_0.contains(
            (list[i].0@, text),
        ),
{
    let lookup = lookup::lookup_of(nso)->Ok_0;
    lemma_object_is_split(
        ExportView { nso, lookup, refs },
        floats,
        list,
        subsections,
        0,
        Seq::empty(),
        i,
    );
}

/// The files of the parts are named after the sections, and only the list of symbols is no assembly.
pub proof fn law_parts_are_named_after_their_sections()
    ensures
        Part::SymbolList.name() == "exported_symbols.sym"@,
        Part::GotPlt.name() == "got.plt.s"@,
        Part::Got.name() == "got.s"@,
        Part::InitArray.name() == "init_array.s"@,
        Part::Crt0.name() == "crt0.s"@,
        Part::UnknownDataGap.name() == "unknown_data_gap.s"@,
        Part::EhFrame.name() == "eh_frame.s"@,
        Part::ModuleName.name() == "module_name.s"@,
        Part::RelaDyn.name() == "rela.dyn.s"@,
        Part::RelaPlt.name() == "rela.plt.s"@,
        Part::Dynamic.name() == "dynamic.s"@,
        Part::Dynsym.name() == "dynsym.s"@,
        Part::Dynstr.name() == "dynstr.s"@,
        Part::Hash.name() == "hash.s"@,
        Part::GnuHash.name() == "gnu_hash.s"@,
        Part::EhFrameHdr.name() == "eh_frame_hdr.s"@,
        Part::Embed.name() == "embed.s"@,
        Part::Plt.name() == "plt.s"@,
        Part::Text.name() == "text.s"@,
        Part::Bss.name() == "bss.s"@,
        Part::Data.name() == "data.s"@,
        Part::Rodata.name() == "rodata.s"@,
{
}

/// There is a file for each part, and only one.
pub proof fn law_all_parts_are_written_once(part: Part)
    ensures
        all_parts().contains(part),
        all_parts().no_duplicates(),
{
    assert(all_parts()[0] == Part::SymbolList);
    assert(all_parts()[1] == Part::GotPlt);
    assert(all_parts()[2] == Part::Got);
    assert(all_parts()[3] == Part::InitArray);
    assert(all_parts()[4] == Part::Crt0);
    assert(all_parts()[5] == Part::UnknownDataGap);
    assert(all_parts()[6] == Part::EhFrame);
    assert(all_parts()[7] == Part::ModuleName);
    assert(all_parts()[8] == Part::RelaDyn);
    assert(all_parts()[9] == Part::RelaPlt);
    assert(all_parts()[10] == Part::Dynamic);
    assert(all_parts()[11] == Part::Dynsym);
    assert(all_parts()[12] == Part::Dynstr);
    assert(all_parts()[13] == Part::Hash);
    assert(all_parts()[14] == Part::GnuHash);
    assert(all_parts()[15] == Part::EhFrameHdr);
    assert(all_parts()[16] == Part::Embed);
    assert(all_parts()[17] == Part::Plt);
    assert(all_parts()[18] == Part::Text);
    assert(all_parts()[19] == Part::Bss);
    assert(all_parts()[20] == Part::Data);
    assert(all_parts()[21] == Part::Rodata);
}

/// What a linker makes by itself is left out where the files are to be linked again: the tables for
/// linking and unwinding.
pub proof fn law_linker_tables_are_left_out(part: Part)
    ensures
        relinkable_parts().contains(part) <==> !(part is GotPlt || part is Got || part is EhFrame || part is RelaDyn || part is RelaPlt || part is Dynamic || part is Dynsym || part is Dynstr || part is Hash || part is GnuHash || part is EhFrameHdr || part is Plt),
        relinkable_parts().no_duplicates(),
{
    assert(relinkable_parts()[0] == Part::SymbolList);
    assert(relinkable_parts()[1] == Part::InitArray);
    assert(relinkable_parts()[2] == Part::Crt0);
    assert(relinkable_parts()[3] == Part::UnknownDataGap);
    assert(relinkable_parts()[4] == Part::ModuleName);
    assert(relinkable_parts()[5] == Part::Embed);
    assert(relinkable_parts()[6] == Part::Text);
    assert(relinkable_parts()[7] == Part::Bss);
    assert(relinkable_parts()[8] == Part::Data);
    assert(relinkable_parts()[9] == Part::Rodata);
}

/// Each part is written from the table that it is named after.
pub proof fn law_parts_are_written_from_their_tables(e: ExportView, floats: FloatView)
    ensures
        part_text(e, floats, Part::SymbolList) == sections::symbol_list(e.nso),
        part_text(e, floats, Part::GotPlt) == sections::got_plt_text(e.nso),
        part_text(e, floats, Part::Got) == sections::got_text(e.nso),
        part_text(e, floats, Part::InitArray) == sections::init_array_text(e),
        part_text(e, floats, Part::Crt0)->Ok_0 == sections::crt0_text(),
        part_text(e, floats, Part::UnknownDataGap)->Ok_0 == sections::unknown_data_gap_text(),
        part_text(e, floats, Part::ModuleName)->Ok_0 == sections::module_name_text(e.nso.build_str),
        part_text(e, floats, Part::RelaDyn)->Ok_0 == sections::relocation_text(
            ".rela.dyn"@,
            e.nso.reloc_dyn,
        ),
        part_text(e, floats, Part::RelaPlt)->Ok_0 == sections::relocation_text(
            ".rela.plt"@,
            e.nso.reloc_plt,
        ),
        part_text(e, floats, Part::Dynamic)->Ok_0 == sections::dynamic_text(e.nso.dynamic),
        part_text(e, floats, Part::Dynsym)->Ok_0 == sections::symbol_table_text(e.nso.symbols),
        part_text(e, floats, Part::Dynstr)->Ok_0 == sections::string_table_text(e.nso.strings),
        part_text(e, floats, Part::Hash)->Ok_0 == sections::hash_text(e.nso.hash_table),
        part_text(e, floats, Part::GnuHash)->Ok_0 == sections::gnu_hash_text(e.nso.gnu_hash_table),
        part_text(e, floats, Part::Embed)->Ok_0 == sections::embed_text(e.nso, e.lookup),
        part_text(e, floats, Part::Text) == code::code_text(e, e.nso.text),
        part_text(e, floats, Part::Bss) == sections::bss_text(e),
        part_text(e, floats, Part::Data) == sections::data_text(e, floats),
        part_text(e, floats, Part::Rodata) == sections::rodata_text(e, floats),
        forall|start: int, end: int| #[trigger]
            section_map::is_whole(e.nso.sections, start, end, SectionType::GotPlt) && end
                <= u64::MAX ==> part_text(e, floats, Part::Plt) == code::plt_text(
                e.nso,
                e.lookup,
                e.nso.text,
                (start as u64, end as u64),
            ),
{
    assert forall|start: int, end: int| #[trigger]
        section_map::is_whole(e.nso.sections, start, end, SectionType::GotPlt) && end
            <= u64::MAX implies part_text(e, floats, Part::Plt) == code::plt_text(
        e.nso,
        e.lookup,
        e.nso.text,
        (start as u64, end as u64),
    ) by {
        section_map::lemma_whole_section(e.nso.sections, start, end, SectionType::GotPlt);
    }
}

/// The unwinding tables are written byte by byte, from where they are to where they end.
pub proof fn law_unwinding_tables_are_copied(
    e: ExportView,
    floats: FloatView,
    start: int,
    end: int,
)
    requires
        end <= e.nso.file.memory.len(),
        end <= u64::MAX,
    ensures
        section_map::is_whole(e.nso.sections, start, end, SectionType::EhFrame) ==> part_text(
            e,
            floats,
            Part::EhFrame,
        ) == Ok::<Seq<char>, Error>(
            sections::raw_lines(
                ".section \".eh_frame\", \"a\""@ + "\n"@,
                e.nso.file.memory.subrange(start, end),
                0,
            ),
        ),
        section_map::is_whole(e.nso.sections, start, end, SectionType::EhFrameHdr) ==> part_text(
            e,
            floats,
            Part::EhFrameHdr,
        ) == Ok::<Seq<char>, Error>(
            sections::raw_lines(
                ".section \".eh_frame_hdr\", \"a\""@ + "\n"@,
                e.nso.file.memory.subrange(start, end),
                0,
            ),
        ),
{
    if section_map::is_whole(e.nso.sections, start, end, SectionType::EhFrame) {
        sections::law_raw_sections_are_written_byte_by_byte(
            Seq::empty(),
            Seq::empty(),
            0,
            e.nso,
            SectionType::EhFrame,
            start,
            end,
            ".section \".eh_frame\", \"a\""@,
        );
    }
    if section_map::is_whole(e.nso.sections, start, end, SectionType::EhFrameHdr) {
        sections::law_raw_sections_are_written_byte_by_byte(
            Seq::empty(),
            Seq::empty(),
            0,
            e.nso,
            SectionType::EhFrameHdr,
            start,
            end,
            ".section \".eh_frame_hdr\", \"a\""@,
        );
    }
}

/// There is one file for each of the parts, in their order, with the name and the text of the part.
#[verifier::rlimit(50)]
pub proof fn law_files_are_in_order(
    e: ExportView,
    floats: FloatView,
    parts: Seq<Part>,
    from: int,
    files: Seq<(Seq<char>, Seq<char>)>,
    k: int,
)
    requires
        0 <= from <= parts.len(),
        part_files(e, floats, parts, from, files) is Ok,
    ensures
        ({
            let all = part_files(e, floats, parts, from, files)->Ok_0;
            &&& all.len() == files.len() + parts.len() - from
            &&& 0 <= k < files.len() ==> all[k] == files[k]
            &&& from <= k < parts.len() ==> all[files.len() + k - from].0 == parts[k].name()
                && part_text(e, floats, parts[k]) == Ok::<Seq<char>, Error>(
                all[files.len() + k - from].1,
            )
        }),
    decreases parts.len() - from,
{
    if from < parts.len() {
        let text = part_text(e, floats, parts[from])->Ok_0;
        let more = files.push((parts[from].name(), text));
        law_files_are_in_order(e, floats, parts, from + 1, more, k);
        law_files_are_in_order(e, floats, parts, from + 1, more, files.len() as int);
    }
}

/// An object `x.o` is assembled from `x.s`, and an object without an ending gets both endings.
pub proof fn law_names_of_files_differ_in_their_ending(stem: Seq<char>)
    ensures
        assembly_name(stem + seq!['.', 'o']) == stem + seq!['.', 's'],
        object_name(stem + seq!['.', 'o']) == stem + seq!['.', 'o'],
        stem.len() < 2 || stem[stem.len() - 1] != 'o' || stem[stem.len() - 2] != '.'
            ==> assembly_name(stem) == stem + seq!['.', 's'] && object_name(stem) == stem + seq![
            '.',
            'o',
        ],
{
    reveal_strlit(".o");
    reveal_strlit(".s");
    let name = stem + seq!['.', 'o'];
    assert(".s"@ =~= seq!['.', 's']);
    assert(".o"@ =~= seq!['.', 'o']);
    assert(name.skip(name.len() - 2) =~= seq!['.', 'o']);
    assert(name.take(name.len() - 2) =~= stem);
    if stem.len() >= 2 && strings::ends_in(stem, ".o"@) {
        assert(stem.skip(stem.len() - 2)[0] == stem[stem.len() - 2]);
        assert(stem.skip(stem.len() - 2)[1] == stem[stem.len() - 1]);
    }
}

/// An object is written as its code and then its data, if both can be.
pub proof fn law_data_follows_the_code(
    e: ExportView,
    floats: FloatView,
    infos: Seq<Info>,
    subsections: Seq<(u64, u64, Seq<char>)>,
)
    ensures
        ({
            let first = code::object_text(e, e.nso.text, infos);
            let second = objects::object_data(e, floats, infos, subsections);
            &&& first is Ok && second is Ok ==> split_text(e, floats, infos, subsections) == Ok::<
                Seq<char>,
                Error,
            >(first->Ok_0 + second->Ok_0)
            &&& first is Err || second is Err ==> split_text(e, floats, infos, subsections) is Err
        }),
{
}

/// Only objects that are known have files, each one with its own name.
pub proof fn law_unknown_objects_are_left_out(
    e: ExportView,
    floats: FloatView,
    list: Seq<(String, Object)>,
    subsections: Seq<(u64, u64, Seq<char>)>,
    from: int,
    files: Seq<(Seq<char>, Seq<char>)>,
    k: int,
)
    requires
        0 <= from <= list.len(),
        split_files(e, floats, list, subsections, from, files) is Ok,
        files.len() <= k < split_files(e, floats, list, subsections, from, files)->Ok_0.len(),
    ensures
        ({
            let (name, text) = split_files(e, floats, list, subsections, from, files)->Ok_0[k];
            &&& name != "UNKNOWN"@
            &&& exists|i: int|
                from <= i < list.len() && (#[trigger] list[i]).0@ == name && split_text(
                    e,
                    floats,
                    list[i].1.text_section@,
                    subsections,
                ) == Ok::<Seq<char>, Error>(text)
        }),
    decreases list.len() - from,
{
    if from < list.len() {
        let (name, obj) = list[from];
        if name@ == "UNKNOWN"@ {
            law_unknown_objects_are_left_out(e, floats, list, subsections, from + 1, files, k);
        } else {
            let text = split_text(e, floats, obj.text_section@, subsections)->Ok_0;
            let more = files.push((name@, text));
            if k > files.len() {
                law_unknown_objects_are_left_out(e, floats, list, subsections, from + 1, more, k);
            } else {
                lemma_files_stay(e, floats, list, subsections, from + 1, more, k);
                assert(more[k] == (name@, text));
                assert(list[from].0@ == name@);
            }
        }
    }
}

} // verus!
