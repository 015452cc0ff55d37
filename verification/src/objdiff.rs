//! The project file of the `objdiff` tool.

use vstd::prelude::*;
use vstd::string::*;

use crate::error::Error;
use crate::file_list::{FileList, Info, Object};
use crate::fmt::{self, format_hex};
use crate::hacks::Hacks;
use crate::strings::{self, text_begins_with};

verus! {

/// The version of `objdiff` that is needed at least.
pub const MIN_VERSION: &'static str = "3.3.0";

/// An object file in the project file.
pub struct Unit {
    pub name: String,
    /// The object file that was split off the binary.
    pub target_path: String,
    /// The object file that was compiled from the decompiled source.
    pub base_path: String,
    /// Names in the target and in the source, for functions whose names are guesses.
    pub symbol_mappings: Vec<(String, String)>,
}

/// What a [`Unit`] says.
pub struct UnitView {
    pub name: Seq<char>,
    pub target_path: Seq<char>,
    pub base_path: Seq<char>,
    pub symbol_mappings: Seq<(Seq<char>, Seq<char>)>,
}

/// Pairs of names by their text.
pub open spec fn mapping_views(mappings: Seq<(String, String)>) -> Seq<(Seq<char>, Seq<char>)> {
    mappings.map_values(|m: (String, String)| (m.0@, m.1@))
}

impl View for Unit {
    type V = UnitView;

    open spec fn view(&self) -> UnitView {
        UnitView {
            name: self.name@,
            target_path: self.target_path@,
            base_path: self.base_path@,
            symbol_mappings: mapping_views(self.symbol_mappings@),
        }
    }
}

/// `text` from `from` on, with each `old_part` replaced by `new_part`.
pub open spec fn replaced(
    text: Seq<char>,
    old_part: Seq<char>,
    new_part: Seq<char>,
    from: int,
) -> Seq<char>
    decreases text.len() - from,
{
    if from < 0 || from >= text.len() {
        Seq::empty()
    } else if old_part.len() > 0 && strings::begins_with(text.skip(from), old_part) {
        new_part + replaced(text, old_part, new_part, from + old_part.len())
    } else {
        seq![text[from]] + replaced(text, old_part, new_part, from + 1)
    }
}

fn replace(text: &str, old_part: &str, new_part: &str) -> (r: String)
    requires
        old_part@.len() > 0,
    ensures
        r@ == replaced(text@, old_part@, new_part@, 0),
{
    let length: usize = text.unicode_len();
    let step: usize = old_part.unicode_len();
    let ghost wanted = replaced(text@, old_part@, new_part@, 0);
    let mut out = String::from_str("");
    proof {
        reveal_strlit("");
        assert(out@ + wanted =~= wanted);
    }
    let mut i: usize = 0;
    while i < length
        invariant
            i <= length,
            length == text@.len(),
            step == old_part@.len(),
            step > 0,
            out@ + replaced(text@, old_part@, new_part@, i as int) == wanted,
        decreases length - i,
    {
        let rest = text.substring_char(i, length);
        assert(rest@ =~= text@.skip(i as int));
        let ghost before = out@;
        if text_begins_with(rest, old_part) {
            out.append(new_part);
            assert(before + (new_part@ + replaced(text@, old_part@, new_part@, i + step))
                =~= out@ + replaced(text@, old_part@, new_part@, i + step));
            i = i + step;
        } else {
            out.append(text.substring_char(i, i + 1));
            assert(text@.subrange(i as int, i + 1) =~= seq![text@[i as int]]);
            assert(before + (seq![text@[i as int]] + replaced(text@, old_part@, new_part@, i + 1))
                =~= out@ + replaced(text@, old_part@, new_part@, i + 1));
            i = i + 1;
        }
    }
    assert(out@ + Seq::<char>::empty() =~= out@);
    out
}

/// The pairs of names of the functions from `from` on whose names are guesses.
pub open spec fn mappings(infos: Seq<Info>, from: int, known: Seq<(Seq<char>, Seq<char>)>) -> Result<
    Seq<(Seq<char>, Seq<char>)>,
    Error,
>
    decreases infos.len() - from,
{
    if from < 0 || from >= infos.len() {
        Ok(known)
    } else if !infos[from].guess {
        mappings(infos, from + 1, known)
    } else if !infos[from].label.is_named() {
        Err(Error::NoLabel)
    } else {
        mappings(
            infos,
            from + 1,
            known.push(
                (
                    "loc_"@ + fmt::hex(infos[from].offset as nat),
                    infos[from].label.first(),
                ),
            ),
        )
    }
}

/// The entry for an object whose file is put at `path`.
pub open spec fn unit(infos: Seq<Info>, path: Seq<char>) -> Result<UnitView, Error> {
    match mappings(infos, 0, Seq::empty()) {
        Err(e) => Err(e),
        Ok(symbol_mappings) => Ok(
            UnitView {
                name: path,
                target_path: "out/split/obj/"@ + path,
                base_path: "build/CMakeFiles/odyssey.dir/"@ + replaced(
                    path,
                    ".o"@,
                    ".cpp.obj"@,
                    0,
                ),
                symbol_mappings,
            },
        ),
    }
}

fn get_mappings(obj: &Object) -> (r: Result<Vec<(String, String)>, Error>)
    ensures
        ({
            let wanted = mappings(obj.text_section@, 0, Seq::empty());
            match r {
                Ok(list) => wanted == Ok::<Seq<(Seq<char>, Seq<char>)>, Error>(
                    mapping_views(list@),
                ),
                Err(e) => wanted == Err::<Seq<(Seq<char>, Seq<char>)>, Error>(e),
            }
        }),
{
    let ghost infos = obj.text_section@;
    let mut list: Vec<(String, String)> = Vec::new();
    assert(mapping_views(list@) =~= Seq::empty());
    let mut i: usize = 0;
    while i < obj.text_section.len()
        invariant
            i <= obj.text_section@.len(),
            infos == obj.text_section@,
            mappings(infos, 0, Seq::empty()) == mappings(
                infos,
                i as int,
                mapping_views(list@),
            ),
        decreases obj.text_section@.len() - i,
    {
        let info: &Info = &obj.text_section[i];
        if info.guess {
            if !info.label.has_name() {
                return Err(Error::NoLabel);
            }
            let mut from = String::from_str("loc_");
            from.append(format_hex(info.offset as u64).as_str());
            let to = String::from_str(info.name());
            let ghost before = list@;
            list.push((from, to));
            assert(mapping_views(list@) =~= mapping_views(before).push((from@, to@)));
        }
        i = i + 1;
    }
    Ok(list)
}

/// Makes the entry for an object whose file is put at `path`.
pub fn make_unit(obj: &Object, path: String) -> (r: Result<Unit, Error>)
    ensures
        match r {
            Ok(made) => unit(obj.text_section@, path@) == Ok::<UnitView, Error>(made@),
            Err(e) => unit(obj.text_section@, path@) == Err::<UnitView, Error>(e),
        },
{
    let symbol_mappings = get_mappings(obj)?;
    let mut target_path = String::from_str("out/split/obj/");
    target_path.append(path.as_str());
    let mut base_path = String::from_str("build/CMakeFiles/odyssey.dir/");
    proof {
        reveal_strlit(".o");
    }
    base_path.append(replace(path.as_str(), ".o", ".cpp.obj").as_str());
    Ok(Unit { name: path, target_path, base_path, symbol_mappings })
}

/// Makes the entries for all objects. Where their files are put is known by `hacks`. Where an entry
/// cannot be made, the error is that of the first such object.
pub fn make_units<H: Hacks + ?Sized>(file_list: &FileList, hacks: &H) -> (r: Result<
    Vec<Unit>,
    Error,
>)
    ensures
        match r {
            Ok(units) => units@.len() == file_list@.len() && forall|i: int|
                0 <= i < units@.len() ==> unit(
                    file_list@[i].1.text_section@,
                    hacks.object_path(file_list@[i].0@),
                ) == Ok::<UnitView, Error>((#[trigger] units@[i])@),
            Err(e) => exists|i: int|
                0 <= i < file_list@.len() && unit(
                    (#[trigger] file_list@[i]).1.text_section@,
                    hacks.object_path(file_list@[i].0@),
                ) == Err::<UnitView, Error>(e) && forall|k: int|
                    0 <= k < i ==> unit(
                        (#[trigger] file_list@[k]).1.text_section@,
                        hacks.object_path(file_list@[k].0@),
                    ) is Ok,
        },
{
    let mut units: Vec<Unit> = Vec::new();
    let mut i: usize = 0;
    while i < file_list.len()
        invariant
            i <= file_list@.len(),
            units@.len() == i,
            forall|k: int|
                0 <= k < i ==> unit(
                    file_list@[k].1.text_section@,
                    hacks.object_path(file_list@[k].0@),
                ) == Ok::<UnitView, Error>((#[trigger] units@[k])@),
        decreases file_list@.len() - i,
    {
        let path = hacks.get_object_path(file_list[i].0.as_str());
        match make_unit(&file_list[i].1, path) {
            Ok(made) => {
                units.push(made);
            },
            Err(e) => {
                assert forall|k: int| 0 <= k < i implies unit(
                    (#[trigger] file_list@[k]).1.text_section@,
                    hacks.object_path(file_list@[k].0@),
                ) is Ok by {
                    let known = units@[k];
                }
                return Err(e);
            },
        }
        i = i + 1;
    }
    Ok(units)
}

/// `part` is not in `text` between `from` and `to`.
pub open spec fn is_free_of(text: Seq<char>, part: Seq<char>, from: int, to: int) -> bool {
    forall|k: int|
        from <= k < to ==> !strings::begins_with(#[trigger] text.skip(k), part)
}

/// Text up to the next place to be replaced stays as it is, and the replacement stands for that place.
pub proof fn law_other_text_is_not_replaced(
    text: Seq<char>,
    old_part: Seq<char>,
    new_part: Seq<char>,
    from: int,
    to: int,
)
    requires
        0 <= from <= to <= text.len(),
        old_part.len() > 0,
        is_free_of(text, old_part, from, to),
    ensures
        to == text.len() ==> replaced(text, old_part, new_part, from) == text.skip(from),
        to < text.len() && strings::begins_with(text.skip(to), old_part) ==> replaced(
            text,
            old_part,
            new_part,
            from,
        ) == text.subrange(from, to) + new_part + replaced(
            text,
            old_part,
            new_part,
            to + old_part.len(),
        ),
    decreases to - from,
{
    if from < to {
        law_other_text_is_not_replaced(text, old_part, new_part, from + 1, to);
        assert(!strings::begins_with(text.skip(from), old_part));
        assert(seq![text[from]] + text.skip(from + 1) =~= text.skip(from));
        let rest = replaced(text, old_part, new_part, to + old_part.len());
        assert(seq![text[from]] + (text.subrange(from + 1, to) + new_part + rest)
            =~= text.subrange(from, to) + new_part + rest);
    } else {
        let rest = replaced(text, old_part, new_part, to + old_part.len());
        assert(text.subrange(from, to) + new_part + rest =~= new_part + rest);
        assert(to == text.len() ==> text.skip(from) =~= Seq::empty());
    }
}

/// The entry of an object names the object that was split off the binary, and the one that is compiled
/// from its source, which has `.cpp.obj` where the first has `.o`.
pub proof fn law_units_name_both_objects(infos: Seq<Info>, stem: Seq<char>)
    requires
        unit(infos, stem + seq!['.', 'o']) is Ok,
        is_free_of(stem + seq!['.', 'o'], ".o"@, 0, stem.len() as int),
    ensures
        ({
            let path = stem + seq!['.', 'o'];
            let made = unit(infos, path)->Ok_0;
            &&& made.name == path
            &&& made.target_path == "out/split/obj/"@ + path
            &&& made.base_path == "build/CMakeFiles/odyssey.dir/"@ + (stem + ".cpp.obj"@)
        }),
{
    reveal_strlit(".o");
    let path = stem + seq!['.', 'o'];
    assert(path.skip(stem.len() as int) =~= ".o"@);
    assert(".o"@.take(2) =~= ".o"@);
    law_other_text_is_not_replaced(path, ".o"@, ".cpp.obj"@, 0, stem.len() as int);
    assert(path.subrange(0, stem.len() as int) =~= stem);
    let end = replaced(path, ".o"@, ".cpp.obj"@, stem.len() as int + 2);
    assert(stem + ".cpp.obj"@ + end =~= stem + ".cpp.obj"@);
}

/// A function whose name is a guess is mapped from the name made of its address to the first of its own
/// names. No other function is mapped.
pub proof fn law_guesses_are_mapped(
    infos: Seq<Info>,
    from: int,
    known: Seq<(Seq<char>, Seq<char>)>,
    i: int,
    k: int,
)
    requires
        0 <= from <= infos.len(),
        mappings(infos, from, known) is Ok,
    ensures
        ({
            let all = mappings(infos, from, known)->Ok_0;
            &&& all.len() == known.len() + infos.skip(from).filter(|f: Info| f.guess).len()
            &&& 0 <= k < known.len() ==> all[k] == known[k]
            &&& from <= i < infos.len() && infos[i].guess ==> infos[i].label.is_named()
                && all.contains(
                (
                    seq!['l', 'o', 'c', '_'] + fmt::hex(infos[i].offset as nat),
                    infos[i].label.first(),
                ),
            )
        }),
    decreases infos.len() - from,
{
    reveal_strlit("loc_");
    assert("loc_"@ =~= seq!['l', 'o', 'c', '_']);
    let wanted = |f: Info| f.guess;
    if from < infos.len() {
        let rest = infos.skip(from + 1);
        assert(infos.skip(from) =~= seq![infos[from]] + rest);
        rest.lemma_filter_prepend(infos[from], wanted);
        let all = mappings(infos, from, known)->Ok_0;
        if infos[from].guess {
            let entry = (
                seq!['l', 'o', 'c', '_'] + fmt::hex(infos[from].offset as nat),
                infos[from].label.first(),
            );
            let more = known.push(entry);
            law_guesses_are_mapped(infos, from + 1, more, i, k);
            law_guesses_are_mapped(infos, from + 1, more, i, known.len() as int);
            assert(all[known.len() as int] == entry);
        } else {
            law_guesses_are_mapped(infos, from + 1, known, i, k);
        }
    } else {
        reveal(Seq::filter);
        assert(infos.skip(from) =~= Seq::empty());
    }
}

} // verus!
