//! The list of object files, and the project file that is made of it.

use swsplrs::error::Error;
use swsplrs::file_list::{
    as_hex, parse_address, parse_base_16, AddressLabel, Info, Object, Status, ADDRESS_BASE,
};
use swsplrs::hacks::Hacks;
use swsplrs::lines::escape_for_asm_string;
use swsplrs::nso::export::{make_assembly_name, make_object_name};
use swsplrs::objdiff::{make_unit, make_units, MIN_VERSION};

fn info(offset: u32, size: u32, status: Status, guess: bool) -> Info {
    Info {
        offset,
        size,
        label: AddressLabel::Multi(vec!["first".to_string(), "second".to_string()]),
        status,
        lazy: false,
        guess,
    }
}

#[test]
fn status_in_words() {
    let texts: Vec<&str> = [
        Status::Matching,
        Status::NonMatchingMinor,
        Status::NonMatchingMajor,
        Status::NotDecompiled,
        Status::Wip,
        Status::Library,
    ]
    .iter()
    .map(|s| s.description())
    .collect();
    assert_eq!(
        texts,
        vec![
            "matching",
            "non-matching (minor)",
            "non-matching (major)",
            "not decompiled",
            "WIP",
            "library function",
        ]
    );
}

#[test]
fn names_and_progress_of_functions() {
    assert_eq!(info(0, 4, Status::Wip, false).name(), "first");
    let single = AddressLabel::Single("only".to_string());
    assert!(single.has_name());
    assert!(!AddressLabel::Multi(vec![]).has_name());
    let named = Info { label: single, ..info(0, 4, Status::Wip, false) };
    assert_eq!(named.name(), "only");
    assert!(info(0, 4, Status::Matching, false).is_decompiled());
    assert!(info(0, 4, Status::Wip, false).is_decompiled());
    assert!(!info(0, 4, Status::NotDecompiled, false).is_decompiled());
    assert!(!info(0, 4, Status::Library, false).is_decompiled());
}

#[test]
fn offsets_are_written_with_six_digits() {
    assert_eq!(as_hex(0x1a2b), "0x001a2b");
    assert_eq!(as_hex(0), "0x000000");
    assert_eq!(as_hex(u32::MAX), "0xffffffff");
    for offset in [0, 0x1a2b, 0x123456, u32::MAX] {
        assert_eq!(parse_base_16(&as_hex(offset)), Ok(offset as u64));
    }
}

#[test]
fn numbers_are_read() {
    assert_eq!(parse_base_16("0x1F"), Ok(0x1F));
    assert_eq!(parse_base_16("1f"), Ok(0x1F));
    assert_eq!(parse_base_16("+7"), Ok(7));
    assert_eq!(parse_base_16("ffffffffffffffff"), Ok(u64::MAX));
    for text in ["", "0x", "g", "1 ", "-1", "0X10", "10000000000000000"] {
        assert_eq!(parse_base_16(text), Err(Error::BadNumber));
    }
}

#[test]
fn addresses_are_relative_to_where_binaries_are_loaded() {
    assert_eq!(ADDRESS_BASE, 0x7100000000);
    assert_eq!(parse_address("0x7100001234"), Ok(0x1234));
    assert_eq!(parse_address("7100000000"), Ok(0));
    assert_eq!(parse_address("none"), Err(Error::BadNumber));
}

#[test]
fn bounds_of_objects() {
    let object = |infos: Vec<Info>| Object { text_section: infos };
    let known = object(vec![
        info(0x20, 8, Status::Wip, false),
        info(0x10, 4, Status::Wip, false),
        info(0x24, 2, Status::Wip, false),
    ]);
    assert_eq!(known.get_text_bounds(), Ok((0x10, 0x28)));
    assert!(known.has_function_at(0x24));
    assert!(!known.has_function_at(0x28));
    assert_eq!(object(vec![]).get_text_bounds(), Err(Error::NoText));
    assert_eq!(
        object(vec![info(1, u32::MAX, Status::Wip, false)]).get_text_bounds(),
        Err(Error::Overflow)
    );
}

struct Below;

impl Hacks for Below {
    fn get_jump_tables(&self) -> Vec<(u64, usize)> {
        vec![]
    }

    fn get_object_path(&self, object_name: &str) -> String {
        format!("src/{}", object_name)
    }

    fn get_rodata_subsections(&self) -> Vec<(u64, u64, String)> {
        vec![]
    }
}

#[test]
fn objects_in_a_project() {
    let object = Object {
        text_section: vec![
            info(0xAB, 4, Status::Matching, true),
            info(0xCD, 4, Status::Matching, false),
        ],
    };
    let unit = make_unit(&object, "a.o/b.o".to_string()).unwrap();
    assert_eq!(unit.name, "a.o/b.o");
    assert_eq!(unit.target_path, "out/split/obj/a.o/b.o");
    assert_eq!(unit.base_path, "build/CMakeFiles/odyssey.dir/a.cpp.obj/b.cpp.obj");
    assert_eq!(unit.symbol_mappings, vec![("loc_AB".to_string(), "first".to_string())]);
    let units = make_units(&vec![("x.o".to_string(), object)], &Below).unwrap();
    assert_eq!(units.len(), 1);
    assert_eq!(units[0].name, "src/x.o");
    assert_eq!(units[0].base_path, "build/CMakeFiles/odyssey.dir/src/x.cpp.obj");
    assert_eq!(MIN_VERSION, "3.3.0");
}

#[test]
fn a_guess_needs_a_name() {
    let nameless = Info {
        label: AddressLabel::Multi(vec![]),
        ..info(0, 4, Status::Matching, true)
    };
    let object = Object { text_section: vec![nameless] };
    assert!(matches!(make_unit(&object, String::new()), Err(Error::NoLabel)));
    let list = vec![("x.o".to_string(), object)];
    assert!(matches!(make_units(&list, &Below), Err(Error::NoLabel)));
}

#[test]
fn file_names_of_objects() {
    assert_eq!(make_assembly_name("al/Library.o"), "al/Library.s");
    assert_eq!(make_assembly_name("main"), "main.s");
    assert_eq!(make_object_name("al/Library.o"), "al/Library.o");
    assert_eq!(make_object_name("main"), "main.o");
}

#[test]
fn text_for_the_assembler() {
    assert_eq!(escape_for_asm_string("a\"b\\c"), "a\\\"b\\\\c");
    assert_eq!(escape_for_asm_string("a\nb\tc"), "a\\nb\\tc");
    assert_eq!(escape_for_asm_string("plain"), "plain");
    let escaped = escape_for_asm_string("\u{1}\u{7F}\u{85}\r");
    assert!(escaped.chars().all(|c| !c.is_control()));
    assert_eq!(escaped, "\\x01\\x7f\\x85\\r");
    assert_eq!(
        escape_for_asm_string("\u{7}\u{8}\u{c}\u{b}\0\u{1b}"),
        "\\a\\b\\f\\v\\0\\x1b"
    );
    // part by part
    let (a, b) = ("say \"", "\n\\\u{1}1");
    assert_eq!(
        escape_for_asm_string(&format!("{a}{b}")),
        escape_for_asm_string(a) + &escape_for_asm_string(b)
    );
    // what looks like an escape is not taken for one
    for (a, b) in [("\n", "\\n"), ("\u{1}", "\\x01"), ("\"", "\\\""), ("\0", "\\0"), ("", "\0")] {
        assert_ne!(escape_for_asm_string(a), escape_for_asm_string(b));
    }
    // a quotation mark is only found behind an odd number of backslashes
    let quoted = escape_for_asm_string("\\\"\\\\\"");
    assert_eq!(quoted, "\\\\\\\"\\\\\\\\\\\"");
}
