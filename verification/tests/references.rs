//! Settling of references.

use swsplrs::error::Error;
use swsplrs::reference_tracker::{DataRefType, ReferenceSource, ReferenceTracker, References};

fn settle(list: &[(u64, ReferenceSource, u64, DataRefType)]) -> Result<References, Error> {
    let mut tracker = ReferenceTracker::new();
    for (target, source_type, source, target_type) in list {
        tracker.add_reference(*target, *source_type, *source, *target_type);
    }
    tracker.finalize()
}

#[test]
fn the_most_specific_type_wins() {
    let refs = settle(&[
        (0x100, ReferenceSource::ADRP, 0, DataRefType::Unknown),
        (0x100, ReferenceSource::LDR_STR(false), 4, DataRefType::Int32),
        (0x100, ReferenceSource::LDR_STR(false), 8, DataRefType::Float32),
        (0x100, ReferenceSource::LDR_STR(false), 12, DataRefType::Int64),
    ])
    .unwrap();
    assert_eq!(refs.get_type_of(0x100), Some(DataRefType::Float32));
    assert_eq!(refs.get_type_of(0x104), None);
    assert!(refs.has_references_to(0x100));
    assert!(!refs.has_references_to(0));
}

#[test]
fn of_one_kind_the_smaller_size_wins() {
    let refs = settle(&[
        (0x100, ReferenceSource::Symbol(false), 0, DataRefType::Object(8)),
        (0x100, ReferenceSource::Symbol(true), 24, DataRefType::Object(4)),
    ])
    .unwrap();
    assert_eq!(refs.get_type_of(0x100), Some(DataRefType::Object(4)));
}

#[test]
fn the_first_target_of_a_page_address_stays() {
    let refs = settle(&[
        (0x100, ReferenceSource::ADRP, 0, DataRefType::Unknown),
        (0x200, ReferenceSource::ADRP, 0, DataRefType::Unknown),
    ])
    .unwrap();
    assert_eq!(refs.get_target_address(0), Some(0x100));
    assert!(refs.has_references_to(0x200));
}

#[test]
fn what_is_known_beforehand_has_one_source() {
    let refs = settle(&[
        (0x100, ReferenceSource::Hack, 0xDEADBEEF, DataRefType::JumpTable(4)),
        (0x200, ReferenceSource::Hack, 0xDEADBEEF, DataRefType::JumpTable(9)),
    ])
    .unwrap();
    assert_eq!(refs.get_type_of(0x200), Some(DataRefType::JumpTable(9)));
    assert_eq!(refs.get_target_address(0xDEADBEEF), Some(0x100));
}

#[test]
fn one_source_has_one_target() {
    assert!(matches!(
        settle(&[
            (0x100, ReferenceSource::BL, 4, DataRefType::Code),
            (0x200, ReferenceSource::BL, 4, DataRefType::Code),
        ]),
        Err(Error::TargetConflict { source: 4 })
    ));
    // the same one twice is no conflict
    let refs = settle(&[
        (0x100, ReferenceSource::BL, 4, DataRefType::Code),
        (0x100, ReferenceSource::BL, 4, DataRefType::Code),
    ])
    .unwrap();
    assert_eq!(refs.get_target_address(4), Some(0x100));
}

#[test]
fn one_source_is_of_one_kind() {
    assert!(matches!(
        settle(&[
            (0x100, ReferenceSource::BL, 4, DataRefType::Code),
            (0x100, ReferenceSource::B_tail, 4, DataRefType::Code),
        ]),
        Err(Error::SourceTypeConflict { source: 4 })
    ));
}

#[test]
fn init_functions_may_be_relocated() {
    let refs = settle(&[
        (0x100, ReferenceSource::Relocation, 0x2000, DataRefType::Unknown),
        (0x100, ReferenceSource::InitArray, 0x2000, DataRefType::Code),
    ])
    .unwrap();
    assert_eq!(refs.get_type_of(0x100), Some(DataRefType::Code));
    assert_eq!(refs.get_target_address(0x2000), Some(0x100));
    assert!(matches!(
        settle(&[
            (0x100, ReferenceSource::InitArray, 0x2000, DataRefType::Code),
            (0x104, ReferenceSource::Relocation, 0x2000, DataRefType::Unknown),
        ]),
        Err(Error::InitArrayConflict { source: 0x2000 })
    ));
}

#[test]
fn two_uses_of_a_used_page_address_are_void() {
    let refs = settle(&[
        (0x100, ReferenceSource::LDR_STR(true), 8, DataRefType::Int32),
        (0x200, ReferenceSource::ADD(true), 8, DataRefType::Unknown),
        (0x300, ReferenceSource::ADD(true), 12, DataRefType::Unknown),
    ])
    .unwrap();
    assert_eq!(refs.get_target_address(8), None);
    assert!(!refs.has_references_to(0x100));
    assert!(!refs.has_references_to(0x200));
    assert_eq!(refs.get_target_address(12), Some(0x300));
    assert!(matches!(
        settle(&[
            (0x100, ReferenceSource::LDR_STR(true), 8, DataRefType::Int32),
            (0x200, ReferenceSource::LDR_STR(true), 8, DataRefType::Int32),
            (0x300, ReferenceSource::BL, 8, DataRefType::Code),
        ]),
        Err(Error::VoidSource { source: 8 })
    ));
}

#[test]
fn jump_tables_are_listed_in_their_order() {
    let mut tracker = ReferenceTracker::new();
    tracker.add_reference(0x300, ReferenceSource::Hack, 0, DataRefType::JumpTable(1));
    tracker.add_reference(0x100, ReferenceSource::BL, 4, DataRefType::Code);
    tracker.add_reference(0x200, ReferenceSource::Hack, 0, DataRefType::JumpTable(2));
    let tables: Vec<u64> = tracker.get_jumptable_references().iter().map(|r| r.target).collect();
    assert_eq!(tables, vec![0x300, 0x200]);
}

#[test]
fn the_order_of_references_does_not_matter() {
    let list = [
        (0x100, ReferenceSource::ADRP, 0, DataRefType::Unknown),
        (0x100, ReferenceSource::LDR_STR(false), 4, DataRefType::Int32),
        (0x100, ReferenceSource::LDR_STR(false), 8, DataRefType::Float32),
        (0x200, ReferenceSource::Relocation, 16, DataRefType::Unknown),
        (0x200, ReferenceSource::InitArray, 16, DataRefType::Function(4)),
        (0x300, ReferenceSource::ADD(true), 20, DataRefType::Unknown),
        (0x304, ReferenceSource::ADD(true), 20, DataRefType::Unknown),
    ];
    let forwards = settle(&list).unwrap();
    let mut reversed = list;
    reversed.reverse();
    let backwards = settle(&reversed).unwrap();
    for address in [0x100, 0x200, 0x300, 0x304] {
        assert_eq!(forwards.get_type_of(address), backwards.get_type_of(address));
    }
    for source in [0, 4, 8, 16, 20] {
        assert_eq!(forwards.get_target_address(source), backwards.get_target_address(source));
    }
    assert_eq!(backwards.get_type_of(0x100), Some(DataRefType::Float32));
    assert_eq!(backwards.get_type_of(0x200), Some(DataRefType::Function(4)));
    assert_eq!(backwards.get_target_address(16), Some(0x200));
    assert_eq!(backwards.get_type_of(0x300), None);
    // which of several targets of a page address counts is another matter
    let page = [
        (0x100, ReferenceSource::ADRP, 0, DataRefType::Unknown),
        (0x200, ReferenceSource::ADRP, 0, DataRefType::Unknown),
    ];
    assert_eq!(settle(&page).unwrap().get_target_address(0), Some(0x100));
    assert_eq!(settle(&[page[1], page[0]]).unwrap().get_target_address(0), Some(0x200));
    // what cannot be settled cannot be in any order
    let wrong = [
        (0x100, ReferenceSource::BL, 0, DataRefType::Code),
        (0x200, ReferenceSource::Relocation, 16, DataRefType::Unknown),
        (0x204, ReferenceSource::BL, 0, DataRefType::Code),
    ];
    assert!(settle(&wrong).is_err());
    assert!(settle(&[wrong[2], wrong[1], wrong[0]]).is_err());
    assert!(settle(&[wrong[1], wrong[0], wrong[2]]).is_err());
}
