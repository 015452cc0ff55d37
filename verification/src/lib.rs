//! Splits Nintendo Switch NSO binaries into relocatable assembly.

#![allow(non_camel_case_types)]

pub mod bytes;
pub mod error;
pub mod file_list;
pub mod fmt;
pub mod hacks;
pub mod lines;
pub mod nso;
pub mod objdiff;
pub mod ordered;
pub mod ranges;
pub mod reference_tracker;
pub mod segmented;
pub mod sets;
pub mod strings;
