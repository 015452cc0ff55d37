//! The NSO file format and what is read out of it.

pub mod adrp;
pub mod blocks;
pub mod code;
pub mod data;
pub mod disasm;
pub mod eh_frame;
pub mod export;
pub mod floats;
pub mod lookup;
pub mod nso;
pub mod nso_file;
pub mod nso_header;
pub mod objects;
pub mod opcode;
pub mod references;
pub mod section_map;
pub mod sections;
pub mod string_tables;
pub mod tables;
pub mod text;
