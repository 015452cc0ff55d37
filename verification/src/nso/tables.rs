//! The tables for dynamic linking.

use std::collections::BTreeMap;
use vstd::prelude::*;
use vstd::slice::*;

use crate::bytes::{self, read_u16, read_u32, read_u64, to_i64};
use crate::error::Error;
use crate::nso::nso_header::{HeaderView, NsoHeader, NsoSegment};

verus! {

/// How a symbol is bound.
#[derive(Debug, Clone, Copy, PartialEq, Eq, Structural)]
pub enum DynamicSymbolBind {
    STB_LOCAL,
    STB_GLOBAL,
    STB_WEAK,
}

impl DynamicSymbolBind {
    /// What a number in the file stands for.
    pub open spec fn decoded(value: u8) -> Result<DynamicSymbolBind, Error> {
        if value == 0 {
            Ok(DynamicSymbolBind::STB_LOCAL)
        } else if value == 1 {
            Ok(DynamicSymbolBind::STB_GLOBAL)
        } else if value == 2 {
            Ok(DynamicSymbolBind::STB_WEAK)
        } else {
            Err(Error::BadSymbolBind)
        }
    }

    pub fn decode(value: u8) -> (r: Result<DynamicSymbolBind, Error>)
        ensures
            r == DynamicSymbolBind::decoded(value),
    {
        if value == 0 {
            Ok(DynamicSymbolBind::STB_LOCAL)
        } else if value == 1 {
            Ok(DynamicSymbolBind::STB_GLOBAL)
        } else if value == 2 {
            Ok(DynamicSymbolBind::STB_WEAK)
        } else {
            Err(Error::BadSymbolBind)
        }
    }
}

/// What a symbol stands for.
#[derive(Debug, Clone, Copy, PartialEq, Eq, Structural)]
pub enum DynamicSymbolType {
    STT_NOTYPE,
    STT_OBJECT,
    STT_FUNC,
    STT_SECTION,
    STT_FILE,
    STT_COMMON,
    STT_TLS,
}

impl DynamicSymbolType {
    /// What a number in the file stands for.
    pub open spec fn decoded(value: u8) -> Result<DynamicSymbolType, Error> {
        if value == 0 {
            Ok(DynamicSymbolType::STT_NOTYPE)
        } else if value == 1 {
            Ok(DynamicSymbolType::STT_OBJECT)
        } else if value == 2 {
            Ok(DynamicSymbolType::STT_FUNC)
        } else if value == 3 {
            Ok(DynamicSymbolType::STT_SECTION)
        } else if value == 4 {
            Ok(DynamicSymbolType::STT_FILE)
        } else if value == 5 {
            Ok(DynamicSymbolType::STT_COMMON)
        } else if value == 6 {
            Ok(DynamicSymbolType::STT_TLS)
        } else {
            Err(Error::BadSymbolType)
        }
    }

    pub fn decode(value: u8) -> (r: Result<DynamicSymbolType, Error>)
        ensures
            r == DynamicSymbolType::decoded(value),
    {
        if value == 0 {
            Ok(DynamicSymbolType::STT_NOTYPE)
        } else if value == 1 {
            Ok(DynamicSymbolType::STT_OBJECT)
        } else if value == 2 {
            Ok(DynamicSymbolType::STT_FUNC)
        } else if value == 3 {
            Ok(DynamicSymbolType::STT_SECTION)
        } else if value == 4 {
            Ok(DynamicSymbolType::STT_FILE)
        } else if value == 5 {
            Ok(DynamicSymbolType::STT_COMMON)
        } else if value == 6 {
            Ok(DynamicSymbolType::STT_TLS)
        } else {
            Err(Error::BadSymbolType)
        }
    }
}

/// Where a symbol is visible.
#[derive(Debug, Clone, Copy, PartialEq, Eq, Structural)]
pub enum DynamicSymbolVisibility {
    STV_DEFAULT,
    STV_INTERNAL,
    STV_HIDDEN,
    STV_PROTECTED,
}

impl DynamicSymbolVisibility {
    /// What a number in the file stands for.
    pub open spec fn decoded(value: u8) -> Result<DynamicSymbolVisibility, Error> {
        if value == 0 {
            Ok(DynamicSymbolVisibility::STV_DEFAULT)
        } else if value == 1 {
            Ok(DynamicSymbolVisibility::STV_INTERNAL)
        } else if value == 2 {
            Ok(DynamicSymbolVisibility::STV_HIDDEN)
        } else if value == 3 {
            Ok(DynamicSymbolVisibility::STV_PROTECTED)
        } else {
            Err(Error::BadSymbolVisibility)
        }
    }

    pub fn decode(value: u8) -> (r: Result<DynamicSymbolVisibility, Error>)
        ensures
            r == DynamicSymbolVisibility::decoded(value),
    {
        if value == 0 {
            Ok(DynamicSymbolVisibility::STV_DEFAULT)
        } else if value == 1 {
            Ok(DynamicSymbolVisibility::STV_INTERNAL)
        } else if value == 2 {
            Ok(DynamicSymbolVisibility::STV_HIDDEN)
        } else if value == 3 {
            Ok(DynamicSymbolVisibility::STV_PROTECTED)
        } else {
            Err(Error::BadSymbolVisibility)
        }
    }
}

/// The kinds of entries of the `.dynamic` section.
#[derive(Debug, Clone, Copy, PartialEq, Eq, Structural)]
pub enum DynamicTagType {
    DT_NULL,
    DT_NEEDED,
    DT_PLTRELSZ,
    DT_PLTGOT,
    DT_HASH,
    DT_STRTAB,
    DT_SYMTAB,
    DT_RELA,
    DT_RELASZ,
    DT_RELAENT,
    DT_STRSZ,
    DT_SYMENT,
    DT_INIT,
    DT_FINI,
    DT_SONAME,
    DT_RPATH,
    DT_SYMBOLIC,
    DT_REL,
    DT_RELSZ,
    DT_RELENT,
    DT_PLTREL,
    DT_DEBUG,
    DT_TEXTREL,
    DT_JMPREL,
    DT_BIND_NOW,
    DT_INIT_ARRAY,
    DT_FINI_ARRAY,
    DT_INIT_ARRAYSZ,
    DT_FINI_ARRAYSZ,
    DT_RUNPATH,
    DT_FLAGS,
    DT_PREINIT_ARRAY,
    DT_PREINIT_ARRAYSZ,
    DT_NUM,
    DT_LOOS,
    DT_HIOS,
    DT_LOPROC,
    DT_HIPROC,
    DT_ADDRRNGLO,
    DT_GNU_HASH,
    DT_TLSDESC_PLT,
    DT_TLSDESC_GOT,
    DT_GNU_CONFLICT,
    DT_GNU_LIBLIST,
    DT_CONFIG,
    DT_DEPAUDIT,
    DT_AUDIT,
    DT_PLTPAD,
    DT_MOVETAB,
    DT_SYMINFO,
    DT_RELACOUNT,
    DT_RELCOUNT,
    DT_FLAGS_1,
}

impl DynamicTagType {
    /// What a number in the file stands for.
    pub open spec fn decoded(value: u64) -> Result<DynamicTagType, Error> {
        if value == 0 {
            Ok(DynamicTagType::DT_NULL)
        } else if value == 1 {
            Ok(DynamicTagType::DT_NEEDED)
        } else if value == 2 {
            Ok(DynamicTagType::DT_PLTRELSZ)
        } else if value == 3 {
            Ok(DynamicTagType::DT_PLTGOT)
        } else if value == 4 {
            Ok(DynamicTagType::DT_HASH)
        } else if value == 5 {
            Ok(DynamicTagType::DT_STRTAB)
        } else if value == 6 {
            Ok(DynamicTagType::DT_SYMTAB)
        } else if value == 7 {
            Ok(DynamicTagType::DT_RELA)
        } else if value == 8 {
            Ok(DynamicTagType::DT_RELASZ)
        } else if value == 9 {
            Ok(DynamicTagType::DT_RELAENT)
        } else if value == 10 {
            Ok(DynamicTagType::DT_STRSZ)
        } else if value == 11 {
            Ok(DynamicTagType::DT_SYMENT)
        } else if value == 12 {
            Ok(DynamicTagType::DT_INIT)
        } else if value == 13 {
            Ok(DynamicTagType::DT_FINI)
        } else if value == 14 {
            Ok(DynamicTagType::DT_SONAME)
        } else if value == 15 {
            Ok(DynamicTagType::DT_RPATH)
        } else if value == 16 {
            Ok(DynamicTagType::DT_SYMBOLIC)
        } else if value == 17 {
            Ok(DynamicTagType::DT_REL)
        } else if value == 18 {
            Ok(DynamicTagType::DT_RELSZ)
        } else if value == 19 {
            Ok(DynamicTagType::DT_RELENT)
        } else if value == 20 {
            Ok(DynamicTagType::DT_PLTREL)
        } else if value == 21 {
            Ok(DynamicTagType::DT_DEBUG)
        } else if value == 22 {
            Ok(DynamicTagType::DT_TEXTREL)
        } else if value == 23 {
            Ok(DynamicTagType::DT_JMPREL)
        } else if value == 24 {
            Ok(DynamicTagType::DT_BIND_NOW)
        } else if value == 25 {
            Ok(DynamicTagType::DT_INIT_ARRAY)
        } else if value == 26 {
            Ok(DynamicTagType::DT_FINI_ARRAY)
        } else if value == 27 {
            Ok(DynamicTagType::DT_INIT_ARRAYSZ)
        } else if value == 28 {
            Ok(DynamicTagType::DT_FINI_ARRAYSZ)
        } else if value == 29 {
            Ok(DynamicTagType::DT_RUNPATH)
        } else if value == 30 {
            Ok(DynamicTagType::DT_FLAGS)
        } else if value == 32 {
            Ok(DynamicTagType::DT_PREINIT_ARRAY)
        } else if value == 33 {
            Ok(DynamicTagType::DT_PREINIT_ARRAYSZ)
        } else if value == 34 {
            Ok(DynamicTagType::DT_NUM)
        } else if value == 0x6000000d {
            Ok(DynamicTagType::DT_LOOS)
        } else if value == 0x6ffff000 {
            Ok(DynamicTagType::DT_HIOS)
        } else if value == 0x70000000 {
            Ok(DynamicTagType::DT_LOPROC)
        } else if value == 0x7fffffff {
            Ok(DynamicTagType::DT_HIPROC)
        } else if value == 0x6ffffe00 {
            Ok(DynamicTagType::DT_ADDRRNGLO)
        } else if value == 0x6ffffef5 {
            Ok(DynamicTagType::DT_GNU_HASH)
        } else if value == 0x6ffffef6 {
            Ok(DynamicTagType::DT_TLSDESC_PLT)
        } else if value == 0x6ffffef7 {
            Ok(DynamicTagType::DT_TLSDESC_GOT)
        } else if value == 0x6ffffef8 {
            Ok(DynamicTagType::DT_GNU_CONFLICT)
        } else if value == 0x6ffffef9 {
            Ok(DynamicTagType::DT_GNU_LIBLIST)
        } else if value == 0x6ffffefa {
            Ok(DynamicTagType::DT_CONFIG)
        } else if value == 0x6ffffefb {
            Ok(DynamicTagType::DT_DEPAUDIT)
        } else if value == 0x6ffffefc {
            Ok(DynamicTagType::DT_AUDIT)
        } else if value == 0x6ffffefd {
            Ok(DynamicTagType::DT_PLTPAD)
        } else if value == 0x6ffffefe {
            Ok(DynamicTagType::DT_MOVETAB)
        } else if value == 0x6ffffeff {
            Ok(DynamicTagType::DT_SYMINFO)
        } else if value == 0x6ffffff9 {
            Ok(DynamicTagType::DT_RELACOUNT)
        } else if value == 0x6ffffffa {
            Ok(DynamicTagType::DT_RELCOUNT)
        } else if value == 0x6ffffffb {
            Ok(DynamicTagType::DT_FLAGS_1)
        } else {
            Err(Error::BadDynamicTag)
        }
    }

    pub fn decode(value: u64) -> (r: Result<DynamicTagType, Error>)
        ensures
            r == DynamicTagType::decoded(value),
    {
        if value == 0 {
            Ok(DynamicTagType::DT_NULL)
        } else if value == 1 {
            Ok(DynamicTagType::DT_NEEDED)
        } else if value == 2 {
            Ok(DynamicTagType::DT_PLTRELSZ)
        } else if value == 3 {
            Ok(DynamicTagType::DT_PLTGOT)
        } else if value == 4 {
            Ok(DynamicTagType::DT_HASH)
        } else if value == 5 {
            Ok(DynamicTagType::DT_STRTAB)
        } else if value == 6 {
            Ok(DynamicTagType::DT_SYMTAB)
        } else if value == 7 {
            Ok(DynamicTagType::DT_RELA)
        } else if value == 8 {
            Ok(DynamicTagType::DT_RELASZ)
        } else if value == 9 {
            Ok(DynamicTagType::DT_RELAENT)
        } else if value == 10 {
            Ok(DynamicTagType::DT_STRSZ)
        } else if value == 11 {
            Ok(DynamicTagType::DT_SYMENT)
        } else if value == 12 {
            Ok(DynamicTagType::DT_INIT)
        } else if value == 13 {
            Ok(DynamicTagType::DT_FINI)
        } else if value == 14 {
            Ok(DynamicTagType::DT_SONAME)
        } else if value == 15 {
            Ok(DynamicTagType::DT_RPATH)
        } else if value == 16 {
            Ok(DynamicTagType::DT_SYMBOLIC)
        } else if value == 17 {
            Ok(DynamicTagType::DT_REL)
        } else if value == 18 {
            Ok(DynamicTagType::DT_RELSZ)
        } else if value == 19 {
            Ok(DynamicTagType::DT_RELENT)
        } else if value == 20 {
            Ok(DynamicTagType::DT_PLTREL)
        } else if value == 21 {
            Ok(DynamicTagType::DT_DEBUG)
        } else if value == 22 {
            Ok(DynamicTagType::DT_TEXTREL)
        } else if value == 23 {
            Ok(DynamicTagType::DT_JMPREL)
        } else if value == 24 {
            Ok(DynamicTagType::DT_BIND_NOW)
        } else if value == 25 {
            Ok(DynamicTagType::DT_INIT_ARRAY)
        } else if value == 26 {
            Ok(DynamicTagType::DT_FINI_ARRAY)
        } else if value == 27 {
            Ok(DynamicTagType::DT_INIT_ARRAYSZ)
        } else if value == 28 {
            Ok(DynamicTagType::DT_FINI_ARRAYSZ)
        } else if value == 29 {
            Ok(DynamicTagType::DT_RUNPATH)
        } else if value == 30 {
            Ok(DynamicTagType::DT_FLAGS)
        } else if value == 32 {
            Ok(DynamicTagType::DT_PREINIT_ARRAY)
        } else if value == 33 {
            Ok(DynamicTagType::DT_PREINIT_ARRAYSZ)
        } else if value == 34 {
            Ok(DynamicTagType::DT_NUM)
        } else if value == 0x6000000d {
            Ok(DynamicTagType::DT_LOOS)
        } else if value == 0x6ffff000 {
            Ok(DynamicTagType::DT_HIOS)
        } else if value == 0x70000000 {
            Ok(DynamicTagType::DT_LOPROC)
        } else if value == 0x7fffffff {
            Ok(DynamicTagType::DT_HIPROC)
        } else if value == 0x6ffffe00 {
            Ok(DynamicTagType::DT_ADDRRNGLO)
        } else if value == 0x6ffffef5 {
            Ok(DynamicTagType::DT_GNU_HASH)
        } else if value == 0x6ffffef6 {
            Ok(DynamicTagType::DT_TLSDESC_PLT)
        } else if value == 0x6ffffef7 {
            Ok(DynamicTagType::DT_TLSDESC_GOT)
        } else if value == 0x6ffffef8 {
            Ok(DynamicTagType::DT_GNU_CONFLICT)
        } else if value == 0x6ffffef9 {
            Ok(DynamicTagType::DT_GNU_LIBLIST)
        } else if value == 0x6ffffefa {
            Ok(DynamicTagType::DT_CONFIG)
        } else if value == 0x6ffffefb {
            Ok(DynamicTagType::DT_DEPAUDIT)
        } else if value == 0x6ffffefc {
            Ok(DynamicTagType::DT_AUDIT)
        } else if value == 0x6ffffefd {
            Ok(DynamicTagType::DT_PLTPAD)
        } else if value == 0x6ffffefe {
            Ok(DynamicTagType::DT_MOVETAB)
        } else if value == 0x6ffffeff {
            Ok(DynamicTagType::DT_SYMINFO)
        } else if value == 0x6ffffff9 {
            Ok(DynamicTagType::DT_RELACOUNT)
        } else if value == 0x6ffffffa {
            Ok(DynamicTagType::DT_RELCOUNT)
        } else if value == 0x6ffffffb {
            Ok(DynamicTagType::DT_FLAGS_1)
        } else {
            Err(Error::BadDynamicTag)
        }
    }

    /// The number that stands for it in the file.
    pub open spec fn value(self) -> u64 {
        match self {
            DynamicTagType::DT_NULL => 0,
            DynamicTagType::DT_NEEDED => 1,
            DynamicTagType::DT_PLTRELSZ => 2,
            DynamicTagType::DT_PLTGOT => 3,
            DynamicTagType::DT_HASH => 4,
            DynamicTagType::DT_STRTAB => 5,
            DynamicTagType::DT_SYMTAB => 6,
            DynamicTagType::DT_RELA => 7,
            DynamicTagType::DT_RELASZ => 8,
            DynamicTagType::DT_RELAENT => 9,
            DynamicTagType::DT_STRSZ => 10,
            DynamicTagType::DT_SYMENT => 11,
            DynamicTagType::DT_INIT => 12,
            DynamicTagType::DT_FINI => 13,
            DynamicTagType::DT_SONAME => 14,
            DynamicTagType::DT_RPATH => 15,
            DynamicTagType::DT_SYMBOLIC => 16,
            DynamicTagType::DT_REL => 17,
            DynamicTagType::DT_RELSZ => 18,
            DynamicTagType::DT_RELENT => 19,
            DynamicTagType::DT_PLTREL => 20,
            DynamicTagType::DT_DEBUG => 21,
            DynamicTagType::DT_TEXTREL => 22,
            DynamicTagType::DT_JMPREL => 23,
            DynamicTagType::DT_BIND_NOW => 24,
            DynamicTagType::DT_INIT_ARRAY => 25,
            DynamicTagType::DT_FINI_ARRAY => 26,
            DynamicTagType::DT_INIT_ARRAYSZ => 27,
            DynamicTagType::DT_FINI_ARRAYSZ => 28,
            DynamicTagType::DT_RUNPATH => 29,
            DynamicTagType::DT_FLAGS => 30,
            DynamicTagType::DT_PREINIT_ARRAY => 32,
            DynamicTagType::DT_PREINIT_ARRAYSZ => 33,
            DynamicTagType::DT_NUM => 34,
            DynamicTagType::DT_LOOS => 0x6000000d,
            DynamicTagType::DT_HIOS => 0x6ffff000,
            DynamicTagType::DT_LOPROC => 0x70000000,
            DynamicTagType::DT_HIPROC => 0x7fffffff,
            DynamicTagType::DT_ADDRRNGLO => 0x6ffffe00,
            DynamicTagType::DT_GNU_HASH => 0x6ffffef5,
            DynamicTagType::DT_TLSDESC_PLT => 0x6ffffef6,
            DynamicTagType::DT_TLSDESC_GOT => 0x6ffffef7,
            DynamicTagType::DT_GNU_CONFLICT => 0x6ffffef8,
            DynamicTagType::DT_GNU_LIBLIST => 0x6ffffef9,
            DynamicTagType::DT_CONFIG => 0x6ffffefa,
            DynamicTagType::DT_DEPAUDIT => 0x6ffffefb,
            DynamicTagType::DT_AUDIT => 0x6ffffefc,
            DynamicTagType::DT_PLTPAD => 0x6ffffefd,
            DynamicTagType::DT_MOVETAB => 0x6ffffefe,
            DynamicTagType::DT_SYMINFO => 0x6ffffeff,
            DynamicTagType::DT_RELACOUNT => 0x6ffffff9,
            DynamicTagType::DT_RELCOUNT => 0x6ffffffa,
            DynamicTagType::DT_FLAGS_1 => 0x6ffffffb,
        }
    }

    pub fn to_value(self) -> (r: u64)
        ensures
            r == self.value(),
    {
        match self {
            DynamicTagType::DT_NULL => 0,
            DynamicTagType::DT_NEEDED => 1,
            DynamicTagType::DT_PLTRELSZ => 2,
            DynamicTagType::DT_PLTGOT => 3,
            DynamicTagType::DT_HASH => 4,
            DynamicTagType::DT_STRTAB => 5,
            DynamicTagType::DT_SYMTAB => 6,
            DynamicTagType::DT_RELA => 7,
            DynamicTagType::DT_RELASZ => 8,
            DynamicTagType::DT_RELAENT => 9,
            DynamicTagType::DT_STRSZ => 10,
            DynamicTagType::DT_SYMENT => 11,
            DynamicTagType::DT_INIT => 12,
            DynamicTagType::DT_FINI => 13,
            DynamicTagType::DT_SONAME => 14,
            DynamicTagType::DT_RPATH => 15,
            DynamicTagType::DT_SYMBOLIC => 16,
            DynamicTagType::DT_REL => 17,
            DynamicTagType::DT_RELSZ => 18,
            DynamicTagType::DT_RELENT => 19,
            DynamicTagType::DT_PLTREL => 20,
            DynamicTagType::DT_DEBUG => 21,
            DynamicTagType::DT_TEXTREL => 22,
            DynamicTagType::DT_JMPREL => 23,
            DynamicTagType::DT_BIND_NOW => 24,
            DynamicTagType::DT_INIT_ARRAY => 25,
            DynamicTagType::DT_FINI_ARRAY => 26,
            DynamicTagType::DT_INIT_ARRAYSZ => 27,
            DynamicTagType::DT_FINI_ARRAYSZ => 28,
            DynamicTagType::DT_RUNPATH => 29,
            DynamicTagType::DT_FLAGS => 30,
            DynamicTagType::DT_PREINIT_ARRAY => 32,
            DynamicTagType::DT_PREINIT_ARRAYSZ => 33,
            DynamicTagType::DT_NUM => 34,
            DynamicTagType::DT_LOOS => 0x6000000d,
            DynamicTagType::DT_HIOS => 0x6ffff000,
            DynamicTagType::DT_LOPROC => 0x70000000,
            DynamicTagType::DT_HIPROC => 0x7fffffff,
            DynamicTagType::DT_ADDRRNGLO => 0x6ffffe00,
            DynamicTagType::DT_GNU_HASH => 0x6ffffef5,
            DynamicTagType::DT_TLSDESC_PLT => 0x6ffffef6,
            DynamicTagType::DT_TLSDESC_GOT => 0x6ffffef7,
            DynamicTagType::DT_GNU_CONFLICT => 0x6ffffef8,
            DynamicTagType::DT_GNU_LIBLIST => 0x6ffffef9,
            DynamicTagType::DT_CONFIG => 0x6ffffefa,
            DynamicTagType::DT_DEPAUDIT => 0x6ffffefb,
            DynamicTagType::DT_AUDIT => 0x6ffffefc,
            DynamicTagType::DT_PLTPAD => 0x6ffffefd,
            DynamicTagType::DT_MOVETAB => 0x6ffffefe,
            DynamicTagType::DT_SYMINFO => 0x6ffffeff,
            DynamicTagType::DT_RELACOUNT => 0x6ffffff9,
            DynamicTagType::DT_RELCOUNT => 0x6ffffffa,
            DynamicTagType::DT_FLAGS_1 => 0x6ffffffb,
        }
    }
}

/// The kinds of relocations.
#[derive(Debug, Clone, Copy, PartialEq, Eq, Structural)]
pub enum RelocationType {
    R_TYPE_UNKNOWN,
    R_AARCH64_COPY,
    R_AARCH64_GLOB_DAT,
    R_AARCH64_JUMP_SLOT,
    R_AARCH64_RELATIVE,
    R_AARCH64_TLS_TPREL64,
    R_AARCH64_TLS_DTPREL32,
    R_AARCH64_IRELATIVE,
    R_AARCH64_ABS64,
}

impl RelocationType {
    /// What a number in the file stands for.
    pub open spec fn decoded(value: u32) -> Result<RelocationType, Error> {
        if value == 0 {
            Ok(RelocationType::R_TYPE_UNKNOWN)
        } else if value == 1024 {
            Ok(RelocationType::R_AARCH64_COPY)
        } else if value == 1025 {
            Ok(RelocationType::R_AARCH64_GLOB_DAT)
        } else if value == 1026 {
            Ok(RelocationType::R_AARCH64_JUMP_SLOT)
        } else if value == 1027 {
            Ok(RelocationType::R_AARCH64_RELATIVE)
        } else if value == 1030 {
            Ok(RelocationType::R_AARCH64_TLS_TPREL64)
        } else if value == 1031 {
            Ok(RelocationType::R_AARCH64_TLS_DTPREL32)
        } else if value == 1032 {
            Ok(RelocationType::R_AARCH64_IRELATIVE)
        } else if value == 257 {
            Ok(RelocationType::R_AARCH64_ABS64)
        } else {
            Err(Error::BadRelocationType)
        }
    }

    pub fn decode(value: u32) -> (r: Result<RelocationType, Error>)
        ensures
            r == RelocationType::decoded(value),
    {
        if value == 0 {
            Ok(RelocationType::R_TYPE_UNKNOWN)
        } else if value == 1024 {
            Ok(RelocationType::R_AARCH64_COPY)
        } else if value == 1025 {
            Ok(RelocationType::R_AARCH64_GLOB_DAT)
        } else if value == 1026 {
            Ok(RelocationType::R_AARCH64_JUMP_SLOT)
        } else if value == 1027 {
            Ok(RelocationType::R_AARCH64_RELATIVE)
        } else if value == 1030 {
            Ok(RelocationType::R_AARCH64_TLS_TPREL64)
        } else if value == 1031 {
            Ok(RelocationType::R_AARCH64_TLS_DTPREL32)
        } else if value == 1032 {
            Ok(RelocationType::R_AARCH64_IRELATIVE)
        } else if value == 257 {
            Ok(RelocationType::R_AARCH64_ABS64)
        } else {
            Err(Error::BadRelocationType)
        }
    }

    /// The number that stands for it in the file.
    pub open spec fn value(self) -> u32 {
        match self {
            RelocationType::R_TYPE_UNKNOWN => 0,
            RelocationType::R_AARCH64_COPY => 1024,
            RelocationType::R_AARCH64_GLOB_DAT => 1025,
            RelocationType::R_AARCH64_JUMP_SLOT => 1026,
            RelocationType::R_AARCH64_RELATIVE => 1027,
            RelocationType::R_AARCH64_TLS_TPREL64 => 1030,
            RelocationType::R_AARCH64_TLS_DTPREL32 => 1031,
            RelocationType::R_AARCH64_IRELATIVE => 1032,
            RelocationType::R_AARCH64_ABS64 => 257,
        }
    }

    pub fn to_value(self) -> (r: u32)
        ensures
            r == self.value(),
    {
        match self {
            RelocationType::R_TYPE_UNKNOWN => 0,
            RelocationType::R_AARCH64_COPY => 1024,
            RelocationType::R_AARCH64_GLOB_DAT => 1025,
            RelocationType::R_AARCH64_JUMP_SLOT => 1026,
            RelocationType::R_AARCH64_RELATIVE => 1027,
            RelocationType::R_AARCH64_TLS_TPREL64 => 1030,
            RelocationType::R_AARCH64_TLS_DTPREL32 => 1031,
            RelocationType::R_AARCH64_IRELATIVE => 1032,
            RelocationType::R_AARCH64_ABS64 => 257,
        }
    }
}

/// An entry of the symbol table.
#[derive(Debug, Clone, Copy, PartialEq, Eq, Structural)]
pub struct DynamicSymbol {
    pub str_table_offset: u32,
    pub info: u8,
    pub other: u8,
    pub section_idx: u16,
    pub value: u64,
    pub size: u64,
}

/// Size of a symbol table entry in the file.
pub const SYMBOL_SIZE: u64 = 24;

/// Size of a relocation in the file.
pub const RELOCATION_SIZE: u64 = 24;

impl DynamicSymbol {
    pub open spec fn bind(self) -> Result<DynamicSymbolBind, Error> {
        DynamicSymbolBind::decoded(self.info >> 4)
    }

    pub open spec fn kind(self) -> Result<DynamicSymbolType, Error> {
        DynamicSymbolType::decoded(self.info & 0x0F)
    }

    pub open spec fn visibility(self) -> Result<DynamicSymbolVisibility, Error> {
        DynamicSymbolVisibility::decoded(self.other & 0x03)
    }

    /// The name of the symbol in a string table.
    pub open spec fn name(self, strings: Map<u64, Seq<char>>) -> Result<Seq<char>, Error> {
        if strings.contains_key(self.str_table_offset as u64) {
            Ok(strings[self.str_table_offset as u64])
        } else {
            Err(Error::SymbolWithoutName)
        }
    }

    pub fn get_bind(&self) -> (r: Result<DynamicSymbolBind, Error>)
        ensures
            r == self.bind(),
    {
        DynamicSymbolBind::decode(self.info >> 4)
    }

    pub fn get_type(&self) -> (r: Result<DynamicSymbolType, Error>)
        ensures
            r == self.kind(),
    {
        DynamicSymbolType::decode(self.info & 0x0F)
    }

    pub fn get_visibility(&self) -> (r: Result<DynamicSymbolVisibility, Error>)
        ensures
            r == self.visibility(),
    {
        DynamicSymbolVisibility::decode(self.other & 0x03)
    }

    pub fn get_name<'a>(&self, dynstr_table: &'a BTreeMap<u64, String>) -> (r: Result<
        &'a String,
        Error,
    >)
        ensures
            match r {
                Ok(name) => self.name(string_views(dynstr_table@)) == Ok::<Seq<char>, Error>(
                    name@,
                ),
                Err(e) => self.name(string_views(dynstr_table@)) == Err::<Seq<char>, Error>(e),
            },
    {
        match dynstr_table.get(&(self.str_table_offset as u64)) {
            Some(name) => Ok(name),
            None => Err(Error::SymbolWithoutName),
        }
    }
}

/// The strings of a table by their text.
pub open spec fn string_views(strings: Map<u64, String>) -> Map<u64, Seq<char>> {
    strings.map_values(|s: String| s@)
}

/// The lower four bits of a symbol's information say what it is, and the upper four how it is
/// bound.
pub proof fn law_symbol_info_has_two_parts(symbol: DynamicSymbol)
    ensures
        symbol.bind() == DynamicSymbolBind::decoded((symbol.info / 16) as u8),
        symbol.kind() == DynamicSymbolType::decoded((symbol.info % 16) as u8),
{
    let info = symbol.info;
    assert(info >> 4 == info / 16) by (bit_vector);
    assert(info & 0x0F == info % 16) by (bit_vector);
}

/// A number stands for a kind of entry of the `.dynamic` section exactly if it is the number of that
/// kind.
pub proof fn law_dynamic_tags_have_one_number(tag: DynamicTagType, value: u64)
    ensures
        DynamicTagType::decoded(value) == Ok::<DynamicTagType, Error>(tag) <==> value
            == tag.value(),
{
}

/// A number stands for a kind of relocation exactly if it is the number of that kind.
pub proof fn law_relocation_types_have_one_number(kind: RelocationType, value: u32)
    ensures
        RelocationType::decoded(value) == Ok::<RelocationType, Error>(kind) <==> value
            == kind.value(),
{
}

/// A relocation entry.
#[derive(Debug, Clone, Copy, PartialEq, Eq, Structural)]
pub struct Relocation {
    pub offset: u64,
    pub reloc_type: RelocationType,
    pub sym_idx: u32,
    pub addend: i64,
}

/// The hash table for symbol lookup.
#[derive(Debug)]
pub struct HashTable {
    pub nbucket: u32,
    pub nchain: u32,
    pub buckets: Vec<u32>,
    pub chains: Vec<u32>,
}

/// What a [`HashTable`] says.
#[verifier::ext_equal]
pub struct HashTableView {
    pub nbucket: u32,
    pub nchain: u32,
    pub buckets: Seq<u32>,
    pub chains: Seq<u32>,
}

impl View for HashTable {
    type V = HashTableView;

    open spec fn view(&self) -> HashTableView {
        HashTableView {
            nbucket: self.nbucket,
            nchain: self.nchain,
            buckets: self.buckets@,
            chains: self.chains@,
        }
    }
}

/// The GNU hash table for symbol lookup.
#[derive(Debug)]
pub struct GnuHashTable {
    pub nbuckets: u32,
    pub sym_idx: u32,
    pub mask: u32,
    pub shift: u32,
    pub bloom_filter: Vec<u64>,
    pub buckets: Vec<u32>,
    pub chains: Vec<u32>,
}

/// What a [`GnuHashTable`] says.
#[verifier::ext_equal]
pub struct GnuHashTableView {
    pub nbuckets: u32,
    pub sym_idx: u32,
    pub mask: u32,
    pub shift: u32,
    pub bloom_filter: Seq<u64>,
    pub buckets: Seq<u32>,
    pub chains: Seq<u32>,
}

impl View for GnuHashTable {
    type V = GnuHashTableView;

    open spec fn view(&self) -> GnuHashTableView {
        GnuHashTableView {
            nbuckets: self.nbuckets,
            sym_idx: self.sym_idx,
            mask: self.mask,
            shift: self.shift,
            bloom_filter: self.bloom_filter@,
            buckets: self.buckets@,
            chains: self.chains@,
        }
    }
}

/// Where the parts of a module are. All offsets but the first are relative to it.
#[derive(Debug, Clone, Copy, PartialEq, Eq, Structural)]
pub struct Module {
    pub header_offset: u32,
    pub dyn_offset: u32,
    pub bss_start: u32,
    pub bss_end: u32,
    pub ex_info_start_offset: u32,
    pub ex_info_end_offset: u32,
}

/// Size of the module description in the file.
pub const MODULE_SIZE: usize = 36;

/// The 32-bit number at `pos`.
pub open spec fn u32_at(data: Seq<u8>, pos: int) -> u32 {
    bytes::le_value(data, pos, 4) as u32
}

/// The 64-bit number at `pos`.
pub open spec fn u64_at(data: Seq<u8>, pos: int) -> u64 {
    bytes::le_value(data, pos, 8) as u64
}

/// The module description that `data` begins with.
pub open spec fn module_of(data: Seq<u8>) -> Result<Module, Error> {
    if data.len() < 12 {
        Err(Error::UnexpectedEnd)
    } else if data.subrange(8, 12) != seq![0x4Du8, 0x4F, 0x44, 0x30] {
        Err(Error::BadMagic)
    } else if data.len() < MODULE_SIZE {
        Err(Error::UnexpectedEnd)
    } else if u32_at(data, 32) != u32_at(data, 16) {
        Err(Error::BadModule)
    } else {
        Ok(
            Module {
                header_offset: u32_at(data, 4),
                dyn_offset: u32_at(data, 12),
                bss_start: u32_at(data, 16),
                bss_end: u32_at(data, 20),
                ex_info_start_offset: u32_at(data, 24),
                ex_info_end_offset: u32_at(data, 28),
            },
        )
    }
}

impl Module {
    /// Reads the module description that `data` begins with.
    pub fn read(data: &[u8]) -> (r: Result<Module, Error>)
        ensures
            r == module_of(data@),
    {
        if data.len() < 12 {
            return Err(Error::UnexpectedEnd);
        }
        let is_magic: bool = data[8] == 0x4D && data[9] == 0x4F && data[10] == 0x44 && data[11]
            == 0x30;
        assert(is_magic == (data@.subrange(8, 12) == seq![0x4Du8, 0x4F, 0x44, 0x30])) by {
            let magic = seq![0x4Du8, 0x4F, 0x44, 0x30];
            let found = data@.subrange(8, 12);
            if is_magic {
                assert(found =~= magic);
            } else {
                assert(found[0] == data@[8] && found[1] == data@[9] && found[2] == data@[10]
                    && found[3] == data@[11]);
            }
        }
        if !is_magic {
            return Err(Error::BadMagic);
        }
        if data.len() < MODULE_SIZE {
            return Err(Error::UnexpectedEnd);
        }
        let bss_start: u32 = read_u32(data, 16)?;
        if read_u32(data, 32)? != bss_start {
            return Err(Error::BadModule);
        }
        Ok(
            Module {
                header_offset: read_u32(data, 4)?,
                dyn_offset: read_u32(data, 12)?,
                bss_start,
                bss_end: read_u32(data, 20)?,
                ex_info_start_offset: read_u32(data, 24)?,
                ex_info_end_offset: read_u32(data, 28)?,
            },
        )
    }
}

/// The symbol table entry at `pos`.
pub open spec fn symbol_at(data: Seq<u8>, pos: int) -> DynamicSymbol {
    DynamicSymbol {
        str_table_offset: u32_at(data, pos),
        info: data[pos + 4],
        other: data[pos + 5],
        section_idx: bytes::le_value(data, pos + 6, 2) as u16,
        value: u64_at(data, pos + 8),
        size: u64_at(data, pos + 16),
    }
}

/// The symbol table of `size` bytes at `offset`.
pub open spec fn symbols_at(memory: Seq<u8>, offset: u64, size: u64) -> Result<
    Seq<DynamicSymbol>,
    Error,
> {
    let count = size / SYMBOL_SIZE;
    if count > 0 && offset + count * SYMBOL_SIZE > memory.len() {
        Err(Error::OutOfBounds)
    } else {
        Ok(Seq::new(count as nat, |i: int| symbol_at(memory, offset + i * SYMBOL_SIZE)))
    }
}

fn read_symbol(data: &[u8], pos: usize) -> (r: DynamicSymbol)
    requires
        pos + SYMBOL_SIZE <= data@.len() <= usize::MAX,
    ensures
        r == symbol_at(data@, pos as int),
{
    reveal_with_fuel(bytes::le_value, 2);
    DynamicSymbol {
        str_table_offset: match read_u32(data, pos) {
            Ok(value) => value,
            Err(_) => 0,
        },
        info: data[pos + 4],
        other: data[pos + 5],
        section_idx: match read_u16(data, pos + 6) {
            Ok(value) => value,
            Err(_) => 0,
        },
        value: match read_u64(data, pos + 8) {
            Ok(value) => value,
            Err(_) => 0,
        },
        size: match read_u64(data, pos + 16) {
            Ok(value) => value,
            Err(_) => 0,
        },
    }
}

/// Reads the symbol table of `size` bytes at `offset`.
pub fn parse_dynamic_symbols(memory: &[u8], dynsym_offset: u64, dynsym_size: u64) -> (r: Result<
    (u64, Vec<DynamicSymbol>),
    Error,
>)
    ensures
        match r {
            Ok((offset, symbols)) => offset == dynsym_offset && symbols_at(
                memory@,
                dynsym_offset,
                dynsym_size,
            ) == Ok::<Seq<DynamicSymbol>, Error>(symbols@),
            Err(e) => symbols_at(memory@, dynsym_offset, dynsym_size) == Err::<
                Seq<DynamicSymbol>,
                Error,
            >(e),
        },
{
    let count: u64 = dynsym_size / SYMBOL_SIZE;
    let length: u64 = memory.len() as u64;
    if count > 0 && (dynsym_offset > length || count * SYMBOL_SIZE > length - dynsym_offset) {
        return Err(Error::OutOfBounds);
    }
    let mut symbols: Vec<DynamicSymbol> = Vec::new();
    let mut i: u64 = 0;
    while i < count
        invariant
            i <= count,
            count * SYMBOL_SIZE + dynsym_offset <= length || count == 0,
            length == memory@.len() <= usize::MAX,
            symbols@.len() == i,
            forall|k: int|
                0 <= k < i ==> #[trigger] symbols@[k] == symbol_at(
                    memory@,
                    dynsym_offset + k * SYMBOL_SIZE,
                ),
        decreases count - i,
    {
        symbols.push(read_symbol(memory, (dynsym_offset + i * SYMBOL_SIZE) as usize));
        i = i + 1;
    }
    assert(symbols@ =~= Seq::new(
        count as nat,
        |i: int| symbol_at(memory@, dynsym_offset + i * SYMBOL_SIZE),
    ));
    Ok((dynsym_offset, symbols))
}

/// `entries` with the entries of the `.dynamic` section that follow at `pos`, up to the one that
/// ends it.
pub open spec fn dynamic_entries(
    data: Seq<u8>,
    pos: int,
    entries: Seq<(DynamicTagType, u64)>,
) -> Result<Seq<(DynamicTagType, u64)>, Error>
    decreases data.len() - pos,
{
    if pos + 16 > data.len() {
        Err(Error::UnexpectedEnd)
    } else if u64_at(data, pos) == 0 {
        Ok(entries)
    } else {
        match DynamicTagType::decoded(u64_at(data, pos)) {
            Err(e) => Err(e),
            Ok(tag) => dynamic_entries(
                data,
                pos + 16,
                entries.push((tag, u64_at(data, pos + 8))),
            ),
        }
    }
}

/// Reads the `.dynamic` section that `data` begins with.
pub fn parse_dynamic_section(data: &[u8]) -> (r: Result<Vec<(DynamicTagType, u64)>, Error>)
    ensures
        match r {
            Ok(tags) => dynamic_entries(data@, 0, Seq::empty()) == Ok::<
                Seq<(DynamicTagType, u64)>,
                Error,
            >(tags@),
            Err(e) => dynamic_entries(data@, 0, Seq::empty()) == Err::<
                Seq<(DynamicTagType, u64)>,
                Error,
            >(e),
        },
{
    let length: usize = data.len();
    let mut tags: Vec<(DynamicTagType, u64)> = Vec::new();
    let mut pos: usize = 0;
    assert(tags@ =~= Seq::empty());
    loop
        invariant
            length == data@.len(),
            pos <= length,
            dynamic_entries(data@, 0, Seq::empty()) == dynamic_entries(data@, pos as int, tags@),
        decreases length - pos,
    {
        if length - pos < 16 {
            return Err(Error::UnexpectedEnd);
        }
        let tag: u64 = read_u64(data, pos)?;
        let value: u64 = read_u64(data, pos + 8)?;
        if tag == 0 {
            return Ok(tags);
        }
        tags.push((DynamicTagType::decode(tag)?, value));
        pos = pos + 16;
    }
}

/// Tells entries of this kind from others.
pub open spec fn is_tag(tag: DynamicTagType) -> spec_fn((DynamicTagType, u64)) -> bool {
    |entry: (DynamicTagType, u64)| entry.0 == tag
}

/// The values of all entries of this kind.
pub open spec fn tag_values(entries: Seq<(DynamicTagType, u64)>, tag: DynamicTagType) -> Seq<
    (DynamicTagType, u64),
> {
    entries.filter(is_tag(tag))
}

/// The value of the only entry of this kind.
pub open spec fn tag_value(entries: Seq<(DynamicTagType, u64)>, tag: DynamicTagType) -> Result<
    u64,
    Error,
> {
    let found = tag_values(entries, tag);
    if found.len() == 0 {
        Err(Error::DynamicTagMissing)
    } else if found.len() > 1 {
        Err(Error::DynamicTagRepeated)
    } else {
        Ok(found[0].1)
    }
}

/// The value of the only entry of this kind.
pub fn get_dynamic_tag_value(
    dynamic_segment: &Vec<(DynamicTagType, u64)>,
    tag_type: DynamicTagType,
) -> (r: Result<u64, Error>)
    ensures
        r == tag_value(dynamic_segment@, tag_type),
{
    let ghost wanted = is_tag(tag_type);
    let mut count: usize = 0;
    let mut first: u64 = 0;
    let mut i: usize = 0;
    while i < dynamic_segment.len()
        invariant
            i <= dynamic_segment@.len(),
            wanted == is_tag(tag_type),
            count <= i,
            count == dynamic_segment@.take(i as int).filter(wanted).len(),
            count > 0 ==> first == dynamic_segment@.take(i as int).filter(wanted)[0].1,
        decreases dynamic_segment@.len() - i,
    {
        reveal(Seq::filter);
        assert(dynamic_segment@.take(i + 1).drop_last() == dynamic_segment@.take(i as int));
        if dynamic_segment[i].0 == tag_type {
            if count == 0 {
                first = dynamic_segment[i].1;
            }
            count = count + 1;
        }
        i = i + 1;
    }
    assert(dynamic_segment@.take(i as int) == dynamic_segment@);
    if count == 0 {
        Err(Error::DynamicTagMissing)
    } else if count > 1 {
        Err(Error::DynamicTagRepeated)
    } else {
        Ok(first)
    }
}

/// The relocation at `pos`.
pub open spec fn relocation_at(data: Seq<u8>, pos: int) -> Result<Relocation, Error> {
    match RelocationType::decoded(u32_at(data, pos + 8)) {
        Err(e) => Err(e),
        Ok(reloc_type) => Ok(
            Relocation {
                offset: u64_at(data, pos),
                reloc_type,
                sym_idx: u32_at(data, pos + 12),
                addend: bytes::signed(u64_at(data, pos + 16) as int, 0x8000_0000_0000_0000) as i64,
            },
        ),
    }
}

/// `relocations` with `count` more that follow at `pos`.
pub open spec fn relocations_at(
    data: Seq<u8>,
    pos: int,
    count: int,
    relocations: Seq<Relocation>,
) -> Result<Seq<Relocation>, Error>
    decreases count,
{
    if count <= 0 {
        Ok(relocations)
    } else if pos + RELOCATION_SIZE > data.len() {
        Err(Error::OutOfBounds)
    } else {
        match relocation_at(data, pos) {
            Err(e) => Err(e),
            Ok(relocation) => relocations_at(
                data,
                pos + RELOCATION_SIZE,
                count - 1,
                relocations.push(relocation),
            ),
        }
    }
}

/// Where the relocation table is in the rodata segment whose place and size two entries of the
/// `.dynamic` section give, and how many relocations it has.
pub open spec fn relocation_place(
    entries: Seq<(DynamicTagType, u64)>,
    off_tag: DynamicTagType,
    size_tag: DynamicTagType,
    header: HeaderView,
) -> Result<(u64, u64), Error> {
    match tag_value(entries, off_tag) {
        Err(e) => Err(e),
        Ok(offset) => if offset < header.offset(NsoSegment::Rodata) {
            Err(Error::OutOfBounds)
        } else {
            match (
                tag_value(entries, size_tag),
                tag_value(entries, DynamicTagType::DT_RELAENT),
            ) {
                (Err(e), _) => Err(e),
                (Ok(_), Err(e)) => Err(e),
                (Ok(size), Ok(entry_size)) => if entry_size != RELOCATION_SIZE {
                    Err(Error::BadRelocationSize)
                } else {
                    Ok(
                        (
                            (offset - header.offset(NsoSegment::Rodata)) as u64,
                            size / RELOCATION_SIZE,
                        ),
                    )
                },
            }
        },
    }
}

/// The relocation table whose place and size two entries of the `.dynamic` section give. It is in
/// the rodata segment.
pub open spec fn relocation_table(
    rodata_segment: Seq<u8>,
    entries: Seq<(DynamicTagType, u64)>,
    off_tag: DynamicTagType,
    size_tag: DynamicTagType,
    header: HeaderView,
) -> Result<Seq<Relocation>, Error> {
    match relocation_place(entries, off_tag, size_tag, header) {
        Err(e) => Err(e),
        Ok((start, count)) => relocations_at(
            rodata_segment,
            start as int,
            count as int,
            Seq::empty(),
        ),
    }
}

pub(crate) fn read_relocation(data: &[u8], pos: usize) -> (r: Result<Relocation, Error>)
    requires
        pos + RELOCATION_SIZE <= data@.len() <= usize::MAX,
    ensures
        r == relocation_at(data@, pos as int),
{
    let reloc_type = RelocationType::decode(read_u32(data, pos + 8)?)?;
    Ok(
        Relocation {
            offset: read_u64(data, pos)?,
            reloc_type,
            sym_idx: read_u32(data, pos + 12)?,
            addend: to_i64(read_u64(data, pos + 16)?),
        },
    )
}

/// Finds the relocation table whose place and size two entries of the `.dynamic` section give.
pub fn find_reloc_table(
    dynamic_segment: &Vec<(DynamicTagType, u64)>,
    off_tag: DynamicTagType,
    size_tag: DynamicTagType,
    header: &NsoHeader,
) -> (r: Result<(u64, u64), Error>)
    ensures
        r == relocation_place(dynamic_segment@, off_tag, size_tag, header@),
{
    let offset: u64 = get_dynamic_tag_value(dynamic_segment, off_tag)?;
    let rodata_offset: u64 = header.get_segment_mem_offset(&NsoSegment::Rodata) as u64;
    if offset < rodata_offset {
        return Err(Error::OutOfBounds);
    }
    let size: u64 = get_dynamic_tag_value(dynamic_segment, size_tag)?;
    let entry_size: u64 = get_dynamic_tag_value(dynamic_segment, DynamicTagType::DT_RELAENT)?;
    if entry_size != RELOCATION_SIZE {
        return Err(Error::BadRelocationSize);
    }
    Ok((offset - rodata_offset, size / RELOCATION_SIZE))
}

/// Reads the relocation table whose place and size two entries of the `.dynamic` section give.
pub fn parse_reloc_table(
    rodata_segment: &[u8],
    dynamic_segment: &Vec<(DynamicTagType, u64)>,
    off_tag: DynamicTagType,
    size_tag: DynamicTagType,
    header: &NsoHeader,
) -> (r: Result<Vec<Relocation>, Error>)
    ensures
        match r {
            Ok(table) => relocation_table(
                rodata_segment@,
                dynamic_segment@,
                off_tag,
                size_tag,
                header@,
            ) == Ok::<Seq<Relocation>, Error>(table@),
            Err(e) => relocation_table(
                rodata_segment@,
                dynamic_segment@,
                off_tag,
                size_tag,
                header@,
            ) == Err::<Seq<Relocation>, Error>(e),
        },
{
    let (start, count): (u64, u64) = find_reloc_table(
        dynamic_segment,
        off_tag,
        size_tag,
        header,
    )?;
    let length: u64 = rodata_segment.len() as u64;
    let mut relocations: Vec<Relocation> = Vec::new();
    assert(relocations@ =~= Seq::empty());
    let ghost all = relocations_at(rodata_segment@, start as int, count as int, Seq::empty());
    let mut pos: u64 = start;
    let mut i: u64 = 0;
    while i < count
        invariant
            i <= count,
            pos == start || pos <= length,
            length == rodata_segment@.len() <= usize::MAX,
            all == relocations_at(rodata_segment@, start as int, count as int, Seq::empty()),
            all == relocations_at(rodata_segment@, pos as int, count - i, relocations@),
            relocation_table(
                rodata_segment@,
                dynamic_segment@,
                off_tag,
                size_tag,
                header@,
            ) == all,
        decreases count - i,
    {
        if pos > length || length - pos < RELOCATION_SIZE {
            return Err(Error::OutOfBounds);
        }
        relocations.push(read_relocation(rodata_segment, pos as usize)?);
        pos = pos + RELOCATION_SIZE;
        i = i + 1;
    }
    Ok(relocations)
}

/// Numbers of a table are what its bytes hold.
pub proof fn lemma_words(data: Seq<u8>, pos: int)
    ensures
        u32_at(data, pos) == bytes::le_value(data, pos, 4),
        u64_at(data, pos) == bytes::le_value(data, pos, 8),
{
    bytes::law_lowest_byte_comes_first(data, pos, 8);
}

/// The numbers of the entries of the `.dynamic` section, relocations and symbols are those of the ELF
/// format.
pub proof fn law_numbers_are_those_of_the_format()
    ensures
        DynamicTagType::decoded(0) == Ok::<DynamicTagType, Error>(DynamicTagType::DT_NULL),
        DynamicTagType::decoded(1) == Ok::<DynamicTagType, Error>(DynamicTagType::DT_NEEDED),
        DynamicTagType::decoded(2) == Ok::<DynamicTagType, Error>(DynamicTagType::DT_PLTRELSZ),
        DynamicTagType::decoded(3) == Ok::<DynamicTagType, Error>(DynamicTagType::DT_PLTGOT),
        DynamicTagType::decoded(4) == Ok::<DynamicTagType, Error>(DynamicTagType::DT_HASH),
        DynamicTagType::decoded(5) == Ok::<DynamicTagType, Error>(DynamicTagType::DT_STRTAB),
        DynamicTagType::decoded(6) == Ok::<DynamicTagType, Error>(DynamicTagType::DT_SYMTAB),
        DynamicTagType::decoded(7) == Ok::<DynamicTagType, Error>(DynamicTagType::DT_RELA),
        DynamicTagType::decoded(8) == Ok::<DynamicTagType, Error>(DynamicTagType::DT_RELASZ),
        DynamicTagType::decoded(9) == Ok::<DynamicTagType, Error>(DynamicTagType::DT_RELAENT),
        DynamicTagType::decoded(10) == Ok::<DynamicTagType, Error>(DynamicTagType::DT_STRSZ),
        DynamicTagType::decoded(11) == Ok::<DynamicTagType, Error>(DynamicTagType::DT_SYMENT),
        DynamicTagType::decoded(12) == Ok::<DynamicTagType, Error>(DynamicTagType::DT_INIT),
        DynamicTagType::decoded(13) == Ok::<DynamicTagType, Error>(DynamicTagType::DT_FINI),
        DynamicTagType::decoded(14) == Ok::<DynamicTagType, Error>(DynamicTagType::DT_SONAME),
        DynamicTagType::decoded(15) == Ok::<DynamicTagType, Error>(DynamicTagType::DT_RPATH),
        DynamicTagType::decoded(16) == Ok::<DynamicTagType, Error>(DynamicTagType::DT_SYMBOLIC),
        DynamicTagType::decoded(17) == Ok::<DynamicTagType, Error>(DynamicTagType::DT_REL),
        DynamicTagType::decoded(18) == Ok::<DynamicTagType, Error>(DynamicTagType::DT_RELSZ),
        DynamicTagType::decoded(19) == Ok::<DynamicTagType, Error>(DynamicTagType::DT_RELENT),
        DynamicTagType::decoded(20) == Ok::<DynamicTagType, Error>(DynamicTagType::DT_PLTREL),
        DynamicTagType::decoded(21) == Ok::<DynamicTagType, Error>(DynamicTagType::DT_DEBUG),
        DynamicTagType::decoded(22) == Ok::<DynamicTagType, Error>(DynamicTagType::DT_TEXTREL),
        DynamicTagType::decoded(23) == Ok::<DynamicTagType, Error>(DynamicTagType::DT_JMPREL),
        DynamicTagType::decoded(24) == Ok::<DynamicTagType, Error>(DynamicTagType::DT_BIND_NOW),
        DynamicTagType::decoded(25) == Ok::<DynamicTagType, Error>(DynamicTagType::DT_INIT_ARRAY),
        DynamicTagType::decoded(26) == Ok::<DynamicTagType, Error>(DynamicTagType::DT_FINI_ARRAY),
        DynamicTagType::decoded(27) == Ok::<DynamicTagType, Error>(DynamicTagType::DT_INIT_ARRAYSZ),
        DynamicTagType::decoded(28) == Ok::<DynamicTagType, Error>(DynamicTagType::DT_FINI_ARRAYSZ),
        DynamicTagType::decoded(29) == Ok::<DynamicTagType, Error>(DynamicTagType::DT_RUNPATH),
        DynamicTagType::decoded(30) == Ok::<DynamicTagType, Error>(DynamicTagType::DT_FLAGS),
        DynamicTagType::decoded(32) == Ok::<DynamicTagType, Error>(DynamicTagType::DT_PREINIT_ARRAY),
        DynamicTagType::decoded(33) == Ok::<DynamicTagType, Error>(DynamicTagType::DT_PREINIT_ARRAYSZ),
        DynamicTagType::decoded(34) == Ok::<DynamicTagType, Error>(DynamicTagType::DT_NUM),
        DynamicTagType::decoded(1610612749) == Ok::<DynamicTagType, Error>(DynamicTagType::DT_LOOS),
        DynamicTagType::decoded(1879044096) == Ok::<DynamicTagType, Error>(DynamicTagType::DT_HIOS),
        DynamicTagType::decoded(1879048192) == Ok::<DynamicTagType, Error>(DynamicTagType::DT_LOPROC),
        DynamicTagType::decoded(2147483647) == Ok::<DynamicTagType, Error>(DynamicTagType::DT_HIPROC),
        DynamicTagType::decoded(1879047680) == Ok::<DynamicTagType, Error>(DynamicTagType::DT_ADDRRNGLO),
        DynamicTagType::decoded(1879047925) == Ok::<DynamicTagType, Error>(DynamicTagType::DT_GNU_HASH),
        DynamicTagType::decoded(1879047926) == Ok::<DynamicTagType, Error>(DynamicTagType::DT_TLSDESC_PLT),
        DynamicTagType::decoded(1879047927) == Ok::<DynamicTagType, Error>(DynamicTagType::DT_TLSDESC_GOT),
        DynamicTagType::decoded(1879047928) == Ok::<DynamicTagType, Error>(DynamicTagType::DT_GNU_CONFLICT),
        DynamicTagType::decoded(1879047929) == Ok::<DynamicTagType, Error>(DynamicTagType::DT_GNU_LIBLIST),
        DynamicTagType::decoded(1879047930) == Ok::<DynamicTagType, Error>(DynamicTagType::DT_CONFIG),
        DynamicTagType::decoded(1879047931) == Ok::<DynamicTagType, Error>(DynamicTagType::DT_DEPAUDIT),
        DynamicTagType::decoded(1879047932) == Ok::<DynamicTagType, Error>(DynamicTagType::DT_AUDIT),
        DynamicTagType::decoded(1879047933) == Ok::<DynamicTagType, Error>(DynamicTagType::DT_PLTPAD),
        DynamicTagType::decoded(1879047934) == Ok::<DynamicTagType, Error>(DynamicTagType::DT_MOVETAB),
        DynamicTagType::decoded(1879047935) == Ok::<DynamicTagType, Error>(DynamicTagType::DT_SYMINFO),
        DynamicTagType::decoded(1879048185) == Ok::<DynamicTagType, Error>(DynamicTagType::DT_RELACOUNT),
        DynamicTagType::decoded(1879048186) == Ok::<DynamicTagType, Error>(DynamicTagType::DT_RELCOUNT),
        DynamicTagType::decoded(1879048187) == Ok::<DynamicTagType, Error>(DynamicTagType::DT_FLAGS_1),
        RelocationType::decoded(0x0) == Ok::<RelocationType, Error>(RelocationType::R_TYPE_UNKNOWN),
        RelocationType::decoded(0x101) == Ok::<RelocationType, Error>(RelocationType::R_AARCH64_ABS64),
        RelocationType::decoded(0x400) == Ok::<RelocationType, Error>(RelocationType::R_AARCH64_COPY),
        RelocationType::decoded(0x401) == Ok::<RelocationType, Error>(RelocationType::R_AARCH64_GLOB_DAT),
        RelocationType::decoded(0x402) == Ok::<RelocationType, Error>(RelocationType::R_AARCH64_JUMP_SLOT),
        RelocationType::decoded(0x403) == Ok::<RelocationType, Error>(RelocationType::R_AARCH64_RELATIVE),
        RelocationType::decoded(0x406) == Ok::<RelocationType, Error>(RelocationType::R_AARCH64_TLS_TPREL64),
        RelocationType::decoded(0x407) == Ok::<RelocationType, Error>(RelocationType::R_AARCH64_TLS_DTPREL32),
        RelocationType::decoded(0x408) == Ok::<RelocationType, Error>(RelocationType::R_AARCH64_IRELATIVE),
        DynamicSymbolBind::decoded(0) == Ok::<DynamicSymbolBind, Error>(DynamicSymbolBind::STB_LOCAL),
        DynamicSymbolBind::decoded(1) == Ok::<DynamicSymbolBind, Error>(
            DynamicSymbolBind::STB_GLOBAL,
        ),
        DynamicSymbolBind::decoded(2) == Ok::<DynamicSymbolBind, Error>(DynamicSymbolBind::STB_WEAK),
        forall|n: u8| n > 2 ==> #[trigger] DynamicSymbolBind::decoded(n) is Err,
        DynamicSymbolType::decoded(0) == Ok::<DynamicSymbolType, Error>(
            DynamicSymbolType::STT_NOTYPE,
        ),
        DynamicSymbolType::decoded(1) == Ok::<DynamicSymbolType, Error>(
            DynamicSymbolType::STT_OBJECT,
        ),
        DynamicSymbolType::decoded(2) == Ok::<DynamicSymbolType, Error>(DynamicSymbolType::STT_FUNC),
        DynamicSymbolType::decoded(3) == Ok::<DynamicSymbolType, Error>(
            DynamicSymbolType::STT_SECTION,
        ),
        DynamicSymbolType::decoded(4) == Ok::<DynamicSymbolType, Error>(DynamicSymbolType::STT_FILE),
        DynamicSymbolType::decoded(5) == Ok::<DynamicSymbolType, Error>(
            DynamicSymbolType::STT_COMMON,
        ),
        DynamicSymbolType::decoded(6) == Ok::<DynamicSymbolType, Error>(DynamicSymbolType::STT_TLS),
        forall|n: u8| n > 6 ==> #[trigger] DynamicSymbolType::decoded(n) is Err,
        DynamicSymbolVisibility::decoded(0) == Ok::<DynamicSymbolVisibility, Error>(
            DynamicSymbolVisibility::STV_DEFAULT,
        ),
        DynamicSymbolVisibility::decoded(1) == Ok::<DynamicSymbolVisibility, Error>(
            DynamicSymbolVisibility::STV_INTERNAL,
        ),
        DynamicSymbolVisibility::decoded(2) == Ok::<DynamicSymbolVisibility, Error>(
            DynamicSymbolVisibility::STV_HIDDEN,
        ),
        DynamicSymbolVisibility::decoded(3) == Ok::<DynamicSymbolVisibility, Error>(
            DynamicSymbolVisibility::STV_PROTECTED,
        ),
{
}

/// The module description has its fields one behind the other, behind the mark `MOD0`.
pub proof fn law_modules_are_laid_out(text: Seq<u8>)
    requires
        module_of(text) is Ok,
    ensures
        ({
            let m = module_of(text)->Ok_0;
            &&& text.len() >= 36
            &&& text[8] == 0x4D && text[9] == 0x4F && text[10] == 0x44 && text[11] == 0x30
            &&& m.header_offset == bytes::le_value(text, 4, 4)
            &&& m.dyn_offset == bytes::le_value(text, 12, 4)
            &&& m.bss_start == bytes::le_value(text, 16, 4)
            &&& m.bss_end == bytes::le_value(text, 20, 4)
            &&& m.ex_info_start_offset == bytes::le_value(text, 24, 4)
            &&& m.ex_info_end_offset == bytes::le_value(text, 28, 4)
            &&& m.bss_start == bytes::le_value(text, 32, 4)
        }),
{
    lemma_words(text, 4);
    lemma_words(text, 12);
    lemma_words(text, 16);
    lemma_words(text, 20);
    lemma_words(text, 24);
    lemma_words(text, 28);
    lemma_words(text, 32);
    let mark = text.subrange(8, 12);
    assert(mark[0] == text[8] && mark[1] == text[9] && mark[2] == text[10] && mark[3] == text[11]);
}

/// The symbol table has 24 bytes for each symbol: where its name is, its two bytes of properties, its
/// section, its address and its size.
pub proof fn law_symbol_tables_are_laid_out(memory: Seq<u8>, offset: u64, size: u64, k: int)
    requires
        symbols_at(memory, offset, size) is Ok,
    ensures
        ({
            let all = symbols_at(memory, offset, size)->Ok_0;
            let at = offset + 24 * k;
            &&& all.len() == size / 24
            &&& 0 <= k < all.len() ==> {
                &&& at + 24 <= memory.len()
                &&& all[k].str_table_offset == bytes::le_value(memory, at, 4)
                &&& all[k].info == memory[at + 4]
                &&& all[k].other == memory[at + 5]
                &&& all[k].section_idx == bytes::le_value(memory, at + 6, 2)
                &&& all[k].value == bytes::le_value(memory, at + 8, 8)
                &&& all[k].size == bytes::le_value(memory, at + 16, 8)
            }
        }),
{
    let at = offset + 24 * k;
    lemma_words(memory, at);
    lemma_words(memory, at + 8);
    lemma_words(memory, at + 16);
    bytes::law_lowest_byte_comes_first(memory, at + 6, 2);
    assert(offset + k * SYMBOL_SIZE == at);
}

proof fn lemma_dynamic_entries(
    data: Seq<u8>,
    pos: int,
    known: Seq<(DynamicTagType, u64)>,
    k: int,
)
    requires
        dynamic_entries(data, pos, known) is Ok,
    ensures
        ({
            let all = dynamic_entries(data, pos, known)->Ok_0;
            let start = pos - 16 * known.len();
            &&& all.len() >= known.len()
            &&& 0 <= k < known.len() ==> all[k] == known[k]
            &&& known.len() <= k < all.len() ==> all[k].0.value() == bytes::le_value(
                data,
                start + 16 * k,
                8,
            ) && all[k].0 != DynamicTagType::DT_NULL && all[k].1 == bytes::le_value(
                data,
                start + 16 * k + 8,
                8,
            )
            &&& bytes::le_value(data, start + 16 * all.len(), 8) == 0
            &&& start + 16 * all.len() + 16 <= data.len()
        }),
    decreases data.len() - pos,
{
    lemma_words(data, pos);
    lemma_words(data, pos + 8);
    if u64_at(data, pos) != 0 {
        let tag = DynamicTagType::decoded(u64_at(data, pos))->Ok_0;
        lemma_dynamic_entries(data, pos + 16, known.push((tag, u64_at(data, pos + 8))), k);
    }
}

/// The `.dynamic` section has sixteen bytes for each entry, the number of its kind and its value, and
/// ends with an entry of kind zero.
pub proof fn law_dynamic_sections_are_laid_out(data: Seq<u8>, k: int)
    requires
        dynamic_entries(data, 0, Seq::empty()) is Ok,
    ensures
        ({
            let all = dynamic_entries(data, 0, Seq::empty())->Ok_0;
            &&& 0 <= k < all.len() ==> all[k].0.value() == bytes::le_value(data, 16 * k, 8)
                && all[k].0.value() != 0 && all[k].1 == bytes::le_value(data, 16 * k + 8, 8)
            &&& bytes::le_value(data, 16 * all.len() as int, 8) == 0
            &&& 16 * all.len() + 16 <= data.len()
        }),
{
    lemma_dynamic_entries(data, 0, Seq::empty(), k);
}

/// An entry has a value exactly if it is there once, and the value is its own.
pub proof fn law_tags_are_unique(entries: Seq<(DynamicTagType, u64)>, tag: DynamicTagType)
    ensures
        tag_value(entries, tag) matches Ok(value) ==> entries.contains((tag, value)),
        tag_value(entries, tag) is Ok ==> forall|i: int, j: int|
            0 <= i < j < entries.len() ==> !((#[trigger] entries[i]).0 == tag && (
            #[trigger] entries[j]).0 == tag),
        tag_value(entries, tag) == Err::<u64, Error>(Error::DynamicTagMissing) <==> forall|i: int|
            0 <= i < entries.len() ==> (#[trigger] entries[i]).0 != tag,
    decreases entries.len(),
{
    reveal(Seq::filter);
    if entries.len() > 0 {
        let before = entries.drop_last();
        law_tags_are_unique(before, tag);
        let found = tag_values(before, tag);
        let all = tag_values(entries, tag);
        let last = entries.last();
        if last.0 == tag {
            assert(all == found.push(last));
            assert(entries[entries.len() - 1] == last);
        } else {
            assert(all == found);
        }
        assert forall|i: int| 0 <= i < before.len() implies entries[i] == #[trigger] before[i] by {}
        if let Ok(value) = tag_value(entries, tag) {
            if last.0 != tag {
                let k = before.index_of((tag, value));
                assert(entries[k] == (tag, value));
            } else {
                assert(found.len() == 0);
                assert(last == (tag, value));
            }
            assert forall|i: int, j: int| 0 <= i < j < entries.len() implies !((
            #[trigger] entries[i]).0 == tag && (#[trigger] entries[j]).0 == tag) by {
                assert(entries[i] == before[i]);
                if j < before.len() {
                    assert(entries[j] == before[j]);
                    if last.0 == tag {
                        assert(before[i].0 != tag);
                    }
                } else if last.0 == tag {
                    assert(before[i].0 != tag);
                }
            }
        }
        if forall|i: int| 0 <= i < entries.len() ==> (#[trigger] entries[i]).0 != tag {
            assert forall|i: int| 0 <= i < before.len() implies (#[trigger] before[i]).0 != tag by {
                assert(entries[i] == before[i]);
            }
            assert(entries[entries.len() - 1] == last);
        }
        if tag_value(entries, tag) == Err::<u64, Error>(Error::DynamicTagMissing) {
            assert forall|i: int| 0 <= i < entries.len() implies (#[trigger] entries[i]).0 != tag by {
                if i < before.len() {
                    assert(entries[i] == before[i]);
                }
            }
        }
    }
}

proof fn lemma_relocations(data: Seq<u8>, pos: int, count: int, known: Seq<Relocation>, k: int)
    requires
        relocations_at(data, pos, count, known) is Ok,
    ensures
        ({
            let all = relocations_at(data, pos, count, known)->Ok_0;
            &&& all.len() == known.len() + if count > 0 {
                count
            } else {
                0
            }
            &&& 0 <= k < known.len() ==> all[k] == known[k]
            &&& known.len() <= k < all.len() ==> relocation_at(
                data,
                pos + 24 * (k - known.len()),
            ) == Ok::<Relocation, Error>(all[k]) && pos + 24 * (k - known.len()) + 24 <= data.len()
        }),
    decreases count,
{
    if count > 0 {
        let next = known.push(relocation_at(data, pos)->Ok_0);
        lemma_relocations(data, pos + 24, count - 1, next, k);
        assert(pos + 24 + 24 * (k - next.len()) == pos + 24 * (k - known.len()));
    }
}

/// A relocation has the address that it is about, its type, its symbol and its addend, in this order.
pub proof fn law_relocations_are_laid_out(data: Seq<u8>, pos: int)
    requires
        relocation_at(data, pos) is Ok,
    ensures
        ({
            let r = relocation_at(data, pos)->Ok_0;
            let addend = bytes::le_value(data, pos + 16, 8);
            &&& r.offset == bytes::le_value(data, pos, 8)
            &&& r.reloc_type.value() == bytes::le_value(data, pos + 8, 4)
            &&& r.sym_idx == bytes::le_value(data, pos + 12, 4)
            &&& r.addend == addend || r.addend == addend - 0x1_0000_0000_0000_0000
        }),
{
    lemma_words(data, pos);
    lemma_words(data, pos + 8);
    lemma_words(data, pos + 12);
    lemma_words(data, pos + 16);
}

/// A relocation table has 24 bytes for each relocation. It is where one entry of the `.dynamic` section
/// says, which is an address in memory, and as long as the other one says.
pub proof fn law_relocation_tables_are_laid_out(
    rodata_segment: Seq<u8>,
    entries: Seq<(DynamicTagType, u64)>,
    off_tag: DynamicTagType,
    size_tag: DynamicTagType,
    header: HeaderView,
    k: int,
)
    requires
        relocation_table(rodata_segment, entries, off_tag, size_tag, header) is Ok,
    ensures
        ({
            let all = relocation_table(
                rodata_segment,
                entries,
                off_tag,
                size_tag,
                header,
            )->Ok_0;
            let at = tag_value(entries, off_tag)->Ok_0;
            let rodata = header.rodata_segment.mem_offset;
            &&& tag_value(entries, off_tag) is Ok
            &&& tag_value(entries, size_tag) is Ok
            &&& tag_value(entries, DynamicTagType::DT_RELAENT) == Ok::<u64, Error>(24)
            &&& at >= rodata
            &&& all.len() == tag_value(entries, size_tag)->Ok_0 / 24
            &&& 0 <= k < all.len() ==> relocation_at(rodata_segment, at - rodata + 24 * k) == Ok::<
                Relocation,
                Error,
            >(all[k])
        }),
{
    let (start, count) = relocation_place(entries, off_tag, size_tag, header)->Ok_0;
    lemma_relocations(rodata_segment, start as int, count as int, Seq::empty(), k);
}

/// A module description is refused if it is not all there, has another mark, or gives two different
/// places for the variables. Any other is read.
pub proof fn law_modules_are_refused(data: Seq<u8>)
    ensures
        ({
            let marked = data[8] == 0x4D && data[9] == 0x4F && data[10] == 0x44 && data[11] == 0x30;
            let agrees = bytes::le_value(data, 16, 4) == bytes::le_value(data, 32, 4);
            let r = module_of(data);
            &&& data.len() < 12 || (marked && data.len() < 36) ==> r == Err::<Module, Error>(
                Error::UnexpectedEnd,
            )
            &&& data.len() >= 12 && !marked ==> r == Err::<Module, Error>(Error::BadMagic)
            &&& data.len() >= 36 && marked && !agrees ==> r == Err::<Module, Error>(
                Error::BadModule,
            )
            &&& data.len() >= 36 && marked && agrees ==> r is Ok
        }),
{
    lemma_words(data, 16);
    lemma_words(data, 32);
    if data.len() >= 12 {
        let mark = data.subrange(8, 12);
        assert(mark[0] == data[8] && mark[1] == data[9] && mark[2] == data[10] && mark[3]
            == data[11]);
        let wanted = seq![0x4Du8, 0x4F, 0x44, 0x30];
        assert(wanted[0] == 0x4D && wanted[1] == 0x4F && wanted[2] == 0x44 && wanted[3] == 0x30);
        if data[8] == 0x4D && data[9] == 0x4F && data[10] == 0x44 && data[11] == 0x30 {
            assert(mark =~= wanted);
        }
    }
}

/// A symbol table is read where all of its whole entries are in memory.
pub proof fn law_symbol_tables_need_their_bytes(memory: Seq<u8>, offset: u64, size: u64)
    ensures
        size < 24 || offset + 24 * (size / 24) <= memory.len() ==> symbols_at(memory, offset, size)
            is Ok,
        size >= 24 && offset + 24 * (size / 24) > memory.len() ==> symbols_at(memory, offset, size)
            == Err::<Seq<DynamicSymbol>, Error>(Error::OutOfBounds),
{
}

/// The `.dynamic` section is read entry by entry up to one of kind zero. It has to have one, and no
/// entry before it may be of an unknown kind.
pub proof fn law_dynamic_sections_are_refused(
    data: Seq<u8>,
    pos: int,
    known: Seq<(DynamicTagType, u64)>,
    tag: DynamicTagType,
)
    requires
        0 <= pos,
    ensures
        ({
            let number = bytes::le_value(data, pos, 8);
            let value = bytes::le_value(data, pos + 8, 8) as u64;
            let r = dynamic_entries(data, pos, known);
            &&& pos + 16 > data.len() ==> r == Err::<Seq<(DynamicTagType, u64)>, Error>(
                Error::UnexpectedEnd,
            )
            &&& pos + 16 <= data.len() && number == 0 ==> r == Ok::<
                Seq<(DynamicTagType, u64)>,
                Error,
            >(known)
            &&& pos + 16 <= data.len() && number != 0 && number == tag.value() ==> r
                == dynamic_entries(data, pos + 16, known.push((tag, value)))
            &&& pos + 16 <= data.len() && number != 0 && (forall|t: DynamicTagType|
                number != #[trigger] t.value()) ==> r is Err
        }),
{
    lemma_words(data, pos);
    lemma_words(data, pos + 8);
    if let Ok(found) = DynamicTagType::decoded(u64_at(data, pos)) {
        law_dynamic_tags_have_one_number(found, u64_at(data, pos));
        assert(found.value() == u64_at(data, pos));
    }
    law_dynamic_tags_have_one_number(tag, u64_at(data, pos));
}

/// A place for a relocation table is refused if it is before the read-only data, or if relocations are
/// not of 24 bytes there.
pub proof fn law_relocation_places_are_refused(
    entries: Seq<(DynamicTagType, u64)>,
    off_tag: DynamicTagType,
    size_tag: DynamicTagType,
    header: HeaderView,
    at: u64,
    size: u64,
    entry_size: u64,
)
    requires
        tag_value(entries, off_tag) == Ok::<u64, Error>(at),
        tag_value(entries, size_tag) == Ok::<u64, Error>(size),
        tag_value(entries, DynamicTagType::DT_RELAENT) == Ok::<u64, Error>(entry_size),
    ensures
        ({
            let base = header.rodata_segment.mem_offset;
            let r = relocation_place(entries, off_tag, size_tag, header);
            &&& at < base ==> r == Err::<(u64, u64), Error>(Error::OutOfBounds)
            &&& at >= base && entry_size != 24 ==> r == Err::<(u64, u64), Error>(
                Error::BadRelocationSize,
            )
            &&& at >= base && entry_size == 24 ==> r is Ok && r->Ok_0.0 == at - base && r->Ok_0.1
                == size / 24
        }),
{
}

/// Relocations are read one by one. Each has to be all there and of a type that has a number.
pub proof fn law_relocations_are_read_one_by_one(
    data: Seq<u8>,
    pos: int,
    count: int,
    known: Seq<Relocation>,
)
    ensures
        count <= 0 ==> relocations_at(data, pos, count, known) == Ok::<Seq<Relocation>, Error>(known),
        count > 0 && pos + 24 > data.len() ==> relocations_at(data, pos, count, known) == Err::<
            Seq<Relocation>,
            Error,
        >(Error::OutOfBounds),
        count > 0 && pos + 24 <= data.len() && relocation_at(data, pos) is Ok ==> relocations_at(
            data,
            pos,
            count,
            known,
        ) == relocations_at(data, pos + 24, count - 1, known.push(relocation_at(data, pos)->Ok_0)),
        count > 0 && pos + 24 <= data.len() && relocation_at(data, pos) is Err ==> relocations_at(
            data,
            pos,
            count,
            known,
        ) is Err,
        relocation_at(data, pos) is Ok <==> exists|t: RelocationType|
            bytes::le_value(data, pos + 8, 4) == #[trigger] t.value(),
{
    lemma_words(data, pos + 8);
    let number = u32_at(data, pos + 8);
    if let Ok(found) = RelocationType::decoded(number) {
        law_relocation_types_have_one_number(found, number);
        assert(found.value() == number);
    }
    if exists|t: RelocationType| bytes::le_value(data, pos + 8, 4) == #[trigger] t.value() {
        let t = choose|t: RelocationType|
            bytes::le_value(data, pos + 8, 4) == #[trigger] t.value();
        law_relocation_types_have_one_number(t, number);
    }
}

} // verus!
