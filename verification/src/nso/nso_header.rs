//! The header of an NSO file.

use vstd::prelude::*;

use crate::bytes::{self, read_u32};
use crate::error::Error;

verus! {

/// The three parts that an NSO file is loaded in.
#[derive(Clone, Copy, Debug, PartialEq, Eq, Structural)]
pub enum NsoSegment {
    Text,
    Rodata,
    Data,
}

/// Where a segment is, in the file and in memory.
#[derive(Clone, Copy, Debug, PartialEq, Eq, Structural)]
pub struct NsoSegmentMetadata {
    pub file_offset: u32,
    pub mem_offset: u32,
    pub mem_size: u32,
}

#[derive(Debug)]
pub struct NsoHeader {
    pub flags: u32,
    pub text_segment: NsoSegmentMetadata,
    pub text_align: u32,
    pub rodata_segment: NsoSegmentMetadata,
    pub rodata_align: u32,
    pub data_segment: NsoSegmentMetadata,
    pub bss_size: u32,
    pub module_id: [u8; 0x20],
    pub text_compressed_size: u32,
    pub rodata_compressed_size: u32,
    pub data_compressed_size: u32,
    pub embed_offset: u32,
    pub embed_size: u32,
    pub dynstr_offset: u32,
    pub dynstr_size: u32,
    pub dynsym_offset: u32,
    pub dynsym_size: u32,
    pub text_hash: [u8; 0x20],
    pub rodata_hash: [u8; 0x20],
    pub data_hash: [u8; 0x20],
}

/// What an [`NsoHeader`] says.
#[verifier::ext_equal]
pub struct HeaderView {
    pub flags: u32,
    pub text_segment: NsoSegmentMetadata,
    pub text_align: u32,
    pub rodata_segment: NsoSegmentMetadata,
    pub rodata_align: u32,
    pub data_segment: NsoSegmentMetadata,
    pub bss_size: u32,
    pub module_id: Seq<u8>,
    pub text_compressed_size: u32,
    pub rodata_compressed_size: u32,
    pub data_compressed_size: u32,
    pub embed_offset: u32,
    pub embed_size: u32,
    pub dynstr_offset: u32,
    pub dynstr_size: u32,
    pub dynsym_offset: u32,
    pub dynsym_size: u32,
    pub text_hash: Seq<u8>,
    pub rodata_hash: Seq<u8>,
    pub data_hash: Seq<u8>,
}

impl HeaderView {
    pub open spec fn segment(self, segment: NsoSegment) -> NsoSegmentMetadata {
        match segment {
            NsoSegment::Text => self.text_segment,
            NsoSegment::Rodata => self.rodata_segment,
            NsoSegment::Data => self.data_segment,
        }
    }

    pub open spec fn file_size(self, segment: NsoSegment) -> u32 {
        match segment {
            NsoSegment::Text => self.text_compressed_size,
            NsoSegment::Rodata => self.rodata_compressed_size,
            NsoSegment::Data => self.data_compressed_size,
        }
    }

    pub open spec fn hash(self, segment: NsoSegment) -> Seq<u8> {
        match segment {
            NsoSegment::Text => self.text_hash,
            NsoSegment::Rodata => self.rodata_hash,
            NsoSegment::Data => self.data_hash,
        }
    }

    /// One bit of the flags for each segment.
    pub open spec fn is_compressed(self, segment: NsoSegment) -> bool {
        match segment {
            NsoSegment::Text => self.flags & 1 != 0,
            NsoSegment::Rodata => self.flags & 2 != 0,
            NsoSegment::Data => self.flags & 4 != 0,
        }
    }

    /// Offset of a segment in memory.
    pub open spec fn offset(self, segment: NsoSegment) -> int {
        self.segment(segment).mem_offset as int
    }

    /// End of a segment in memory.
    pub open spec fn end(self, segment: NsoSegment) -> int {
        self.segment(segment).mem_offset + self.segment(segment).mem_size
    }
}

impl View for NsoHeader {
    type V = HeaderView;

    open spec fn view(&self) -> HeaderView {
        HeaderView {
            flags: self.flags,
            text_segment: self.text_segment,
            text_align: self.text_align,
            rodata_segment: self.rodata_segment,
            rodata_align: self.rodata_align,
            data_segment: self.data_segment,
            bss_size: self.bss_size,
            module_id: self.module_id@,
            text_compressed_size: self.text_compressed_size,
            rodata_compressed_size: self.rodata_compressed_size,
            data_compressed_size: self.data_compressed_size,
            embed_offset: self.embed_offset,
            embed_size: self.embed_size,
            dynstr_offset: self.dynstr_offset,
            dynstr_size: self.dynstr_size,
            dynsym_offset: self.dynsym_offset,
            dynsym_size: self.dynsym_size,
            text_hash: self.text_hash@,
            rodata_hash: self.rodata_hash@,
            data_hash: self.data_hash@,
        }
    }
}

/// The 32-bit number at `pos`.
pub open spec fn word(data: Seq<u8>, pos: int) -> u32 {
    bytes::le_value(data, pos, 4) as u32
}

pub open spec fn segment_at(data: Seq<u8>, pos: int) -> NsoSegmentMetadata {
    NsoSegmentMetadata {
        file_offset: word(data, pos),
        mem_offset: word(data, pos + 4),
        mem_size: word(data, pos + 8),
    }
}

/// Whether `data` begins with the mark of a header, which is `NSO0`.
pub open spec fn magic_check(data: Seq<u8>) -> Result<(), Error> {
    if data.len() < 4 {
        Err(Error::UnexpectedEnd)
    } else if data.take(4) != seq![0x4Eu8, 0x53, 0x4F, 0x30] {
        Err(Error::BadMagic)
    } else {
        Ok(())
    }
}

/// Whether `data` begins with a header of any version, whatever is in its reserved fields.
pub open spec fn any_header_check(data: Seq<u8>) -> Result<(), Error> {
    if magic_check(data) is Err {
        magic_check(data)
    } else if data.len() < 0x100 {
        Err(Error::UnexpectedEnd)
    } else {
        Ok(())
    }
}

/// Whether `data` begins with a header, and if not, what is wrong with it first.
pub open spec fn header_check(data: Seq<u8>) -> Result<(), Error> {
    if magic_check(data) is Err {
        magic_check(data)
    } else if data.len() < 8 {
        Err(Error::UnexpectedEnd)
    } else if word(data, 4) != 0 {
        Err(Error::UnsupportedVersion)
    } else if data.len() < 12 {
        Err(Error::UnexpectedEnd)
    } else if word(data, 8) != 0 {
        Err(Error::ReservedNotZero)
    } else if data.len() < 0x88 {
        Err(Error::UnexpectedEnd)
    } else if exists|i: int| 0x6C <= i < 0x88 && data[i] != 0 {
        Err(Error::ReservedNotZero)
    } else if data.len() < 0x100 {
        Err(Error::UnexpectedEnd)
    } else {
        Ok(())
    }
}

/// The header that `data` begins with.
pub open spec fn header_of(data: Seq<u8>) -> HeaderView {
    HeaderView {
        flags: word(data, 0x0C),
        text_segment: segment_at(data, 0x10),
        text_align: word(data, 0x1C),
        rodata_segment: segment_at(data, 0x20),
        rodata_align: word(data, 0x2C),
        data_segment: segment_at(data, 0x30),
        bss_size: word(data, 0x3C),
        module_id: data.subrange(0x40, 0x60),
        text_compressed_size: word(data, 0x60),
        rodata_compressed_size: word(data, 0x64),
        data_compressed_size: word(data, 0x68),
        embed_offset: word(data, 0x88),
        embed_size: word(data, 0x8C),
        dynstr_offset: word(data, 0x90),
        dynstr_size: word(data, 0x94),
        dynsym_offset: word(data, 0x98),
        dynsym_size: word(data, 0x9C),
        text_hash: data.subrange(0xA0, 0xC0),
        rodata_hash: data.subrange(0xC0, 0xE0),
        data_hash: data.subrange(0xE0, 0x100),
    }
}

fn read_word(data: &[u8], pos: usize) -> (r: u32)
    requires
        pos + 4 <= data@.len(),
    ensures
        r == word(data@, pos as int),
{
    match read_u32(data, pos) {
        Ok(value) => value,
        Err(_) => 0,
    }
}

fn read_segment_metadata(data: &[u8], pos: usize) -> (r: NsoSegmentMetadata)
    requires
        pos + 12 <= data@.len() <= usize::MAX,
    ensures
        r == segment_at(data@, pos as int),
{
    NsoSegmentMetadata {
        file_offset: read_word(data, pos),
        mem_offset: read_word(data, pos + 4),
        mem_size: read_word(data, pos + 8),
    }
}

fn read_block(data: &[u8], pos: usize) -> (r: [u8; 0x20])
    requires
        pos + 0x20 <= data@.len() <= usize::MAX,
    ensures
        r@ == data@.subrange(pos as int, pos + 0x20),
{
    let mut block: [u8; 0x20] = [0u8; 0x20];
    let mut i: usize = 0;
    while i < 0x20
        invariant
            i <= 0x20,
            pos + 0x20 <= data@.len() <= usize::MAX,
            block@.len() == 0x20,
            forall|k: int| 0 <= k < i ==> block@[k] == data@[pos + k],
        decreases 0x20 - i,
    {
        block[i] = data[pos + i];
        i = i + 1;
    }
    assert(block@ =~= data@.subrange(pos as int, pos + 0x20));
    block
}

fn check_magic(data: &[u8]) -> (r: Result<(), Error>)
    ensures
        r == magic_check(data@),
{
    if data.len() < 4 {
        return Err(Error::UnexpectedEnd);
    }
    let is_magic: bool = data[0] == 0x4E && data[1] == 0x53 && data[2] == 0x4F && data[3]
        == 0x30;
    assert(is_magic == (data@.take(4) == seq![0x4Eu8, 0x53, 0x4F, 0x30])) by {
        let magic = seq![0x4Eu8, 0x53, 0x4F, 0x30];
        if is_magic {
            assert(data@.take(4) =~= magic);
        } else {
            assert(magic[0] == 0x4E && magic[1] == 0x53 && magic[2] == 0x4F && magic[3]
                == 0x30);
            assert(data@.take(4)[0] == data@[0] && data@.take(4)[1] == data@[1] && data@.take(
                4,
            )[2] == data@[2] && data@.take(4)[3] == data@[3]);
        }
    }
    if !is_magic {
        return Err(Error::BadMagic);
    }
    Ok(())
}

impl NsoHeader {
    /// Reads the header that `data` begins with.
    pub fn read(data: &[u8]) -> (r: Result<Self, Error>)
        ensures
            match r {
                Ok(header) => header_check(data@) is Ok && header@ == header_of(data@),
                Err(e) => header_check(data@) == Err::<(), Error>(e),
            },
    {
        check_magic(data)?;
        if data.len() < 8 {
            return Err(Error::UnexpectedEnd);
        }
        if read_word(data, 4) != 0 {
            return Err(Error::UnsupportedVersion);
        }
        if data.len() < 12 {
            return Err(Error::UnexpectedEnd);
        }
        if read_word(data, 8) != 0 {
            return Err(Error::ReservedNotZero);
        }
        if data.len() < 0x88 {
            return Err(Error::UnexpectedEnd);
        }
        let mut i: usize = 0x6C;
        while i < 0x88
            invariant
                0x6C <= i <= 0x88,
                data@.len() >= 0x88,
                magic_check(data@) is Ok,
                word(data@, 4) == 0,
                word(data@, 8) == 0,
                forall|k: int| 0x6C <= k < i ==> data@[k] == 0,
            decreases 0x88 - i,
        {
            if data[i] != 0 {
                return Err(Error::ReservedNotZero);
            }
            i = i + 1;
        }
        if data.len() < 0x100 {
            return Err(Error::UnexpectedEnd);
        }
        Ok(NsoHeader::read_fields(data))
    }

    /// Reads the header that `data` begins with, of any version and whatever is in its reserved
    /// fields.
    pub fn read_any(data: &[u8]) -> (r: Result<Self, Error>)
        ensures
            match r {
                Ok(header) => any_header_check(data@) is Ok && header@ == header_of(data@),
                Err(e) => any_header_check(data@) == Err::<(), Error>(e),
            },
    {
        check_magic(data)?;
        if data.len() < 0x100 {
            return Err(Error::UnexpectedEnd);
        }
        Ok(NsoHeader::read_fields(data))
    }

    fn read_fields(data: &[u8]) -> (r: Self)
        requires
            0x100 <= data@.len(),
        ensures
            r@ == header_of(data@),
    {
        let length: usize = data.len();
        NsoHeader {
            flags: read_word(data, 0x0C),
            text_segment: read_segment_metadata(data, 0x10),
            text_align: read_word(data, 0x1C),
            rodata_segment: read_segment_metadata(data, 0x20),
            rodata_align: read_word(data, 0x2C),
            data_segment: read_segment_metadata(data, 0x30),
            bss_size: read_word(data, 0x3C),
            module_id: read_block(data, 0x40),
            text_compressed_size: read_word(data, 0x60),
            rodata_compressed_size: read_word(data, 0x64),
            data_compressed_size: read_word(data, 0x68),
            embed_offset: read_word(data, 0x88),
            embed_size: read_word(data, 0x8C),
            dynstr_offset: read_word(data, 0x90),
            dynstr_size: read_word(data, 0x94),
            dynsym_offset: read_word(data, 0x98),
            dynsym_size: read_word(data, 0x9C),
            text_hash: read_block(data, 0xA0),
            rodata_hash: read_block(data, 0xC0),
            data_hash: read_block(data, 0xE0),
        }
    }

    pub fn is_segment_compressed(&self, segment: &NsoSegment) -> (r: bool)
        ensures
            r == self@.is_compressed(*segment),
    {
        match segment {
            NsoSegment::Text => self.flags & 1 != 0,
            NsoSegment::Rodata => self.flags & 2 != 0,
            NsoSegment::Data => self.flags & 4 != 0,
        }
    }

    pub fn get_segment_file_offset(&self, segment: &NsoSegment) -> (r: u32)
        ensures
            r == self@.segment(*segment).file_offset,
    {
        match segment {
            NsoSegment::Text => self.text_segment.file_offset,
            NsoSegment::Rodata => self.rodata_segment.file_offset,
            NsoSegment::Data => self.data_segment.file_offset,
        }
    }

    pub fn get_segment_file_size(&self, segment: &NsoSegment) -> (r: u32)
        ensures
            r == self@.file_size(*segment),
    {
        match segment {
            NsoSegment::Text => self.text_compressed_size,
            NsoSegment::Rodata => self.rodata_compressed_size,
            NsoSegment::Data => self.data_compressed_size,
        }
    }

    pub fn get_segment_mem_offset(&self, segment: &NsoSegment) -> (r: u32)
        ensures
            r == self@.segment(*segment).mem_offset,
    {
        match segment {
            NsoSegment::Text => self.text_segment.mem_offset,
            NsoSegment::Rodata => self.rodata_segment.mem_offset,
            NsoSegment::Data => self.data_segment.mem_offset,
        }
    }

    pub fn get_segment_mem_size(&self, segment: &NsoSegment) -> (r: u32)
        ensures
            r == self@.segment(*segment).mem_size,
    {
        match segment {
            NsoSegment::Text => self.text_segment.mem_size,
            NsoSegment::Rodata => self.rodata_segment.mem_size,
            NsoSegment::Data => self.data_segment.mem_size,
        }
    }

    pub fn get_segment_hash(&self, segment: &NsoSegment) -> (r: &[u8; 0x20])
        ensures
            r@ == self@.hash(*segment),
    {
        match segment {
            NsoSegment::Text => &self.text_hash,
            NsoSegment::Rodata => &self.rodata_hash,
            NsoSegment::Data => &self.data_hash,
        }
    }
}

/// The place of a segment among the three.
pub open spec fn segment_number(segment: NsoSegment) -> int {
    match segment {
        NsoSegment::Text => 0,
        NsoSegment::Rodata => 1,
        NsoSegment::Data => 2,
    }
}

/// The header describes the three segments one behind the other, in each of its parts: where they are,
/// how long they are in the file, what their hashes are, and which of them are compressed.
pub proof fn law_segments_are_described_in_order(data: Seq<u8>, segment: NsoSegment)
    ensures
        ({
            let header = header_of(data);
            let n = segment_number(segment);
            let metadata = header.segment(segment);
            let bit: int = if n == 0 {
                1
            } else if n == 1 {
                2
            } else {
                4
            };
            &&& metadata.file_offset == bytes::le_value(data, 16 * n + 16, 4)
            &&& metadata.mem_offset == bytes::le_value(data, 16 * n + 20, 4)
            &&& metadata.mem_size == bytes::le_value(data, 16 * n + 24, 4)
            &&& header.file_size(segment) == bytes::le_value(data, 4 * n + 96, 4)
            &&& header.hash(segment) == data.subrange(32 * n + 160, 32 * n + 192)
            &&& header.is_compressed(segment) <==> bytes::le_value(data, 12, 4) / bit % 2 == 1
            &&& header.offset(segment) == bytes::le_value(data, 16 * n + 20, 4)
            &&& header.end(segment) - header.offset(segment) == bytes::le_value(
                data,
                16 * n + 24,
                4,
            )
        }),
{
    let n = segment_number(segment);
    bytes::law_lowest_byte_comes_first(data, 16 * n + 16, 8);
    bytes::law_lowest_byte_comes_first(data, 16 * n + 20, 8);
    bytes::law_lowest_byte_comes_first(data, 16 * n + 24, 8);
    bytes::law_lowest_byte_comes_first(data, 4 * n + 96, 8);
    bytes::law_lowest_byte_comes_first(data, 12, 8);
    let flags = word(data, 12);
    assert((flags & 1 != 0) == (flags / 1 % 2 == 1)) by (bit_vector);
    assert((flags & 2 != 0) == (flags / 2 % 2 == 1)) by (bit_vector);
    assert((flags & 4 != 0) == (flags / 4 % 2 == 1)) by (bit_vector);
}

/// The other fields of the header.
pub proof fn law_headers_are_laid_out(data: Seq<u8>)
    ensures
        ({
            let header = header_of(data);
            &&& header.flags == bytes::le_value(data, 12, 4)
            &&& header.text_align == bytes::le_value(data, 28, 4)
            &&& header.rodata_align == bytes::le_value(data, 44, 4)
            &&& header.bss_size == bytes::le_value(data, 60, 4)
            &&& header.module_id == data.subrange(64, 96)
            &&& header.embed_offset == bytes::le_value(data, 136, 4)
            &&& header.embed_size == bytes::le_value(data, 140, 4)
            &&& header.dynstr_offset == bytes::le_value(data, 144, 4)
            &&& header.dynstr_size == bytes::le_value(data, 148, 4)
            &&& header.dynsym_offset == bytes::le_value(data, 152, 4)
            &&& header.dynsym_size == bytes::le_value(data, 156, 4)
        }),
{
    bytes::law_lowest_byte_comes_first(data, 12, 8);
    bytes::law_lowest_byte_comes_first(data, 28, 8);
    bytes::law_lowest_byte_comes_first(data, 44, 8);
    bytes::law_lowest_byte_comes_first(data, 60, 8);
    bytes::law_lowest_byte_comes_first(data, 136, 8);
    bytes::law_lowest_byte_comes_first(data, 140, 8);
    bytes::law_lowest_byte_comes_first(data, 144, 8);
    bytes::law_lowest_byte_comes_first(data, 148, 8);
    bytes::law_lowest_byte_comes_first(data, 152, 8);
    bytes::law_lowest_byte_comes_first(data, 156, 8);
}

/// A header has 256 bytes and starts with its mark. Unless it may be of any version, the version and
/// the reserved bytes are zero.
pub proof fn law_headers_are_marked(data: Seq<u8>)
    ensures
        any_header_check(data) is Ok <==> data.len() >= 256 && data[0] == 78 && data[1] == 83
            && data[2] == 79 && data[3] == 48,
        header_check(data) is Ok <==> any_header_check(data) is Ok && bytes::le_value(data, 4, 4)
            == 0 && bytes::le_value(data, 8, 4) == 0 && forall|i: int|
            108 <= i < 136 ==> #[trigger] data[i] == 0,
{
    bytes::law_lowest_byte_comes_first(data, 4, 8);
    bytes::law_lowest_byte_comes_first(data, 8, 8);
    if data.len() >= 4 {
        let start = data.take(4);
        assert(start[0] == data[0] && start[1] == data[1] && start[2] == data[2] && start[3]
            == data[3]);
        let mark = seq![0x4Eu8, 0x53, 0x4F, 0x30];
        assert(mark[0] == 78 && mark[1] == 83 && mark[2] == 79 && mark[3] == 48);
        if data[0] == 78 && data[1] == 83 && data[2] == 79 && data[3] == 48 {
            assert(start =~= mark);
        }
    }
}

/// What is wrong with a header that is refused.
pub proof fn law_headers_are_refused(data: Seq<u8>)
    ensures
        data.len() < 4 ==> header_check(data) == Err::<(), Error>(Error::UnexpectedEnd),
        data.len() >= 4 && !(data[0] == 78 && data[1] == 83 && data[2] == 79 && data[3] == 48)
            ==> header_check(data) == Err::<(), Error>(Error::BadMagic) && any_header_check(data)
            == Err::<(), Error>(Error::BadMagic),
        any_header_check(data) is Ok && bytes::le_value(data, 4, 4) != 0 ==> header_check(data)
            == Err::<(), Error>(Error::UnsupportedVersion),
        any_header_check(data) is Ok && bytes::le_value(data, 4, 4) == 0 && bytes::le_value(
            data,
            8,
            4,
        ) != 0 ==> header_check(data) == Err::<(), Error>(Error::ReservedNotZero),
        data.len() < 256 ==> header_check(data) is Err && any_header_check(data) is Err,
{
    bytes::law_lowest_byte_comes_first(data, 4, 8);
    bytes::law_lowest_byte_comes_first(data, 8, 8);
    law_headers_are_marked(data);
    if data.len() >= 4 {
        let start = data.take(4);
        assert(start[0] == data[0] && start[1] == data[1] && start[2] == data[2] && start[3]
            == data[3]);
        let mark = seq![0x4Eu8, 0x53, 0x4F, 0x30];
        assert(mark[0] == 78 && mark[1] == 83 && mark[2] == 79 && mark[3] == 48);
    }
}

} // verus!
