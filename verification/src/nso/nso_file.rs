//! An NSO file, unpacked to what it looks like in memory.

use lz4_flex::block::DecompressError;
use sha2::Digest;
use vstd::prelude::*;
use vstd::slice::*;

use crate::error::Error;
use crate::nso::nso_header::{self, HeaderView, NsoHeader, NsoSegment};

verus! {

/// `lz4_flex::block::DecompressError`, kept opaque.
#[verifier::external_type_specification]
#[verifier::external_body]
pub struct ExDecompressError(DecompressError);

/// What the LZ4 block `input` unpacks to in a buffer of `size` bytes, if it can be unpacked there.
pub uninterp spec fn lz4_block(input: Seq<u8>, size: nat) -> Option<Seq<u8>>;

/// The SHA-256 digest of `data`.
pub uninterp spec fn sha256(data: Seq<u8>) -> Seq<u8>;

/// `lz4_flex::decompress_into` on a new buffer of `size` bytes: how many bytes it has written, and
/// the buffer. What it writes is a function of the block and the size of the buffer.
#[verifier::external_body]
fn decompress(input: &[u8], size: usize) -> (r: Result<(usize, Vec<u8>), DecompressError>)
    ensures
        match r {
            Ok((written, buffer)) => buffer@.len() == size && written <= size && lz4_block(
                input@,
                size as nat,
            ) == Some(buffer@.take(written as int)),
            Err(_) => lz4_block(input@, size as nat) is None,
        },
{
    let mut buffer = vec![0; size];
    let written = lz4_flex::decompress_into(input, &mut buffer)?;
    Ok((written, buffer))
}

/// `sha2::Sha256::digest`: 32 bytes that are a function of the data.
#[verifier::external_body]
fn digest(data: &[u8]) -> (r: [u8; 0x20])
    ensures
        r@ == sha256(data@),
{
    sha2::Sha256::digest(data).into()
}

/// A binary as it is in memory.
pub struct NsoFile {
    pub header: NsoHeader,
    pub memory: Vec<u8>,
}

/// What an [`NsoFile`] says.
#[verifier::ext_equal]
pub struct FileView {
    pub header: HeaderView,
    pub memory: Seq<u8>,
}

impl View for NsoFile {
    type V = FileView;

    open spec fn view(&self) -> FileView {
        FileView { header: self.header@, memory: self.memory@ }
    }
}

/// A segment is taken if its digest is the one in the header.
pub open spec fn accepted(
    header: HeaderView,
    segment: NsoSegment,
    contents: Seq<u8>,
    contents_digest: Seq<u8>,
) -> Result<Seq<u8>, Error> {
    if contents_digest == header.hash(segment) {
        Ok(contents)
    } else {
        Err(Error::HashMismatch)
    }
}

/// The contents of a segment of the file `data`.
pub open spec fn segment_contents(data: Seq<u8>, header: HeaderView, segment: NsoSegment) -> Result<
    Seq<u8>,
    Error,
> {
    let start = header.segment(segment).file_offset as int;
    let end = start + header.file_size(segment);
    let size = header.segment(segment).mem_size as nat;
    if end > data.len() {
        Err(Error::UnexpectedEnd)
    } else if header.is_compressed(segment) {
        match lz4_block(data.subrange(start, end), size) {
            None => Err(Error::BadCompression),
            Some(contents) => if contents.len() != size {
                Err(Error::DecompressedSizeMismatch)
            } else {
                accepted(header, segment, contents, sha256(contents))
            },
        }
    } else {
        let contents = data.subrange(start, end);
        accepted(header, segment, contents, sha256(contents))
    }
}

/// `memory` with `contents` at `offset`.
pub open spec fn overlaid(memory: Seq<u8>, offset: int, contents: Seq<u8>) -> Seq<u8> {
    Seq::new(
        memory.len(),
        |i: int|
            if offset <= i < offset + contents.len() {
                contents[i - offset]
            } else {
                memory[i]
            },
    )
}

/// `contents` fits where the header puts the segment, in `size` bytes of memory.
pub open spec fn fits(
    header: HeaderView,
    segment: NsoSegment,
    contents: Seq<u8>,
    size: int,
) -> bool {
    contents.len() == header.segment(segment).mem_size && header.end(segment) <= size
}

/// The memory with the three segments in their places.
pub open spec fn assembled(
    header: HeaderView,
    text: Seq<u8>,
    rodata: Seq<u8>,
    data: Seq<u8>,
) -> Result<Seq<u8>, Error> {
    let size = header.end(NsoSegment::Data);
    if !(header.offset(NsoSegment::Text) < header.offset(NsoSegment::Rodata) && header.offset(
        NsoSegment::Rodata,
    ) < header.offset(NsoSegment::Data)) {
        Err(Error::SegmentsOutOfOrder)
    } else if size > usize::MAX || !(fits(header, NsoSegment::Text, text, size) && fits(
        header,
        NsoSegment::Rodata,
        rodata,
        size,
    ) && fits(header, NsoSegment::Data, data, size)) {
        Err(Error::OutOfBounds)
    } else {
        let empty = Seq::new(size as nat, |i: int| 0u8);
        let with_text = overlaid(empty, header.offset(NsoSegment::Text), text);
        let with_rodata = overlaid(with_text, header.offset(NsoSegment::Rodata), rodata);
        Ok(overlaid(with_rodata, header.offset(NsoSegment::Data), data))
    }
}

/// The binary in the file `data`.
pub open spec fn file_contents(data: Seq<u8>) -> Result<FileView, Error> {
    match nso_header::header_check(data) {
        Err(e) => Err(e),
        Ok(()) => {
            let header = nso_header::header_of(data);
            match segment_contents(data, header, NsoSegment::Text) {
                Err(e) => Err(e),
                Ok(text) => match segment_contents(data, header, NsoSegment::Rodata) {
                    Err(e) => Err(e),
                    Ok(rodata) => match segment_contents(data, header, NsoSegment::Data) {
                        Err(e) => Err(e),
                        Ok(contents) => match assembled(header, text, rodata, contents) {
                            Err(e) => Err(e),
                            Ok(memory) => Ok(FileView { header, memory }),
                        },
                    },
                },
            }
        },
    }
}

/// Segments that do not overlap are in memory unchanged, each where the header puts it.
pub proof fn law_segments_are_in_place(
    header: HeaderView,
    text: Seq<u8>,
    rodata: Seq<u8>,
    data: Seq<u8>,
)
    requires
        assembled(header, text, rodata, data) is Ok,
        header.end(NsoSegment::Text) <= header.offset(NsoSegment::Rodata),
        header.end(NsoSegment::Rodata) <= header.offset(NsoSegment::Data),
    ensures
        ({
            let memory = assembled(header, text, rodata, data)->Ok_0;
            &&& memory.len() == header.end(NsoSegment::Data)
            &&& memory.subrange(header.offset(NsoSegment::Text), header.end(NsoSegment::Text))
                == text
            &&& memory.subrange(header.offset(NsoSegment::Rodata), header.end(NsoSegment::Rodata))
                == rodata
            &&& memory.subrange(header.offset(NsoSegment::Data), header.end(NsoSegment::Data))
                == data
        }),
{
    let memory = assembled(header, text, rodata, data)->Ok_0;
    assert(memory.subrange(header.offset(NsoSegment::Text), header.end(NsoSegment::Text)) =~= text);
    assert(memory.subrange(header.offset(NsoSegment::Rodata), header.end(NsoSegment::Rodata))
        =~= rodata);
    assert(memory.subrange(header.offset(NsoSegment::Data), header.end(NsoSegment::Data)) =~= data);
}

fn overlay(memory: &mut Vec<u8>, offset: usize, contents: &Vec<u8>)
    requires
        offset + contents@.len() <= old(memory)@.len(),
    ensures
        final(memory)@ == overlaid(old(memory)@, offset as int, contents@),
{
    let ghost before = memory@;
    let length: usize = memory.len();
    let mut i: usize = 0;
    while i < contents.len()
        invariant
            i <= contents@.len(),
            offset + contents@.len() <= before.len(),
            memory@.len() == before.len() == length,
            forall|k: int|
                0 <= k < before.len() ==> #[trigger] memory@[k] == (if offset <= k < offset + i {
                    contents@[k - offset]
                } else {
                    before[k]
                }),
        decreases contents@.len() - i,
    {
        memory.set(offset + i, contents[i]);
        i = i + 1;
    }
    assert(memory@ =~= overlaid(before, offset as int, contents@));
}

/// Takes the contents of a segment if their digest is the one in the header.
pub fn accept_segment(
    header: &NsoHeader,
    segment: &NsoSegment,
    contents: Vec<u8>,
    contents_digest: &[u8; 0x20],
) -> (r: Result<Vec<u8>, Error>)
    ensures
        match r {
            Ok(v) => accepted(header@, *segment, contents@, contents_digest@) == Ok::<
                Seq<u8>,
                Error,
            >(v@),
            Err(e) => accepted(header@, *segment, contents@, contents_digest@) == Err::<
                Seq<u8>,
                Error,
            >(e),
        },
{
    let expected = header.get_segment_hash(segment);
    let mut i: usize = 0;
    while i < 0x20
        invariant
            i <= 0x20,
            expected@ == header@.hash(*segment),
            forall|k: int| 0 <= k < i ==> contents_digest@[k] == expected@[k],
        decreases 0x20 - i,
    {
        if contents_digest[i] != expected[i] {
            assert(contents_digest@[i as int] != expected@[i as int]);
            return Err(Error::HashMismatch);
        }
        i = i + 1;
    }
    assert(contents_digest@ =~= expected@);
    Ok(contents)
}

impl NsoFile {
    /// Unpacks the file `data`.
    pub fn new(data: &[u8]) -> (r: Result<Self, Error>)
        ensures
            match r {
                Ok(file) => file_contents(data@) == Ok::<FileView, Error>(file@),
                Err(e) => file_contents(data@) == Err::<FileView, Error>(e),
            },
    {
        let header = NsoHeader::read(data)?;
        let text_segment = Self::read_segment(&NsoSegment::Text, data, &header)?;
        let rodata_segment = Self::read_segment(&NsoSegment::Rodata, data, &header)?;
        let data_segment = Self::read_segment(&NsoSegment::Data, data, &header)?;
        Self::from_segments(header, text_segment, rodata_segment, data_segment)
    }

    /// Puts the contents of the three segments in their places.
    pub fn from_segments(
        header: NsoHeader,
        text_segment: Vec<u8>,
        rodata_segment: Vec<u8>,
        data_segment: Vec<u8>,
    ) -> (r: Result<Self, Error>)
        ensures
            match r {
                Ok(file) => file@.header == header@ && assembled(
                    header@,
                    text_segment@,
                    rodata_segment@,
                    data_segment@,
                ) == Ok::<Seq<u8>, Error>(file@.memory),
                Err(e) => assembled(
                    header@,
                    text_segment@,
                    rodata_segment@,
                    data_segment@,
                ) == Err::<Seq<u8>, Error>(e),
            },
    {
        let text_offset: u64 = header.get_segment_mem_offset(&NsoSegment::Text) as u64;
        let rodata_offset: u64 = header.get_segment_mem_offset(&NsoSegment::Rodata) as u64;
        let data_offset: u64 = header.get_segment_mem_offset(&NsoSegment::Data) as u64;
        if !(text_offset < rodata_offset && rodata_offset < data_offset) {
            return Err(Error::SegmentsOutOfOrder);
        }
        let text_size: u64 = header.get_segment_mem_size(&NsoSegment::Text) as u64;
        let rodata_size: u64 = header.get_segment_mem_size(&NsoSegment::Rodata) as u64;
        let data_size: u64 = header.get_segment_mem_size(&NsoSegment::Data) as u64;
        let size: u64 = data_offset + data_size;
        if size > usize::MAX as u64 || text_segment.len() as u64 != text_size || rodata_segment.len() as u64 != rodata_size
            || data_segment.len() as u64 != data_size || text_offset + text_size > size
            || rodata_offset + rodata_size > size {
            return Err(Error::OutOfBounds);
        }
        let mut memory: Vec<u8> = vec![0u8; size as usize];
        assert(memory@ =~= Seq::new(size as nat, |i: int| 0u8));
        overlay(&mut memory, text_offset as usize, &text_segment);
        overlay(&mut memory, rodata_offset as usize, &rodata_segment);
        overlay(&mut memory, data_offset as usize, &data_segment);
        Ok(NsoFile { header, memory })
    }

    pub(crate) fn read_segment(segment: &NsoSegment, data: &[u8], header: &NsoHeader) -> (r: Result<
        Vec<u8>,
        Error,
    >)
        ensures
            match r {
                Ok(contents) => segment_contents(data@, header@, *segment) == Ok::<Seq<u8>, Error>(
                    contents@,
                ),
                Err(e) => segment_contents(data@, header@, *segment) == Err::<Seq<u8>, Error>(e),
            },
    {
        let start: u64 = header.get_segment_file_offset(segment) as u64;
        let end: u64 = start + header.get_segment_file_size(segment) as u64;
        if end > data.len() as u64 {
            return Err(Error::UnexpectedEnd);
        }
        let buffer = slice_subrange(data, start as usize, end as usize);
        if header.is_segment_compressed(segment) {
            let size: usize = header.get_segment_mem_size(segment) as usize;
            let (written, contents) = match decompress(buffer, size) {
                Ok(unpacked) => unpacked,
                Err(_) => {
                    return Err(Error::BadCompression);
                },
            };
            if written != size {
                return Err(Error::DecompressedSizeMismatch);
            }
            assert(contents@.take(written as int) =~= contents@);
            let contents_digest = digest(contents.as_slice());
            accept_segment(header, segment, contents, &contents_digest)
        } else {
            let contents_digest = digest(buffer);
            accept_segment(header, segment, slice_to_vec(buffer), &contents_digest)
        }
    }

    /// Whether `address` belongs to `segment`.
    pub fn is_address_in_segment(&self, address: u64, segment: &NsoSegment) -> (r: bool)
        ensures
            r == (self@.header.offset(*segment) <= address < self@.header.end(*segment)),
    {
        let start: u64 = self.header.get_segment_mem_offset(segment) as u64;
        let end: u64 = start + self.header.get_segment_mem_size(segment) as u64;
        address >= start && address < end
    }
}

/// A segment is read from where the header says, is as long as it says there, and is taken only with
/// the digest that the header has for it.
pub proof fn law_segments_are_read_as_described(
    data: Seq<u8>,
    header: HeaderView,
    segment: NsoSegment,
)
    ensures
        ({
            let place = header.segment(segment).file_offset as int;
            let length = header.file_size(segment) as int;
            let packed = data.subrange(place, place + length);
            let contents = segment_contents(data, header, segment)->Ok_0;
            &&& segment_contents(data, header, segment) is Ok ==> {
                &&& place + length <= data.len()
                &&& sha256(contents) == header.hash(segment)
                &&& !header.is_compressed(segment) ==> contents == packed
                &&& header.is_compressed(segment) ==> contents.len() == header.segment(
                    segment,
                ).mem_size && lz4_block(packed, contents.len()) == Some(contents)
            }
            &&& place + length <= data.len() && !header.is_compressed(segment) && sha256(packed)
                == header.hash(segment) ==> segment_contents(data, header, segment) is Ok
            &&& place + length <= data.len() && header.is_compressed(segment) && lz4_block(
                packed,
                header.segment(segment).mem_size as nat,
            ) is Some && lz4_block(packed, header.segment(segment).mem_size as nat)->Some_0.len()
                == header.segment(segment).mem_size && sha256(
                lz4_block(packed, header.segment(segment).mem_size as nat)->Some_0,
            ) == header.hash(segment) ==> segment_contents(data, header, segment) is Ok
        }),
{
}

/// A byte of a loaded binary is that of the last segment which has its address, and zero where no
/// segment is.
pub proof fn law_memory_holds_the_segments(bytes: Seq<u8>, address: int)
    requires
        file_contents(bytes) is Ok,
        0 <= address < file_contents(bytes)->Ok_0.memory.len(),
    ensures
        ({
            let file = file_contents(bytes)->Ok_0;
            let (text, rodata, data) = (
                file.header.text_segment,
                file.header.rodata_segment,
                file.header.data_segment,
            );
            let byte = file.memory[address];
            &&& file.header == nso_header::header_of(bytes)
            &&& text.mem_offset < rodata.mem_offset < data.mem_offset
            &&& file.memory.len() == data.mem_offset + data.mem_size
            &&& data.mem_offset <= address ==> byte == segment_contents(
                bytes,
                file.header,
                NsoSegment::Data,
            )->Ok_0[address - data.mem_offset]
            &&& rodata.mem_offset <= address < data.mem_offset && address < rodata.mem_offset
                + rodata.mem_size ==> byte == segment_contents(
                bytes,
                file.header,
                NsoSegment::Rodata,
            )->Ok_0[address - rodata.mem_offset]
            &&& text.mem_offset <= address < rodata.mem_offset && address < text.mem_offset
                + text.mem_size ==> byte == segment_contents(
                bytes,
                file.header,
                NsoSegment::Text,
            )->Ok_0[address - text.mem_offset]
            &&& address < text.mem_offset ==> byte == 0
            &&& text.mem_offset + text.mem_size <= address < rodata.mem_offset ==> byte == 0
            &&& rodata.mem_offset + rodata.mem_size <= address < data.mem_offset && text.mem_offset
                + text.mem_size <= address ==> byte == 0
        }),
{
}

/// Segments are put in place if they come in order and each of them has the length that the header
/// gives it and ends before the memory does. That ends with the data.
pub proof fn law_segments_are_put_in_place(
    header: HeaderView,
    code: Seq<u8>,
    constants: Seq<u8>,
    data: Seq<u8>,
)
    ensures
        ({
            let (x, y, z) = (header.text_segment, header.rodata_segment, header.data_segment);
            let end = z.mem_offset + z.mem_size;
            let r = assembled(header, code, constants, data);
            let ordered = x.mem_offset < y.mem_offset < z.mem_offset;
            let fitting = code.len() == x.mem_size && constants.len() == y.mem_size && data.len()
                == z.mem_size && x.mem_offset + x.mem_size <= end && y.mem_offset + y.mem_size
                <= end && end <= usize::MAX;
            &&& ordered && fitting ==> r is Ok
            &&& !ordered ==> r == Err::<Seq<u8>, Error>(Error::SegmentsOutOfOrder)
            &&& ordered && !fitting ==> r == Err::<Seq<u8>, Error>(Error::OutOfBounds)
        }),
{
}

/// Why a segment is refused.
pub proof fn law_segments_are_refused(data: Seq<u8>, header: HeaderView, segment: NsoSegment)
    ensures
        ({
            let place = header.segment(segment).file_offset as int;
            let length = header.file_size(segment) as int;
            let packed = data.subrange(place, place + length);
            let size = header.segment(segment).mem_size as nat;
            let r = segment_contents(data, header, segment);
            &&& place + length > data.len() ==> r == Err::<Seq<u8>, Error>(Error::UnexpectedEnd)
            &&& place + length <= data.len() && header.is_compressed(segment) && lz4_block(
                packed,
                size,
            ) is None ==> r == Err::<Seq<u8>, Error>(Error::BadCompression)
            &&& place + length <= data.len() && header.is_compressed(segment) && lz4_block(
                packed,
                size,
            ) is Some && lz4_block(packed, size)->Some_0.len() != size ==> r == Err::<
                Seq<u8>,
                Error,
            >(Error::DecompressedSizeMismatch)
            &&& place + length <= data.len() && !header.is_compressed(segment) && sha256(packed)
                != header.hash(segment) ==> r == Err::<Seq<u8>, Error>(Error::HashMismatch)
        }),
{
}

} // verus!
