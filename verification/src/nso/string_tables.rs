//! Strings that end with a zero byte, and lists of numbers.

use std::collections::BTreeMap;
use vstd::prelude::*;
use vstd::slice::*;
use vstd::utf8::*;

use crate::bytes::{self, read_u32, read_u64};
use crate::error::Error;
use crate::nso::tables::{self, GnuHashTable, GnuHashTableView, HashTable, HashTableView};

verus! {

/// The text of `data`, with a replacement for what is not UTF-8.
pub uninterp spec fn lossy_text(data: Seq<u8>) -> Seq<char>;

/// `String::from_utf8_lossy`: bytes that are valid UTF-8 are taken as they are. What else becomes of
/// bytes is a function of them alone.
#[verifier::external_body]
fn decode_lossy(data: &[u8]) -> (r: String)
    ensures
        r@ == lossy_text(data@),
        valid_utf8(data@) ==> r@ == decode_utf8(data@),
{
    String::from_utf8_lossy(data).into_owned()
}

/// Where the string at `pos` ends: at the next zero byte, or at the end of the data.
pub open spec fn string_end(data: Seq<u8>, pos: int) -> int
    decreases data.len() - pos,
{
    if pos >= data.len() || data[pos] == 0 {
        pos
    } else {
        string_end(data, pos + 1)
    }
}

/// The bytes of the string at `pos`, without the zero byte that ends it.
pub open spec fn string_at(data: Seq<u8>, pos: int) -> Result<Seq<u8>, Error> {
    let end = string_end(data, pos);
    if 0 <= pos && end < data.len() {
        Ok(data.subrange(pos, end))
    } else {
        Err(Error::UnexpectedEnd)
    }
}

/// The end of a string is the first zero byte, or the end of the data.
pub proof fn lemma_string_end(data: Seq<u8>, pos: int)
    requires
        0 <= pos <= data.len(),
    ensures
        pos <= string_end(data, pos) <= data.len(),
        string_end(data, pos) < data.len() ==> data[string_end(data, pos)] == 0,
        forall|i: int| pos <= i < string_end(data, pos) ==> data[i] != 0,
    decreases data.len() - pos,
{
    if pos < data.len() && data[pos] != 0 {
        lemma_string_end(data, pos + 1);
    }
}

/// A string goes up to the first zero byte: it has none itself, and one follows it.
pub proof fn law_strings_end_at_zero(data: Seq<u8>, pos: int)
    requires
        0 <= pos <= data.len(),
        string_at(data, pos) is Ok,
    ensures
        ({
            let string = string_at(data, pos)->Ok_0;
            &&& forall|i: int| 0 <= i < string.len() ==> #[trigger] string[i] != 0
            &&& pos + string.len() < data.len()
            &&& data[pos + string.len()] == 0
            &&& data.subrange(pos, pos + string.len()) == string
        }),
{
    lemma_string_end(data, pos);
}

/// Finds the end of the string at `pos`.
fn find_string_end(data: &[u8], pos: usize) -> (r: Result<usize, Error>)
    requires
        pos <= data@.len(),
    ensures
        match r {
            Ok(end) => pos <= end < data@.len() && string_end(data@, pos as int) == end,
            Err(e) => string_end(data@, pos as int) >= data@.len() && e == Error::UnexpectedEnd,
        },
{
    let mut end: usize = pos;
    while end < data.len()
        invariant
            pos <= end <= data@.len(),
            string_end(data@, pos as int) == string_end(data@, end as int),
        decreases data@.len() - end,
    {
        if data[end] == 0 {
            return Ok(end);
        }
        end = end + 1;
    }
    Err(Error::UnexpectedEnd)
}

/// Reads the string at `pos`. Gives its text, its length in bytes, and where the next one begins.
pub fn read_string(data: &[u8], pos: usize) -> (r: Result<(String, usize, usize), Error>)
    requires
        pos <= data@.len(),
    ensures
        match r {
            Ok((text, length, next)) => string_at(data@, pos as int) matches Ok(string) && text@
                == lossy_text(string) && (valid_utf8(string) ==> text@ == decode_utf8(string))
                && length == string.len() && next == pos + length + 1 && next <= data@.len(),
            Err(e) => string_at(data@, pos as int) == Err::<Seq<u8>, Error>(e),
        },
{
    let total: usize = data.len();
    let end: usize = find_string_end(data, pos)?;
    assert(end < total);
    let string = slice_subrange(data, pos, end);
    Ok((decode_lossy(string), end - pos, end + 1))
}

/// `strings` with those that follow at `pos`, each at its offset.
pub open spec fn strings_from(data: Seq<u8>, pos: int, strings: Map<u64, Seq<char>>) -> Result<
    Map<u64, Seq<char>>,
    Error,
>
    decreases data.len() - pos,
{
    if pos >= data.len() {
        Ok(strings)
    } else {
        match string_at(data, pos) {
            Err(e) => Err(e),
            Ok(string) => {
                proof {
                    lemma_string_end(data, pos);
                }
                strings_from(
                    data,
                    pos + string.len() + 1,
                    strings.insert(pos as u64, lossy_text(string)),
                )
            },
        }
    }
}

/// The string table of `size` bytes at `offset` within the rodata segment.
pub open spec fn string_table(rodata_segment: Seq<u8>, offset: u32, size: u32) -> Result<
    Map<u64, Seq<char>>,
    Error,
> {
    if offset + size > rodata_segment.len() {
        Err(Error::OutOfBounds)
    } else {
        strings_from(
            rodata_segment.subrange(offset as int, offset + size),
            0,
            Map::empty(),
        )
    }
}

/// Reads the string table of `dynstr_size` bytes at `dynstr_offset` within the rodata segment.
pub fn parse_dynamic_string_table(
    rodata_segment: &[u8],
    dynstr_offset: u32,
    dynstr_size: u32,
) -> (r: Result<BTreeMap<u64, String>, Error>)
    ensures
        match r {
            Ok(strings) => string_table(rodata_segment@, dynstr_offset, dynstr_size) == Ok::<
                Map<u64, Seq<char>>,
                Error,
            >(tables::string_views(strings@)),
            Err(e) => string_table(rodata_segment@, dynstr_offset, dynstr_size) == Err::<
                Map<u64, Seq<char>>,
                Error,
            >(e),
        },
{
    let end: u64 = dynstr_offset as u64 + dynstr_size as u64;
    if end > rodata_segment.len() as u64 {
        return Err(Error::OutOfBounds);
    }
    let data = slice_subrange(rodata_segment, dynstr_offset as usize, end as usize);
    let mut strings: BTreeMap<u64, String> = BTreeMap::new();
    let ghost all = strings_from(data@, 0, Map::empty());
    let mut pos: usize = 0;
    assert(tables::string_views(strings@) =~= Map::empty());
    while pos < data.len()
        invariant
            pos <= data@.len(),
            all == string_table(rodata_segment@, dynstr_offset, dynstr_size),
            all == strings_from(data@, pos as int, tables::string_views(strings@)),
        decreases data@.len() - pos,
    {
        let (text, _, next) = read_string(data, pos)?;
        let ghost before = tables::string_views(strings@);
        let ghost characters = text@;
        strings.insert(pos as u64, text);
        assert(tables::string_views(strings@) =~= before.insert(pos as u64, characters));
        pos = next;
    }
    Ok(strings)
}

/// `strings` with those that follow at `pos`, each with its address when the data is at `offset`.
pub open spec fn embedded_from(
    data: Seq<u8>,
    offset: u64,
    pos: int,
    strings: Seq<(u64, Seq<char>)>,
) -> Result<Seq<(u64, Seq<char>)>, Error>
    decreases data.len() - pos,
{
    if pos >= data.len() {
        Ok(strings)
    } else {
        match string_at(data, pos) {
            Err(e) => Err(e),
            Ok(string) => {
                proof {
                    lemma_string_end(data, pos);
                }
                embedded_from(
                    data,
                    offset,
                    pos + string.len() + 1,
                    strings.push(((offset + pos) as u64, lossy_text(string))),
                )
            },
        }
    }
}

/// The strings of the `size` bytes at `offset`.
pub open spec fn embedded_strings(memory: Seq<u8>, offset: u64, size: u64) -> Result<
    Seq<(u64, Seq<char>)>,
    Error,
> {
    if offset + size > memory.len() {
        Err(Error::OutOfBounds)
    } else {
        embedded_from(
            memory.subrange(offset as int, offset + size),
            offset,
            0,
            Seq::empty(),
        )
    }
}

/// Strings with their addresses, by their text.
pub open spec fn embedded_views(strings: Seq<(u64, String)>) -> Seq<(u64, Seq<char>)> {
    strings.map_values(|entry: (u64, String)| (entry.0, entry.1@))
}

/// Reads the strings of the `embed_size` bytes at `embed_offset`.
pub fn parse_embed(memory: &[u8], embed_offset: u64, embed_size: u64) -> (r: Result<
    Vec<(u64, String)>,
    Error,
>)
    ensures
        match r {
            Ok(strings) => embedded_strings(memory@, embed_offset, embed_size) == Ok::<
                Seq<(u64, Seq<char>)>,
                Error,
            >(embedded_views(strings@)),
            Err(e) => embedded_strings(memory@, embed_offset, embed_size) == Err::<
                Seq<(u64, Seq<char>)>,
                Error,
            >(e),
        },
{
    let length: u64 = memory.len() as u64;
    if embed_offset > length || embed_size > length - embed_offset {
        return Err(Error::OutOfBounds);
    }
    let data = slice_subrange(
        memory,
        embed_offset as usize,
        (embed_offset + embed_size) as usize,
    );
    let mut strings: Vec<(u64, String)> = Vec::new();
    let ghost all = embedded_from(data@, embed_offset, 0, Seq::empty());
    let mut pos: usize = 0;
    assert(embedded_views(strings@) =~= Seq::empty());
    while pos < data.len()
        invariant
            pos <= data@.len(),
            data@.len() == embed_size,
            embed_offset + embed_size <= u64::MAX,
            all == embedded_strings(memory@, embed_offset, embed_size),
            all == embedded_from(data@, embed_offset, pos as int, embedded_views(strings@)),
        decreases data@.len() - pos,
    {
        let (text, _, next) = read_string(data, pos)?;
        let ghost before = embedded_views(strings@);
        let ghost entry = ((embed_offset + pos) as u64, text@);
        strings.push((embed_offset + pos as u64, text));
        assert(embedded_views(strings@) =~= before.push(entry));
        pos = next;
    }
    Ok(strings)
}

/// The build string that the rodata segment begins with: four zero bytes, its length, the string.
pub open spec fn build_string(data: Seq<u8>) -> Result<Seq<u8>, Error> {
    if data.len() < 4 {
        Err(Error::UnexpectedEnd)
    } else if data.take(4) != seq![0u8, 0, 0, 0] {
        Err(Error::BadBuildString)
    } else if data.len() < 8 {
        Err(Error::UnexpectedEnd)
    } else {
        match string_at(data, 8) {
            Err(e) => Err(e),
            Ok(string) => if string.len() % 0x1_0000_0000 != tables::u32_at(data, 4) {
                Err(Error::BadBuildString)
            } else {
                Ok(string)
            },
        }
    }
}

/// Reads the build string. Gives its text and the number of bytes that it takes up.
pub fn parse_buildstr(data: &[u8]) -> (r: Result<(String, usize), Error>)
    ensures
        match r {
            Ok((text, size)) => build_string(data@) matches Ok(string) && text@ == lossy_text(
                string,
            ) && size == string.len() + 9 && size <= data@.len(),
            Err(e) => build_string(data@) == Err::<Seq<u8>, Error>(e),
        },
{
    if data.len() < 4 {
        return Err(Error::UnexpectedEnd);
    }
    let has_zeros: bool = data[0] == 0 && data[1] == 0 && data[2] == 0 && data[3] == 0;
    assert(has_zeros == (data@.take(4) == seq![0u8, 0, 0, 0])) by {
        let zeros = seq![0u8, 0, 0, 0];
        let found = data@.take(4);
        if has_zeros {
            assert(found =~= zeros);
        } else {
            assert(found[0] == data@[0] && found[1] == data@[1] && found[2] == data@[2] && found[3]
                == data@[3]);
        }
    }
    if !has_zeros {
        return Err(Error::BadBuildString);
    }
    if data.len() < 8 {
        return Err(Error::UnexpectedEnd);
    }
    let expected: u32 = read_u32(data, 4)?;
    let (text, length, next) = read_string(data, 8)?;
    if length as u64 % 0x1_0000_0000 != expected as u64 {
        return Err(Error::BadBuildString);
    }
    Ok((text, next))
}

/// `count` 64-bit numbers at `offset`.
pub open spec fn u64s_at(memory: Seq<u8>, offset: int, count: int) -> Seq<u64> {
    Seq::new(count as nat, |i: int| tables::u64_at(memory, offset + i * 8))
}

/// `count` 32-bit numbers at `offset`.
pub open spec fn u32s_at(memory: Seq<u8>, offset: int, count: int) -> Seq<u32> {
    Seq::new(count as nat, |i: int| tables::u32_at(memory, offset + i * 4))
}

/// The init array of `count` entries at `offset`.
pub open spec fn init_array_at(memory: Seq<u8>, offset: u64, count: u64) -> Result<
    Seq<u64>,
    Error,
> {
    if offset + count * 8 > memory.len() {
        Err(Error::OutOfBounds)
    } else {
        Ok(u64s_at(memory, offset as int, count as int))
    }
}

fn read_u64s(memory: &[u8], offset: usize, count: usize) -> (r: Vec<u64>)
    requires
        offset + count * 8 <= memory@.len() <= usize::MAX,
    ensures
        r@ == u64s_at(memory@, offset as int, count as int),
{
    let mut numbers: Vec<u64> = Vec::new();
    let mut i: usize = 0;
    while i < count
        invariant
            i <= count,
            offset + count * 8 <= memory@.len() <= usize::MAX,
            numbers@.len() == i,
            forall|k: int|
                0 <= k < i ==> #[trigger] numbers@[k] == tables::u64_at(memory@, offset + k * 8),
        decreases count - i,
    {
        let number: u64 = match read_u64(memory, offset + i * 8) {
            Ok(number) => number,
            Err(_) => 0,
        };
        numbers.push(number);
        i = i + 1;
    }
    assert(numbers@ =~= u64s_at(memory@, offset as int, count as int));
    numbers
}

fn read_u32s(memory: &[u8], offset: usize, count: usize) -> (r: Vec<u32>)
    requires
        offset + count * 4 <= memory@.len() <= usize::MAX,
    ensures
        r@ == u32s_at(memory@, offset as int, count as int),
{
    let mut numbers: Vec<u32> = Vec::new();
    let mut i: usize = 0;
    while i < count
        invariant
            i <= count,
            offset + count * 4 <= memory@.len() <= usize::MAX,
            numbers@.len() == i,
            forall|k: int|
                0 <= k < i ==> #[trigger] numbers@[k] == tables::u32_at(memory@, offset + k * 4),
        decreases count - i,
    {
        let number: u32 = match read_u32(memory, offset + i * 4) {
            Ok(number) => number,
            Err(_) => 0,
        };
        numbers.push(number);
        i = i + 1;
    }
    assert(numbers@ =~= u32s_at(memory@, offset as int, count as int));
    numbers
}

/// Reads the init array of `count` entries at `init_array_offset`.
pub fn parse_init_array(memory: &[u8], init_array_offset: u64, count: u64) -> (r: Result<
    Vec<u64>,
    Error,
>)
    ensures
        match r {
            Ok(array) => init_array_at(memory@, init_array_offset, count) == Ok::<Seq<u64>, Error>(
                array@,
            ),
            Err(e) => init_array_at(memory@, init_array_offset, count) == Err::<Seq<u64>, Error>(
                e,
            ),
        },
{
    let length: u64 = memory.len() as u64;
    if init_array_offset > length || count > (length - init_array_offset) / 8 {
        return Err(Error::OutOfBounds);
    }
    Ok(read_u64s(memory, init_array_offset as usize, count as usize))
}

/// The hash table at `offset`: the two counts, the buckets, the chains.
pub open spec fn hash_table_at(memory: Seq<u8>, offset: u32) -> Result<HashTableView, Error> {
    if offset > memory.len() {
        Err(Error::OutOfBounds)
    } else if offset + 8 > memory.len() {
        Err(Error::UnexpectedEnd)
    } else {
        let nbucket = tables::u32_at(memory, offset as int);
        let nchain = tables::u32_at(memory, offset + 4);
        if offset + 8 + 4 * nbucket + 4 * nchain > memory.len() {
            Err(Error::UnexpectedEnd)
        } else {
            Ok(
                HashTableView {
                    nbucket,
                    nchain,
                    buckets: u32s_at(memory, offset + 8, nbucket as int),
                    chains: u32s_at(memory, offset + 8 + 4 * nbucket, nchain as int),
                },
            )
        }
    }
}

/// Reads the hash table at `hash_offset`.
pub fn parse_hash_table(memory: &[u8], hash_offset: u32) -> (r: Result<HashTable, Error>)
    ensures
        match r {
            Ok(table) => hash_table_at(memory@, hash_offset) == Ok::<HashTableView, Error>(
                table@,
            ),
            Err(e) => hash_table_at(memory@, hash_offset) == Err::<HashTableView, Error>(e),
        },
{
    let length: u64 = memory.len() as u64;
    let offset: u64 = hash_offset as u64;
    if offset > length {
        return Err(Error::OutOfBounds);
    }
    if offset + 8 > length {
        return Err(Error::UnexpectedEnd);
    }
    let nbucket: u32 = read_u32(memory, offset as usize)?;
    let nchain: u32 = read_u32(memory, (offset + 4) as usize)?;
    let chains_offset: u64 = offset + 8 + 4 * nbucket as u64;
    if chains_offset + 4 * nchain as u64 > length {
        return Err(Error::UnexpectedEnd);
    }
    let buckets = read_u32s(memory, (offset + 8) as usize, nbucket as usize);
    let chains = read_u32s(memory, chains_offset as usize, nchain as usize);
    Ok(HashTable { nbucket, nchain, buckets, chains })
}

/// `chains` with the numbers that follow at `pos`, up to a zero.
pub open spec fn chains_from(memory: Seq<u8>, pos: int, chains: Seq<u32>) -> Result<
    Seq<u32>,
    Error,
>
    decreases memory.len() - pos,
{
    if pos + 4 > memory.len() {
        Err(Error::UnexpectedEnd)
    } else if tables::u32_at(memory, pos) == 0 {
        Ok(chains)
    } else {
        chains_from(memory, pos + 4, chains.push(tables::u32_at(memory, pos)))
    }
}

/// The GNU hash table at `offset`: four numbers, the bloom filter, the buckets, and the chains, which
/// end with a zero.
pub open spec fn gnu_hash_table_at(memory: Seq<u8>, offset: u32) -> Result<
    GnuHashTableView,
    Error,
> {
    if offset > memory.len() {
        Err(Error::OutOfBounds)
    } else if offset + 16 > memory.len() {
        Err(Error::UnexpectedEnd)
    } else {
        let nbuckets = tables::u32_at(memory, offset as int);
        let mask = tables::u32_at(memory, offset + 8);
        let buckets_offset = offset + 16 + 8 * mask;
        let chains_offset = buckets_offset + 4 * nbuckets;
        if chains_offset > memory.len() {
            Err(Error::UnexpectedEnd)
        } else {
            match chains_from(memory, chains_offset, Seq::empty()) {
                Err(e) => Err(e),
                Ok(chains) => Ok(
                    GnuHashTableView {
                        nbuckets,
                        sym_idx: tables::u32_at(memory, offset + 4),
                        mask,
                        shift: tables::u32_at(memory, offset + 12),
                        bloom_filter: u64s_at(memory, offset + 16, mask as int),
                        buckets: u32s_at(memory, buckets_offset, nbuckets as int),
                        chains,
                    },
                ),
            }
        }
    }
}

/// Reads the GNU hash table at `gnu_hash_offset`.
pub fn parse_gnu_hash_table(memory: &[u8], gnu_hash_offset: u32) -> (r: Result<
    GnuHashTable,
    Error,
>)
    ensures
        match r {
            Ok(table) => gnu_hash_table_at(memory@, gnu_hash_offset) == Ok::<
                GnuHashTableView,
                Error,
            >(table@) && table@.chains.len() * 4 <= memory@.len(),
            Err(e) => gnu_hash_table_at(memory@, gnu_hash_offset) == Err::<
                GnuHashTableView,
                Error,
            >(e),
        },
{
    let length: u64 = memory.len() as u64;
    let offset: u64 = gnu_hash_offset as u64;
    if offset > length {
        return Err(Error::OutOfBounds);
    }
    if offset + 16 > length {
        return Err(Error::UnexpectedEnd);
    }
    let nbuckets: u32 = read_u32(memory, offset as usize)?;
    let sym_idx: u32 = read_u32(memory, (offset + 4) as usize)?;
    let mask: u32 = read_u32(memory, (offset + 8) as usize)?;
    let shift: u32 = read_u32(memory, (offset + 12) as usize)?;
    let buckets_offset: u64 = offset + 16 + 8 * mask as u64;
    let chains_offset: u64 = buckets_offset + 4 * nbuckets as u64;
    if chains_offset > length {
        return Err(Error::UnexpectedEnd);
    }
    let bloom_filter = read_u64s(memory, (offset + 16) as usize, mask as usize);
    let buckets = read_u32s(memory, buckets_offset as usize, nbuckets as usize);
    let mut chains: Vec<u32> = Vec::new();
    let mut pos: usize = chains_offset as usize;
    let ghost all = chains_from(memory@, chains_offset as int, Seq::empty());
    assert(chains@ =~= Seq::empty());
    loop
        invariant
            length == memory@.len() <= usize::MAX,
            chains_offset <= pos <= length,
            chains@.len() * 4 == pos - chains_offset,
            all == chains_from(memory@, chains_offset as int, Seq::empty()),
            all == chains_from(memory@, pos as int, chains@),
            offset == gnu_hash_offset,
            offset + 16 <= length,
            nbuckets == tables::u32_at(memory@, offset as int),
            mask == tables::u32_at(memory@, offset + 8),
            chains_offset == offset + 16 + 8 * mask + 4 * nbuckets,
        ensures
            all == Ok::<Seq<u32>, Error>(chains@),
            chains@.len() * 4 <= length,
        decreases length - pos,
    {
        if length - (pos as u64) < 4 {
            return Err(Error::UnexpectedEnd);
        }
        let value: u32 = read_u32(memory, pos)?;
        if value == 0 {
            break;
        }
        chains.push(value);
        pos = pos + 4;
    }
    Ok(GnuHashTable { nbuckets, sym_idx, mask, shift, bloom_filter, buckets, chains })
}

/// A GNU hash table is laid out without gaps: four numbers, as many words of the bloom filter as the
/// mask says, as many buckets as the first number says, and the chains up to a zero. Writing the parts
/// in this order gives the bytes of the table back.
pub proof fn law_gnu_hash_tables_are_laid_out(memory: Seq<u8>, offset: u32, k: int)
    requires
        gnu_hash_table_at(memory, offset) is Ok,
    ensures
        ({
            let t = gnu_hash_table_at(memory, offset)->Ok_0;
            let filter = offset + 16;
            let lists = filter + 8 * t.bloom_filter.len();
            let tail = lists + 4 * t.buckets.len();
            &&& t.bloom_filter.len() == t.mask
            &&& t.buckets.len() == t.nbuckets
            &&& bytes::le_value(memory, offset as int, 4) == t.nbuckets
            &&& bytes::le_value(memory, offset + 4, 4) == t.sym_idx
            &&& bytes::le_value(memory, offset + 8, 4) == t.mask
            &&& bytes::le_value(memory, offset + 12, 4) == t.shift
            &&& 0 <= k < t.bloom_filter.len() ==> bytes::le_value(memory, filter + 8 * k, 8)
                == t.bloom_filter[k]
            &&& 0 <= k < t.buckets.len() ==> bytes::le_value(memory, lists + 4 * k, 4)
                == t.buckets[k]
            &&& 0 <= k < t.chains.len() ==> bytes::le_value(memory, tail + 4 * k, 4) == t.chains[k]
                && t.chains[k] != 0
            &&& bytes::le_value(memory, tail + 4 * t.chains.len(), 4) == 0
            &&& tail + 4 * t.chains.len() + 4 <= memory.len()
        }),
{
    let t = gnu_hash_table_at(memory, offset)->Ok_0;
    let filter = offset + 16;
    let lists = filter + 8 * t.mask;
    let tail = lists + 4 * t.nbuckets;
    tables::lemma_words(memory, offset as int);
    tables::lemma_words(memory, offset + 4);
    tables::lemma_words(memory, offset + 8);
    tables::lemma_words(memory, offset + 12);
    tables::lemma_words(memory, filter + k * 8);
    tables::lemma_words(memory, lists + k * 4);
    lemma_chains(memory, tail, Seq::empty(), k);
    tables::lemma_words(memory, tail + 4 * t.chains.len());
}

proof fn lemma_chains(memory: Seq<u8>, pos: int, known: Seq<u32>, k: int)
    requires
        chains_from(memory, pos, known) is Ok,
    ensures
        ({
            let all = chains_from(memory, pos, known)->Ok_0;
            let start = pos - 4 * known.len();
            &&& all.len() >= known.len()
            &&& 0 <= k < known.len() ==> all[k] == known[k]
            &&& known.len() <= k < all.len() ==> all[k] == bytes::le_value(memory, start + 4 * k, 4)
                && all[k] != 0
            &&& bytes::le_value(memory, start + 4 * all.len(), 4) == 0
            &&& start + 4 * all.len() + 4 <= memory.len()
        }),
    decreases memory.len() - pos,
{
    tables::lemma_words(memory, pos);
    if tables::u32_at(memory, pos) != 0 {
        lemma_chains(memory, pos + 4, known.push(tables::u32_at(memory, pos)), k);
    }
}

/// A hash table is laid out without gaps: the numbers of buckets and chains, the buckets, the chains.
pub proof fn law_hash_tables_are_laid_out(memory: Seq<u8>, offset: u32, k: int)
    requires
        hash_table_at(memory, offset) is Ok,
    ensures
        ({
            let t = hash_table_at(memory, offset)->Ok_0;
            let lists = offset + 8;
            let tail = lists + 4 * t.buckets.len();
            &&& bytes::le_value(memory, offset as int, 4) == t.nbucket
            &&& bytes::le_value(memory, offset + 4, 4) == t.nchain
            &&& t.buckets.len() == t.nbucket
            &&& t.chains.len() == t.nchain
            &&& tail + 4 * t.chains.len() <= memory.len()
            &&& 0 <= k < t.buckets.len() ==> bytes::le_value(memory, lists + 4 * k, 4)
                == t.buckets[k]
            &&& 0 <= k < t.chains.len() ==> bytes::le_value(memory, tail + 4 * k, 4) == t.chains[k]
        }),
{
    let t = hash_table_at(memory, offset)->Ok_0;
    tables::lemma_words(memory, offset as int);
    tables::lemma_words(memory, offset + 4);
    tables::lemma_words(memory, offset + 8 + k * 4);
    tables::lemma_words(memory, offset + 8 + 4 * t.nbucket + k * 4);
}

/// The init array has its entries one behind the other, eight bytes each.
pub proof fn law_init_arrays_are_laid_out(memory: Seq<u8>, offset: u64, count: u64, k: int)
    ensures
        init_array_at(memory, offset, count) is Ok <==> offset + 8 * count <= memory.len(),
        init_array_at(memory, offset, count) matches Ok(functions) ==> functions.len() == count && (
        0 <= k < count ==> functions[k] == bytes::le_value(memory, offset + 8 * k, 8)),
{
    tables::lemma_words(memory, offset + k * 8);
}

/// A string of the table starts at `k`: at the front or behind a zero byte.
pub open spec fn starts_string(data: Seq<u8>, k: int) -> bool {
    0 <= k < data.len() && (k == 0 || data[k - 1] == 0)
}

proof fn lemma_strings_found(data: Seq<u8>, pos: int, known: Map<u64, Seq<char>>, k: u64)
    requires
        strings_from(data, pos, known) is Ok,
        0 <= pos <= data.len() <= u64::MAX,
        pos == 0 || data[pos - 1] == 0,
    ensures
        ({
            let all = strings_from(data, pos, known)->Ok_0;
            &&& all.contains_key(k) <==> known.contains_key(k) || (pos <= k && starts_string(
                data,
                k as int,
            ))
            &&& pos <= k && starts_string(data, k as int) ==> string_at(data, k as int) is Ok
                && all[k] == lossy_text(string_at(data, k as int)->Ok_0)
            &&& k < pos && known.contains_key(k) ==> all[k] == known[k]
        }),
    decreases data.len() - pos,
{
    if pos < data.len() {
        let string = string_at(data, pos)->Ok_0;
        lemma_string_end(data, pos);
        law_strings_end_at_zero(data, pos);
        let next = pos + string.len() + 1;
        lemma_strings_found(data, next, known.insert(pos as u64, lossy_text(string)), k);
        if pos < k < next && starts_string(data, k as int) {
            assert(string[k - 1 - pos] == data[k - 1]);
        }
    }
}

/// The string table has a string exactly where one starts, and its text is that of the bytes up to the
/// next zero byte.
pub proof fn law_string_tables_hold_all_strings(
    rodata_segment: Seq<u8>,
    offset: u32,
    size: u32,
    k: u64,
)
    requires
        string_table(rodata_segment, offset, size) is Ok,
    ensures
        offset + size <= rodata_segment.len(),
        ({
            let data = rodata_segment.subrange(offset as int, offset + size);
            let all = string_table(rodata_segment, offset, size)->Ok_0;
            &&& all.contains_key(k) <==> starts_string(data, k as int)
            &&& all.contains_key(k) ==> string_at(data, k as int) is Ok && all[k] == lossy_text(
                string_at(data, k as int)->Ok_0,
            )
        }),
{
    lemma_strings_found(
        rodata_segment.subrange(offset as int, offset + size),
        0,
        Map::empty(),
        k,
    );
}

/// `entry` is the string that starts at `at`, with its address.
pub open spec fn is_string_entry(
    data: Seq<u8>,
    offset: u64,
    at: int,
    entry: (u64, Seq<char>),
) -> bool {
    starts_string(data, at) && string_at(data, at) is Ok && entry.0 == (offset + at) as u64
        && entry.1 == lossy_text(string_at(data, at)->Ok_0)
}

proof fn lemma_embedded_found(
    data: Seq<u8>,
    offset: u64,
    pos: int,
    known: Seq<(u64, Seq<char>)>,
    k: int,
    i: int,
)
    requires
        embedded_from(data, offset, pos, known) is Ok,
        0 <= pos <= data.len(),
        pos == 0 || data[pos - 1] == 0,
    ensures
        ({
            let all = embedded_from(data, offset, pos, known)->Ok_0;
            &&& all.len() >= known.len()
            &&& 0 <= i < known.len() ==> all[i] == known[i]
            &&& pos <= k && starts_string(data, k) ==> exists|n: int|
                known.len() <= n < all.len() && #[trigger] is_string_entry(data, offset, k, all[n])
            &&& known.len() <= i < all.len() ==> exists|at: int|
                pos <= at && #[trigger] is_string_entry(data, offset, at, all[i])
        }),
    decreases data.len() - pos,
{
    if pos < data.len() {
        let string = string_at(data, pos)->Ok_0;
        lemma_string_end(data, pos);
        law_strings_end_at_zero(data, pos);
        let next = pos + string.len() + 1;
        let entry = ((offset + pos) as u64, lossy_text(string));
        let more = known.push(entry);
        lemma_embedded_found(data, offset, next, more, k, i);
        lemma_embedded_found(data, offset, next, more, k, known.len() as int);
        let all = embedded_from(data, offset, pos, known)->Ok_0;
        assert(starts_string(data, pos));
        assert(is_string_entry(data, offset, pos, all[known.len() as int]));
        if pos < k < next && starts_string(data, k) {
            assert(string[k - 1 - pos] == data[k - 1]);
        }
        if next <= k && starts_string(data, k) {
            let n = choose|n: int|
                more.len() <= n < all.len() && #[trigger] is_string_entry(data, offset, k, all[n]);
            assert(is_string_entry(data, offset, k, all[n]));
        }
        if more.len() <= i < all.len() {
            let at = choose|at: int|
                next <= at && #[trigger] is_string_entry(data, offset, at, all[i]);
            assert(is_string_entry(data, offset, at, all[i]));
        }
    }
}

/// The embedded strings are those that start in their section, each with its address.
pub proof fn law_embedded_strings_are_all_found(
    memory: Seq<u8>,
    offset: u64,
    size: u64,
    k: int,
    i: int,
)
    requires
        embedded_strings(memory, offset, size) is Ok,
    ensures
        offset + size <= memory.len(),
        ({
            let data = memory.subrange(offset as int, offset + size);
            let all = embedded_strings(memory, offset, size)->Ok_0;
            &&& starts_string(data, k) ==> exists|n: int|
                0 <= n < all.len() && #[trigger] is_string_entry(data, offset, k, all[n])
            &&& 0 <= i < all.len() ==> exists|at: int| #[trigger]
                is_string_entry(data, offset, at, all[i])
        }),
{
    let data = memory.subrange(offset as int, offset + size);
    lemma_embedded_found(data, offset, 0, Seq::empty(), k, i);
    let all = embedded_strings(memory, offset, size)->Ok_0;
    if 0 <= i < all.len() {
        let at = choose|at: int| 0 <= at && #[trigger] is_string_entry(data, offset, at, all[i]);
        assert(is_string_entry(data, offset, at, all[i]));
    }
}

/// The build string follows four zero bytes and its own length, and ends with a zero byte.
pub proof fn law_build_strings_have_their_length(data: Seq<u8>)
    requires
        build_string(data) is Ok,
    ensures
        ({
            let string = build_string(data)->Ok_0;
            &&& data[0] == 0 && data[1] == 0 && data[2] == 0 && data[3] == 0
            &&& 8 + string.len() < data.len()
            &&& string == data.subrange(8, string.len() + 8 as int)
            &&& data[string.len() + 8 as int] == 0
            &&& string.len() <= u32::MAX ==> bytes::le_value(data, 4, 4) == string.len()
        }),
{
    law_strings_end_at_zero(data, 8);
    tables::lemma_words(data, 4);
    assert(data.take(4)[0] == data[0] && data.take(4)[1] == data[1] && data.take(4)[2] == data[2]
        && data.take(4)[3] == data[3]);
}

/// Hash tables are read where all of their bytes are in memory.
pub proof fn law_hash_tables_need_their_bytes(memory: Seq<u8>, offset: u32)
    ensures
        ({
            let buckets = bytes::le_value(memory, offset as int, 4);
            let chains = bytes::le_value(memory, offset + 4, 4);
            let filter = bytes::le_value(memory, offset + 8, 4);
            let r = hash_table_at(memory, offset);
            let gnu = gnu_hash_table_at(memory, offset);
            &&& r is Ok <==> offset + 8 <= memory.len() && offset + 8 + 4 * (buckets + chains)
                <= memory.len()
            &&& offset > memory.len() ==> r == Err::<HashTableView, Error>(Error::OutOfBounds)
                && gnu == Err::<GnuHashTableView, Error>(Error::OutOfBounds)
            &&& offset <= memory.len() && r is Err ==> r == Err::<HashTableView, Error>(
                Error::UnexpectedEnd,
            )
            &&& gnu is Ok <==> offset + 16 <= memory.len() && chains_from(
                memory,
                offset + 16 + 8 * filter + 4 * buckets,
                Seq::empty(),
            ) is Ok
        }),
{
    tables::lemma_words(memory, offset as int);
    tables::lemma_words(memory, offset + 4);
    tables::lemma_words(memory, offset + 8);
}

/// Chains go to the next zero, and have to have one.
pub proof fn law_chains_end_with_zero(memory: Seq<u8>, pos: int, known: Seq<u32>)
    ensures
        ({
            let number = bytes::le_value(memory, pos, 4);
            let r = chains_from(memory, pos, known);
            &&& pos + 4 > memory.len() ==> r == Err::<Seq<u32>, Error>(Error::UnexpectedEnd)
            &&& pos + 4 <= memory.len() && number == 0 ==> r == Ok::<Seq<u32>, Error>(known)
            &&& pos + 4 <= memory.len() && number != 0 ==> r == chains_from(
                memory,
                pos + 4,
                known.push(number as u32),
            )
        }),
{
    tables::lemma_words(memory, pos);
}

proof fn lemma_all_strings_end(
    data: Seq<u8>,
    pos: int,
    known: Map<u64, Seq<char>>,
    offset: u64,
    list: Seq<(u64, Seq<char>)>,
)
    requires
        0 <= pos <= data.len(),
    ensures
        strings_from(data, pos, known) is Ok <==> pos == data.len() || data[data.len() - 1] == 0,
        embedded_from(data, offset, pos, list) is Ok <==> pos == data.len() || data[data.len() - 1]
            == 0,
    decreases data.len() - pos,
{
    if pos < data.len() {
        lemma_string_end(data, pos);
        lemma_end_is_found(data, pos, data.len() - 1);
        if let Ok(string) = string_at(data, pos) {
            law_strings_end_at_zero(data, pos);
            lemma_all_strings_end(
                data,
                pos + string.len() + 1,
                known.insert(pos as u64, lossy_text(string)),
                offset,
                list.push(((offset + pos) as u64, lossy_text(string))),
            );
        }
    }
}

proof fn lemma_end_is_found(data: Seq<u8>, pos: int, zero: int)
    requires
        0 <= pos <= zero < data.len(),
    ensures
        data[zero] == 0 ==> string_at(data, pos) is Ok,
    decreases zero - pos,
{
    if data[zero] == 0 && pos < zero && data[pos] != 0 {
        lemma_end_is_found(data, pos + 1, zero);
    }
}

/// Strings can be read where the last one ends with a zero byte too.
pub proof fn law_all_strings_have_an_end(rodata: Seq<u8>, place: u32, length: u32)
    requires
        place + length <= rodata.len(),
    ensures
        string_table(rodata, place, length) is Ok <==> length == 0 || rodata[place + length - 1]
            == 0,
        embedded_strings(rodata, place as u64, length as u64) is Ok <==> length == 0
            || rodata[place + length - 1] == 0,
{
    let data = rodata.subrange(place as int, place + length);
    lemma_all_strings_end(data, 0, Map::empty(), place as u64, Seq::empty());
}

/// Strings outside of the data are refused, and so is a build string with another length or mark.
pub proof fn law_strings_out_of_bounds_are_refused(
    data: Seq<u8>,
    place: u32,
    length: u32,
)
    ensures
        place + length > data.len() ==> string_table(data, place, length) == Err::<
            Map<u64, Seq<char>>,
            Error,
        >(Error::OutOfBounds) && embedded_strings(data, place as u64, length as u64) == Err::<
            Seq<(u64, Seq<char>)>,
            Error,
        >(Error::OutOfBounds),
        data.len() >= 8 && data[0] == 0 && data[1] == 0 && data[2] == 0 && data[3] == 0 && string_at(
            data,
            8,
        ) is Ok && string_at(data, 8)->Ok_0.len() == bytes::le_value(data, 4, 4) ==> build_string(
            data,
        ) == string_at(data, 8),
        data.len() >= 4 && !(data[0] == 0 && data[1] == 0 && data[2] == 0 && data[3] == 0)
            ==> build_string(data) == Err::<Seq<u8>, Error>(Error::BadBuildString),
        data.len() < 8 ==> build_string(data) is Err,
{
    tables::lemma_words(data, 4);
    if data.len() >= 4 {
        let start = data.take(4);
        assert(start[0] == data[0] && start[1] == data[1] && start[2] == data[2] && start[3]
            == data[3]);
        let zeros = seq![0u8, 0, 0, 0];
        assert(zeros[0] == 0 && zeros[1] == 0 && zeros[2] == 0 && zeros[3] == 0);
        if data[0] == 0 && data[1] == 0 && data[2] == 0 && data[3] == 0 {
            assert(start =~= zeros);
        }
    }
}

} // verus!
