//! Little-endian reads out of byte slices.

use vstd::prelude::*;

use crate::error::Error;

verus! {

/// The number that `count` bytes of `data` from `pos` on encode, lowest byte first.
pub open spec fn le_value(data: Seq<u8>, pos: int, count: nat) -> int
    decreases count,
{
    if count == 0 {
        0
    } else {
        data[pos] + 0x100 * le_value(data, pos + 1, (count - 1) as nat)
    }
}

/// A read of `count` bytes at `pos`: their value, or an error where they are not all there.
pub open spec fn le_read(data: Seq<u8>, pos: int, count: nat) -> Result<int, Error> {
    if 0 <= pos && pos + count <= data.len() {
        Ok(le_value(data, pos, count))
    } else {
        Err(Error::UnexpectedEnd)
    }
}

/// The signed number that `value` encodes in two's complement. From `half` on, values are negative.
pub open spec fn signed(value: int, half: int) -> int {
    if value < half {
        value
    } else {
        value - 2 * half
    }
}

/// `value` modulo 2^64.
pub open spec fn wrap64(value: int) -> u64 {
    (value % 0x1_0000_0000_0000_0000) as u64
}

pub fn read_u8(data: &[u8], pos: usize) -> (r: Result<u8, Error>)
    ensures
        match r {
            Ok(v) => le_read(data@, pos as int, 1) == Ok::<int, Error>(v as int),
            Err(e) => le_read(data@, pos as int, 1) == Err::<int, Error>(e),
        },
{
    proof {
        reveal_with_fuel(le_value, 2);
    }
    if pos < data.len() {
        Ok(data[pos])
    } else {
        Err(Error::UnexpectedEnd)
    }
}

pub fn read_u16(data: &[u8], pos: usize) -> (r: Result<u16, Error>)
    ensures
        match r {
            Ok(v) => le_read(data@, pos as int, 2) == Ok::<int, Error>(v as int),
            Err(e) => le_read(data@, pos as int, 2) == Err::<int, Error>(e),
        },
{
    proof {
        reveal_with_fuel(le_value, 3);
    }
    if data.len() >= 2 && pos <= data.len() - 2 {
        Ok(data[pos] as u16 + 0x100 * data[pos + 1] as u16)
    } else {
        Err(Error::UnexpectedEnd)
    }
}

pub fn read_u32(data: &[u8], pos: usize) -> (r: Result<u32, Error>)
    ensures
        match r {
            Ok(v) => le_read(data@, pos as int, 4) == Ok::<int, Error>(v as int),
            Err(e) => le_read(data@, pos as int, 4) == Err::<int, Error>(e),
        },
{
    proof {
        reveal_with_fuel(le_value, 5);
    }
    if data.len() >= 4 && pos <= data.len() - 4 {
        Ok(data[pos] as u32 + 0x100 * (data[pos + 1] as u32 + 0x100 * (data[pos + 2] as u32 + 0x100
            * data[pos + 3] as u32)))
    } else {
        Err(Error::UnexpectedEnd)
    }
}

pub fn read_u64(data: &[u8], pos: usize) -> (r: Result<u64, Error>)
    ensures
        match r {
            Ok(v) => le_read(data@, pos as int, 8) == Ok::<int, Error>(v as int),
            Err(e) => le_read(data@, pos as int, 8) == Err::<int, Error>(e),
        },
{
    proof {
        reveal_with_fuel(le_value, 9);
    }
    if data.len() >= 8 && pos <= data.len() - 8 {
        let low: u64 = data[pos] as u64 + 0x100 * (data[pos + 1] as u64 + 0x100 * (data[pos
            + 2] as u64 + 0x100 * data[pos + 3] as u64));
        let high: u64 = data[pos + 4] as u64 + 0x100 * (data[pos + 5] as u64 + 0x100 * (data[pos
            + 6] as u64 + 0x100 * data[pos + 7] as u64));
        Ok(low + 0x1_0000_0000 * high)
    } else {
        Err(Error::UnexpectedEnd)
    }
}

/// The `i32` with the bits of `value`.
pub fn to_i32(value: u32) -> (r: i32)
    ensures
        r == signed(value as int, 0x8000_0000),
{
    if value < 0x8000_0000 {
        value as i32
    } else {
        -((0xFFFF_FFFF - value) as i32) - 1
    }
}

/// The `i64` with the bits of `value`.
pub fn to_i64(value: u64) -> (r: i64)
    ensures
        r == signed(value as int, 0x8000_0000_0000_0000),
{
    if value < 0x8000_0000_0000_0000 {
        value as i64
    } else {
        -((0xFFFF_FFFF_FFFF_FFFF - value) as i64) - 1
    }
}

/// `base + offset` modulo 2^64.
pub fn offset_address(base: u64, offset: i64) -> (r: u64)
    ensures
        r == wrap64(base + offset),
{
    let sum: i128 = base as i128 + offset as i128;
    if sum < 0 {
        (sum + 0x1_0000_0000_0000_0000) as u64
    } else if sum >= 0x1_0000_0000_0000_0000 {
        (sum - 0x1_0000_0000_0000_0000) as u64
    } else {
        sum as u64
    }
}

/// `a + b` modulo 2^64.
pub fn wrapping_sum(a: u64, b: u64) -> (r: u64)
    ensures
        r == wrap64(a + b),
{
    let sum: u128 = a as u128 + b as u128;
    if sum >= 0x1_0000_0000_0000_0000 {
        (sum - 0x1_0000_0000_0000_0000) as u64
    } else {
        sum as u64
    }
}

/// The `u64` with the bits of `value`.
pub fn to_u64(value: i64) -> (r: u64)
    ensures
        r == wrap64(value as int),
{
    offset_address(0, value)
}

/// A number is the same in a part of the data.
pub proof fn lemma_value_in_part(data: Seq<u8>, start: int, end: int, pos: int, count: nat)
    requires
        0 <= start,
        0 <= pos,
        start + pos + count <= end <= data.len(),
    ensures
        le_value(data.subrange(start, end), pos, count) == le_value(data, start + pos, count),
    decreases count,
{
    if count > 0 {
        lemma_value_in_part(data, start, end, pos + 1, (count - 1) as nat);
    }
}

/// Numbers have their lowest byte first: the first byte is what remains of the number modulo 256, and
/// the rest of the bytes is what it holds otherwise.
pub proof fn law_lowest_byte_comes_first(data: Seq<u8>, pos: int, count: nat)
    ensures
        le_value(data, pos, 1) == data[pos],
        count > 0 ==> le_value(data, pos, count) % 256 == data[pos] && le_value(data, pos, count) / 256
            == le_value(data, pos + 1, (count - 1) as nat),
        0 <= le_value(data, pos, 2) < 0x1_0000,
        0 <= le_value(data, pos, 4) < 0x1_0000_0000,
        0 <= le_value(data, pos, 8) < 0x1_0000_0000_0000_0000,
        le_value(data, pos, 2) == data[pos] + 0x100 * data[pos + 1],
        le_value(data, pos, 4) == data[pos] + 0x100 * data[pos + 1] + 0x1_0000 * data[pos + 2]
            + 0x100_0000 * data[pos + 3],
        le_value(data, pos, 8) == le_value(data, pos, 4) + 0x1_0000_0000 * le_value(
            data,
            pos + 4,
            4,
        ),
{
    reveal_with_fuel(le_value, 9);
    if count > 0 {
        let rest = le_value(data, pos + 1, (count - 1) as nat);
        assert(le_value(data, pos, count) == data[pos] + 0x100 * rest);
    }
}

/// A read gives the number at its place exactly where all of its bytes are there.
pub proof fn law_reads_need_all_bytes(data: Seq<u8>, pos: int, count: nat)
    ensures
        le_read(data, pos, count) is Ok <==> 0 <= pos && pos + count <= data.len(),
        le_read(data, pos, count) matches Ok(value) ==> value == le_value(data, pos, count),
        le_read(data, pos, count) matches Err(e) ==> e == Error::UnexpectedEnd,
{
}

/// A number from the upper half stands for a negative one, which differs by the number of all.
pub proof fn law_upper_half_is_negative(value: int, half: int)
    requires
        0 <= value < 2 * half,
    ensures
        -half <= signed(value, half) < half,
        (signed(value, half) - value) % (2 * half) == 0,
        signed(value, half) >= 0 <==> signed(value, half) == value,
{
    if value >= half {
        assert(signed(value, half) - value == (-1) * (2 * half));
        vstd::arithmetic::div_mod::lemma_mod_multiples_basic(-1, 2 * half);
    } else {
        vstd::arithmetic::div_mod::lemma_small_mod(0, (2 * half) as nat);
    }
}

/// Addresses wrap around at 2^64, and only there.
pub proof fn law_addresses_wrap_around(value: int)
    ensures
        0 <= value <= u64::MAX ==> wrap64(value) == value,
        wrap64(value + 0x1_0000_0000_0000_0000) == wrap64(value),
{
}

} // verus!
