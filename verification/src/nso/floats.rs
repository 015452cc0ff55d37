//! Floating-point numbers in the data of a binary. Here they are known by their bits only: how their
//! values are written is told by who exports the data.

use std::collections::HashMap;

use vstd::prelude::*;

use crate::bytes::{self, read_u32, read_u64};
use crate::nso::nso::NSO;
use crate::reference_tracker::{DataRefType, References};

verus! {

/// The values of floating-point numbers as text, by their bits.
pub struct FloatTexts {
    singles: HashMap<u32, String>,
    doubles: HashMap<u64, String>,
}

/// What [`FloatTexts`] says.
#[verifier::ext_equal]
pub struct FloatView {
    /// The numbers of 32 bits.
    pub singles: Map<u32, Seq<char>>,
    /// The numbers of 64 bits.
    pub doubles: Map<u64, Seq<char>>,
}

impl View for FloatTexts {
    type V = FloatView;

    closed spec fn view(&self) -> FloatView {
        FloatView {
            singles: self.singles@.map_values(|text: String| text@),
            doubles: self.doubles@.map_values(|text: String| text@),
        }
    }
}

impl FloatTexts {
    pub fn new() -> (r: Self)
        ensures
            r@ == (FloatView { singles: Map::empty(), doubles: Map::empty() }),
    {
        let r = FloatTexts { singles: HashMap::new(), doubles: HashMap::new() };
        assert(r@.singles =~= Map::empty());
        assert(r@.doubles =~= Map::empty());
        r
    }

    /// Says how the number of 32 bits is written.
    pub fn add_single(&mut self, bits: u32, text: String)
        ensures
            final(self)@ == (FloatView {
                singles: old(self)@.singles.insert(bits, text@),
                doubles: old(self)@.doubles,
            }),
    {
        let ghost before = self@;
        self.singles.insert(bits, text);
        assert(self@.singles =~= before.singles.insert(bits, text@));
    }

    /// Says how the number of 64 bits is written.
    pub fn add_double(&mut self, bits: u64, text: String)
        ensures
            final(self)@ == (FloatView {
                singles: old(self)@.singles,
                doubles: old(self)@.doubles.insert(bits, text@),
            }),
    {
        let ghost before = self@;
        self.doubles.insert(bits, text);
        assert(self@.doubles =~= before.doubles.insert(bits, text@));
    }

    /// How the number of 32 bits is written, if that is known.
    pub fn get_single(&self, bits: u32) -> (r: Option<&String>)
        ensures
            match r {
                Some(text) => self@.singles.contains_key(bits) && self@.singles[bits] == text@,
                None => !self@.singles.contains_key(bits),
            },
    {
        self.singles.get(&bits)
    }

    /// How the number of 64 bits is written, if that is known.
    pub fn get_double(&self, bits: u64) -> (r: Option<&String>)
        ensures
            match r {
                Some(text) => self@.doubles.contains_key(bits) && self@.doubles[bits] == text@,
                None => !self@.doubles.contains_key(bits),
            },
    {
        self.doubles.get(&bits)
    }
}

/// There is a number of 32 bits at `address`.
pub open spec fn is_single(memory: Seq<u8>, types: Map<u64, DataRefType>, address: int) -> bool {
    0 <= address && address + 4 <= memory.len() && types.get(address as u64) == Some(
        DataRefType::Float32,
    )
}

/// There is a number of 64 bits at `address`.
pub open spec fn is_double(memory: Seq<u8>, types: Map<u64, DataRefType>, address: int) -> bool {
    0 <= address && address + 8 <= memory.len() && types.get(address as u64) == Some(
        DataRefType::Float64,
    )
}

/// The bits of the numbers of 32 bits before `end`, in the order of their addresses.
pub open spec fn singles_in(memory: Seq<u8>, types: Map<u64, DataRefType>, end: int) -> Seq<u32>
    decreases end,
{
    if end <= 0 {
        Seq::empty()
    } else {
        let before = singles_in(memory, types, end - 1);
        if is_single(memory, types, end - 1) {
            before.push(bytes::le_value(memory, end - 1, 4) as u32)
        } else {
            before
        }
    }
}

/// The bits of the numbers of 64 bits before `end`, in the order of their addresses.
pub open spec fn doubles_in(memory: Seq<u8>, types: Map<u64, DataRefType>, end: int) -> Seq<u64>
    decreases end,
{
    if end <= 0 {
        Seq::empty()
    } else {
        let before = doubles_in(memory, types, end - 1);
        if is_double(memory, types, end - 1) {
            before.push(bytes::le_value(memory, end - 1, 8) as u64)
        } else {
            before
        }
    }
}

impl NSO {
    /// Finds all floating-point numbers that something refers to: the bits of those of 32 bits, and of
    /// those of 64 bits. A number that is there more than once is listed as often.
    pub fn get_floats(&self, references: &References) -> (r: (Vec<u32>, Vec<u64>))
        ensures
            r.0@ == singles_in(
                self@.file.memory,
                references@.types,
                self@.file.memory.len() as int,
            ),
            r.1@ == doubles_in(
                self@.file.memory,
                references@.types,
                self@.file.memory.len() as int,
            ),
    {
        let memory: &[u8] = self.file.memory.as_slice();
        let mut singles: Vec<u32> = Vec::new();
        let mut doubles: Vec<u64> = Vec::new();
        let length: usize = memory.len();
        let mut at: usize = 0;
        while at < length
            invariant
                at <= length,
                length == memory@.len(),
                memory@ == self@.file.memory,
                singles@ == singles_in(memory@, references@.types, at as int),
                doubles@ == doubles_in(memory@, references@.types, at as int),
            decreases length - at,
        {
            match references.get_type_of(at as u64) {
                Some(DataRefType::Float32) => {
                    if let Ok(bits) = read_u32(memory, at) {
                        singles.push(bits);
                    }
                },
                Some(DataRefType::Float64) => {
                    if let Ok(bits) = read_u64(memory, at) {
                        doubles.push(bits);
                    }
                },
                _ => {},
            }
            at = at + 1;
        }
        (singles, doubles)
    }
}

/// It is known of all numbers how they are written.
pub open spec fn is_all_known(
    floats: FloatView,
    memory: Seq<u8>,
    types: Map<u64, DataRefType>,
) -> bool {
    &&& forall|k: int|
        0 <= k < singles_in(memory, types, memory.len() as int).len() ==> floats.singles.contains_key(
            #[trigger] singles_in(memory, types, memory.len() as int)[k],
        )
    &&& forall|k: int|
        0 <= k < doubles_in(memory, types, memory.len() as int).len() ==> floats.doubles.contains_key(
            #[trigger] doubles_in(memory, types, memory.len() as int)[k],
        )
}

proof fn lemma_single_is_listed(
    memory: Seq<u8>,
    types: Map<u64, DataRefType>,
    end: int,
    address: int,
)
    requires
        is_single(memory, types, address),
        address < end,
    ensures
        singles_in(memory, types, end).contains(bytes::le_value(memory, address, 4) as u32),
    decreases end,
{
    let bits = bytes::le_value(memory, address, 4) as u32;
    let before = singles_in(memory, types, end - 1);
    let all = singles_in(memory, types, end);
    if address < end - 1 {
        lemma_single_is_listed(memory, types, end - 1, address);
        let k = before.index_of(bits);
        assert(all[k] == bits);
    } else {
        assert(all[before.len() as int] == bits);
    }
}

proof fn lemma_double_is_listed(
    memory: Seq<u8>,
    types: Map<u64, DataRefType>,
    end: int,
    address: int,
)
    requires
        is_double(memory, types, address),
        address < end,
    ensures
        doubles_in(memory, types, end).contains(bytes::le_value(memory, address, 8) as u64),
    decreases end,
{
    let bits = bytes::le_value(memory, address, 8) as u64;
    let before = doubles_in(memory, types, end - 1);
    let all = doubles_in(memory, types, end);
    if address < end - 1 {
        lemma_double_is_listed(memory, types, end - 1, address);
        let k = before.index_of(bits);
        assert(all[k] == bits);
    } else {
        assert(all[before.len() as int] == bits);
    }
}

/// Where it is known how all numbers are written, it is known of the one at any address.
pub proof fn lemma_is_known(
    floats: FloatView,
    memory: Seq<u8>,
    types: Map<u64, DataRefType>,
    address: int,
)
    requires
        is_all_known(floats, memory, types),
    ensures
        is_single(memory, types, address) ==> floats.singles.contains_key(
            bytes::le_value(memory, address, 4) as u32,
        ),
        is_double(memory, types, address) ==> floats.doubles.contains_key(
            bytes::le_value(memory, address, 8) as u64,
        ),
{
    let end = memory.len() as int;
    if is_single(memory, types, address) {
        lemma_single_is_listed(memory, types, end, address);
        let bits = bytes::le_value(memory, address, 4) as u32;
        let k = singles_in(memory, types, end).index_of(bits);
        assert(floats.singles.contains_key(singles_in(memory, types, end)[k]));
    }
    if is_double(memory, types, address) {
        lemma_double_is_listed(memory, types, end, address);
        let bits = bytes::le_value(memory, address, 8) as u64;
        let k = doubles_in(memory, types, end).index_of(bits);
        assert(floats.doubles.contains_key(doubles_in(memory, types, end)[k]));
    }
}

/// All numbers of 32 bits are found where four bytes of that type are, and all of 64 bits where eight
/// bytes of the other type are. Nothing else is.
pub proof fn law_all_numbers_are_found(
    memory: Seq<u8>,
    types: Map<u64, DataRefType>,
    end: int,
    address: int,
    k: int,
)
    requires
        0 <= end <= memory.len(),
        memory.len() <= u64::MAX,
    ensures
        0 <= address < end && address + 4 <= memory.len() && types.contains_key(address as u64)
            && types[address as u64] is Float32 ==> singles_in(memory, types, end).contains(
            bytes::le_value(memory, address, 4) as u32,
        ),
        0 <= address < end && address + 8 <= memory.len() && types.contains_key(address as u64)
            && types[address as u64] is Float64 ==> doubles_in(memory, types, end).contains(
            bytes::le_value(memory, address, 8) as u64,
        ),
        0 <= k < singles_in(memory, types, end).len() ==> exists|a: int|
            0 <= a < end && a + 4 <= memory.len() && types.contains_key(a as u64)
                && types[a as u64] is Float32 && #[trigger] (bytes::le_value(memory, a, 4) as u32)
                == singles_in(memory, types, end)[k],
        0 <= k < doubles_in(memory, types, end).len() ==> exists|a: int|
            0 <= a < end && a + 8 <= memory.len() && types.contains_key(a as u64)
                && types[a as u64] is Float64 && #[trigger] (bytes::le_value(memory, a, 8) as u64)
                == doubles_in(memory, types, end)[k],
    decreases end,
{
    if end > 0 {
        law_all_numbers_are_found(memory, types, end - 1, address, k);
        let singles = singles_in(memory, types, end);
        let doubles = doubles_in(memory, types, end);
        let less_singles = singles_in(memory, types, end - 1);
        let less_doubles = doubles_in(memory, types, end - 1);
        if 0 <= address < end && address + 4 <= memory.len() && types.contains_key(address as u64)
            && types[address as u64] is Float32 {
            let bits = bytes::le_value(memory, address, 4) as u32;
            if address == end - 1 {
                assert(is_single(memory, types, address));
                assert(singles[less_singles.len() as int] == bits);
            } else {
                let i = less_singles.index_of(bits);
                assert(singles[i] == bits);
            }
        }
        if 0 <= address < end && address + 8 <= memory.len() && types.contains_key(address as u64)
            && types[address as u64] is Float64 {
            let bits = bytes::le_value(memory, address, 8) as u64;
            if address == end - 1 {
                assert(is_double(memory, types, address));
                assert(doubles[less_doubles.len() as int] == bits);
            } else {
                let i = less_doubles.index_of(bits);
                assert(doubles[i] == bits);
            }
        }
        if 0 <= k < singles.len() {
            if k == less_singles.len() {
                assert(bytes::le_value(memory, end - 1, 4) as u32 == singles[k]);
            } else {
                let a = choose|a: int|
                    0 <= a < end - 1 && a + 4 <= memory.len() && types.contains_key(a as u64)
                        && types[a as u64] is Float32 && #[trigger] (bytes::le_value(memory, a, 4) as u32)
                        == less_singles[k];
                assert(bytes::le_value(memory, a, 4) as u32 == singles[k]);
            }
        }
        if 0 <= k < doubles.len() {
            if k == less_doubles.len() {
                assert(bytes::le_value(memory, end - 1, 8) as u64 == doubles[k]);
            } else {
                let a = choose|a: int|
                    0 <= a < end - 1 && a + 8 <= memory.len() && types.contains_key(a as u64)
                        && types[a as u64] is Float64 && #[trigger] (bytes::le_value(memory, a, 8) as u64)
                        == less_doubles[k];
                assert(bytes::le_value(memory, a, 8) as u64 == doubles[k]);
            }
        }
    }
}

} // verus!
