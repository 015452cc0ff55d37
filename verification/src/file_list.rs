//! The list of object files that a binary was linked from.

use vstd::prelude::*;
use vstd::string::*;

use crate::error::Error;
use crate::fmt::{self, format_hex_lower_padded};
use crate::strings::{self, text_begins_with};

verus! {

/// How far a function has been decompiled.
#[derive(Clone, Copy, Debug, PartialEq, Eq, Structural)]
pub enum Status {
    Matching,
    NonMatchingMinor,
    NonMatchingMajor,
    NotDecompiled,
    Wip,
    Library,
}

impl Status {
    pub open spec fn text(self) -> Seq<char> {
        match self {
            Status::Matching => "matching"@,
            Status::NonMatchingMinor => "non-matching (minor)"@,
            Status::NonMatchingMajor => "non-matching (major)"@,
            Status::NotDecompiled => "not decompiled"@,
            Status::Wip => "WIP"@,
            Status::Library => "library function"@,
        }
    }

    pub fn description(&self) -> (r: &'static str)
        ensures
            r@ == self.text(),
    {
        match self {
            Status::Matching => "matching",
            Status::NonMatchingMinor => "non-matching (minor)",
            Status::NonMatchingMajor => "non-matching (major)",
            Status::NotDecompiled => "not decompiled",
            Status::Wip => "WIP",
            Status::Library => "library function",
        }
    }
}

/// The name of an address, or its names.
#[derive(Clone, Debug)]
pub enum AddressLabel {
    Single(String),
    Multi(Vec<String>),
}

impl AddressLabel {
    /// There is at least one name.
    pub open spec fn is_named(self) -> bool {
        match self {
            AddressLabel::Single(_) => true,
            AddressLabel::Multi(labels) => labels@.len() > 0,
        }
    }

    /// The first name.
    pub open spec fn first(self) -> Seq<char> {
        match self {
            AddressLabel::Single(label) => label@,
            AddressLabel::Multi(labels) => labels@[0]@,
        }
    }

    pub fn has_name(&self) -> (r: bool)
        ensures
            r == self.is_named(),
    {
        match self {
            AddressLabel::Single(_) => true,
            AddressLabel::Multi(labels) => labels.len() > 0,
        }
    }
}

/// A function of an object file.
#[derive(Clone, Debug)]
pub struct Info {
    pub offset: u32,
    pub size: u32,
    pub label: AddressLabel,
    pub status: Status,
    pub lazy: bool,
    /// The name is not known for sure.
    pub guess: bool,
}

/// The text for an offset in a file list.
pub open spec fn hex_offset(offset: u32) -> Seq<char> {
    "0x"@ + fmt::hex_lower_padded(offset as nat, 6)
}

/// Writes an offset as it stands in a file list.
pub fn as_hex(offset: u32) -> (r: String)
    ensures
        r@ == hex_offset(offset),
{
    let mut text = String::from_str("0x");
    text.append(format_hex_lower_padded(offset as u64, 6).as_str());
    text
}

/// An object file.
#[derive(Clone, Debug)]
pub struct Object {
    pub text_section: Vec<Info>,
}

impl Info {
    pub fn is_decompiled(&self) -> (r: bool)
        ensures
            r == !(self.status is NotDecompiled || self.status is Library),
    {
        match self.status {
            Status::NotDecompiled | Status::Library => false,
            _ => true,
        }
    }

    /// The name of the function. There has to be one.
    pub fn name(&self) -> (r: &str)
        requires
            self.label.is_named(),
        ensures
            r@ == self.label.first(),
    {
        match &self.label {
            AddressLabel::Single(label) => label.as_str(),
            AddressLabel::Multi(labels) => labels[0].as_str(),
        }
    }
}

/// Where binaries are loaded in the tools that addresses come from.
pub const ADDRESS_BASE: u64 = 0x71_0000_0000;

/// The value of a hexadecimal digit.
pub open spec fn hex_digit(c: char) -> Option<int> {
    if '0' <= c <= '9' {
        Some(c as int - '0' as int)
    } else if 'a' <= c <= 'f' {
        Some(c as int - 'a' as int + 10)
    } else if 'A' <= c <= 'F' {
        Some(c as int - 'A' as int + 10)
    } else {
        None
    }
}

/// The value of hexadecimal digits.
pub open spec fn hex_number(digits: Seq<char>) -> Option<int>
    decreases digits.len(),
{
    if digits.len() == 0 {
        Some(0)
    } else {
        match (hex_number(digits.drop_last()), hex_digit(digits.last())) {
            (Some(high), Some(low)) => Some(high * 16 + low),
            _ => None,
        }
    }
}

/// `text` without `prefix` at its start.
pub open spec fn without_prefix(text: Seq<char>, prefix: Seq<char>) -> Seq<char> {
    if strings::begins_with(text, prefix) {
        text.skip(prefix.len() as int)
    } else {
        text
    }
}

/// The value of a hexadecimal number of at most 64 bits, with or without `0x`. A plus sign may
/// stand in front of the digits.
pub open spec fn base_16(text: Seq<char>) -> Result<u64, Error> {
    let digits = without_prefix(without_prefix(text, "0x"@), "+"@);
    if digits.len() == 0 {
        Err(Error::BadNumber)
    } else {
        match hex_number(digits) {
            Some(value) => if value > u64::MAX {
                Err(Error::BadNumber)
            } else {
                Ok(value as u64)
            },
            None => Err(Error::BadNumber),
        }
    }
}

fn read_hex_digit(c: char) -> (r: Option<u64>)
    ensures
        match r {
            Some(value) => hex_digit(c) == Some(value as int) && value < 16,
            None => hex_digit(c) is None,
        },
{
    if '0' <= c && c <= '9' {
        Some(c as u64 - 48)
    } else if 'a' <= c && c <= 'f' {
        Some(c as u64 - 87)
    } else if 'A' <= c && c <= 'F' {
        Some(c as u64 - 55)
    } else {
        None
    }
}

fn strip<'a>(text: &'a str, prefix: &str) -> (r: &'a str)
    ensures
        r@ == without_prefix(text@, prefix@),
{
    if text_begins_with(text, prefix) {
        text.substring_char(prefix.unicode_len(), text.unicode_len())
    } else {
        text
    }
}

/// A number stays bad, and a big number big, whatever follows.
proof fn lemma_hex_number(digits: Seq<char>, count: int)
    requires
        0 <= count <= digits.len(),
    ensures
        hex_number(digits.take(count)) is None ==> hex_number(digits) is None,
        hex_number(digits.take(count)) matches Some(a) ==> a >= 0 && (hex_number(digits) matches Some(b)
            ==> b >= a),
    decreases digits.len() - count,
{
    if count < digits.len() {
        lemma_hex_number(digits, count + 1);
        assert(digits.take(count + 1).drop_last() =~= digits.take(count));
        lemma_hex_not_negative(digits.take(count));
    } else {
        assert(digits.take(count) =~= digits);
        lemma_hex_not_negative(digits);
    }
}

proof fn lemma_hex_not_negative(digits: Seq<char>)
    ensures
        hex_number(digits) matches Some(a) ==> a >= 0,
    decreases digits.len(),
{
    if digits.len() > 0 {
        lemma_hex_not_negative(digits.drop_last());
    }
}

/// Reads a hexadecimal number, with or without `0x`.
pub fn parse_base_16(value: &str) -> (r: Result<u64, Error>)
    ensures
        r == base_16(value@),
{
    let digits = strip(strip(value, "0x"), "+");
    let length: usize = digits.unicode_len();
    if length == 0 {
        return Err(Error::BadNumber);
    }
    let mut total: u64 = 0;
    let mut i: usize = 0;
    while i < length
        invariant
            i <= length,
            length == digits@.len(),
            length > 0,
            digits@ == without_prefix(without_prefix(value@, "0x"@), "+"@),
            hex_number(digits@.take(i as int)) == Some(total as int),
        decreases length - i,
    {
        proof {
            lemma_hex_number(digits@, i + 1);
            assert(digits@.take(i + 1).drop_last() =~= digits@.take(i as int));
        }
        let low: u64 = match read_hex_digit(digits.get_char(i)) {
            Some(low) => low,
            None => {
                return Err(Error::BadNumber);
            },
        };
        if total > 0xFFF_FFFF_FFFF_FFFF {
            return Err(Error::BadNumber);
        }
        total = total * 16 + low;
        i = i + 1;
    }
    assert(digits@.take(i as int) =~= digits@);
    Ok(total)
}

/// Reads an address and makes it relative to where binaries are loaded.
pub fn parse_address(value: &str) -> (r: Result<u64, Error>)
    requires
        base_16(value@) matches Ok(address) ==> address >= ADDRESS_BASE,
    ensures
        match r {
            Ok(offset) => base_16(value@) == Ok::<u64, Error>((offset + ADDRESS_BASE) as u64)
                && offset + ADDRESS_BASE <= u64::MAX,
            Err(e) => base_16(value@) == Err::<u64, Error>(e),
        },
{
    let address: u64 = parse_base_16(value)?;
    Ok(address - ADDRESS_BASE)
}

/// The objects by name, in the order in which they were linked.
pub type FileList = Vec<(String, Object)>;

/// Where the functions of an object start: the lowest of their offsets.
pub open spec fn lowest(infos: Seq<Info>) -> int
    recommends
        infos.len() > 0,
    decreases infos.len(),
{
    if infos.len() <= 1 {
        infos[0].offset as int
    } else {
        let before = lowest(infos.drop_last());
        if infos.last().offset < before {
            infos.last().offset as int
        } else {
            before
        }
    }
}

/// Where the functions of an object end: the highest of their ends.
pub open spec fn highest(infos: Seq<Info>) -> int
    recommends
        infos.len() > 0,
    decreases infos.len(),
{
    if infos.len() <= 1 {
        infos[0].offset + infos[0].size
    } else {
        let before = highest(infos.drop_last());
        if infos.last().offset + infos.last().size > before {
            infos.last().offset + infos.last().size
        } else {
            before
        }
    }
}

/// From where to where the functions of an object reach.
pub open spec fn text_bounds(infos: Seq<Info>) -> Result<(u32, u32), Error> {
    if infos.len() == 0 {
        Err(Error::NoText)
    } else if highest(infos) > u32::MAX {
        Err(Error::Overflow)
    } else {
        Ok((lowest(infos) as u32, highest(infos) as u32))
    }
}

proof fn lemma_highest(infos: Seq<Info>, i: int)
    requires
        0 <= i < infos.len(),
    ensures
        infos[i].offset + infos[i].size <= highest(infos),
    decreases infos.len(),
{
    if infos.len() > 1 && i < infos.len() - 1 {
        lemma_highest(infos.drop_last(), i);
        assert(infos.drop_last()[i] == infos[i]);
    }
}

impl Object {
    /// From where to where the functions reach.
    pub fn get_text_bounds(&self) -> (r: Result<(u32, u32), Error>)
        ensures
            r == text_bounds(self.text_section@),
    {
        let ghost infos = self.text_section@;
        if self.text_section.len() == 0 {
            return Err(Error::NoText);
        }
        let mut start: u32 = self.text_section[0].offset;
        proof {
            lemma_highest(infos, 0);
        }
        if self.text_section[0].size > u32::MAX - start {
            return Err(Error::Overflow);
        }
        let mut end: u32 = start + self.text_section[0].size;
        let mut i: usize = 1;
        while i < self.text_section.len()
            invariant
                1 <= i <= infos.len(),
                infos == self.text_section@,
                start == lowest(infos.take(i as int)),
                end == highest(infos.take(i as int)),
            decreases infos.len() - i,
        {
            let info: &Info = &self.text_section[i];
            proof {
                lemma_highest(infos, i as int);
                assert(infos.take(i + 1).drop_last() =~= infos.take(i as int));
            }
            if info.size > u32::MAX - info.offset {
                return Err(Error::Overflow);
            }
            if info.offset < start {
                start = info.offset;
            }
            if info.offset + info.size > end {
                end = info.offset + info.size;
            }
            i = i + 1;
        }
        assert(infos.take(i as int) =~= infos);
        Ok((start, end))
    }

    /// A function starts at the address.
    pub fn has_function_at(&self, address: u64) -> (r: bool)
        ensures
            r == starts_function(self.text_section@, address),
    {
        let mut i: usize = 0;
        while i < self.text_section.len()
            invariant
                i <= self.text_section@.len(),
                forall|k: int| 0 <= k < i ==> (#[trigger] self.text_section@[k]).offset != address,
            decreases self.text_section@.len() - i,
        {
            if self.text_section[i].offset as u64 == address {
                return true;
            }
            i = i + 1;
        }
        false
    }
}

/// One of the functions starts at the address.
pub open spec fn starts_function(infos: Seq<Info>, address: u64) -> bool {
    exists|k: int| 0 <= k < infos.len() && (#[trigger] infos[k]).offset == address
}

proof fn lemma_hex_digits(n: nat)
    ensures
        hex_number(fmt::digits(n, 16, false)) == Some(n as int),
        fmt::digits(n, 16, false).len() > 0,
        forall|i: int|
            0 <= i < fmt::digits(n, 16, false).len() ==> hex_digit(
                #[trigger] fmt::digits(n, 16, false)[i],
            ) is Some,
    decreases n,
{
    let digits = fmt::digits(n, 16, false);
    reveal_with_fuel(hex_number, 2);
    if n < 16 {
        assert(digits.drop_last() =~= Seq::<char>::empty());
    } else {
        lemma_hex_digits(n / 16);
        assert(digits.drop_last() =~= fmt::digits(n / 16, 16, false));
    }
}

proof fn lemma_leading_zero(digits: Seq<char>)
    ensures
        hex_number(seq!['0'] + digits) == hex_number(digits),
    decreases digits.len(),
{
    let padded = seq!['0'] + digits;
    if digits.len() == 0 {
        reveal_with_fuel(hex_number, 2);
        assert(padded.drop_last() =~= Seq::<char>::empty());
    } else {
        lemma_leading_zero(digits.drop_last());
        assert(padded.drop_last() =~= seq!['0'] + digits.drop_last());
    }
}

proof fn lemma_leading_zeros(count: nat, digits: Seq<char>)
    ensures
        hex_number(Seq::new(count, |i: int| '0') + digits) == hex_number(digits),
    decreases count,
{
    let zeros = Seq::new(count, |i: int| '0');
    if count == 0 {
        assert(zeros + digits =~= digits);
    } else {
        let fewer = Seq::new((count - 1) as nat, |i: int| '0');
        lemma_leading_zeros((count - 1) as nat, digits);
        lemma_leading_zero(fewer + digits);
        assert(zeros + digits =~= seq!['0'] + (fewer + digits));
    }
}

/// An offset is read back from the text that stands for it in a file list.
pub proof fn law_offsets_are_read_back(offset: u32)
    ensures
        base_16(hex_offset(offset)) == Ok::<u64, Error>(offset as u64),
{
    reveal_strlit("0x");
    reveal_strlit("+");
    let digits = fmt::digits(offset as nat, 16, false);
    let padded = fmt::hex_lower_padded(offset as nat, 6);
    let text = hex_offset(offset);
    lemma_hex_digits(offset as nat);
    if digits.len() < 6 {
        lemma_leading_zeros((6 - digits.len()) as nat, digits);
    }
    assert(text.take(2) =~= "0x"@);
    assert(text.skip(2) =~= padded);
    assert(without_prefix(text, "0x"@) == padded);
    assert(without_prefix(padded, "+"@) == padded) by {
        if strings::begins_with(padded, "+"@) {
            assert(padded.take(1)[0] == "+"@[0]);
            if digits.len() >= 6 {
                assert(hex_digit(digits[0]) is Some);
            }
        }
    }
}

/// The texts for the states of functions.
pub proof fn law_states_are_written_out()
    ensures
        Status::Matching.text() == "matching"@,
        Status::NonMatchingMinor.text() == "non-matching (minor)"@,
        Status::NonMatchingMajor.text() == "non-matching (major)"@,
        Status::NotDecompiled.text() == "not decompiled"@,
        Status::Wip.text() == "WIP"@,
        Status::Library.text() == "library function"@,
{
}

/// Digits are read whatever their case is, and nothing else is.
pub proof fn law_digits_are_read_in_both_cases(value: int, c: char)
    ensures
        0 <= value < 16 ==> hex_digit(fmt::digit(value, false)) == Some(value) && hex_digit(
            fmt::digit(value, true),
        ) == Some(value),
        hex_digit(c) is Some <==> ('0' <= c <= '9') || ('a' <= c <= 'f') || ('A' <= c <= 'F'),
        hex_digit(c) matches Some(read) ==> 0 <= read < 16 && (c == fmt::digit(read, false) || c
            == fmt::digit(read, true)),
{
}

/// One more digit makes a number sixteen times as large, and adds its own value.
pub proof fn law_numbers_are_read_digit_by_digit(digits: Seq<char>, c: char)
    ensures
        hex_number(digits) is Some && hex_digit(c) is Some ==> hex_number(digits.push(c)) == Some(
            16 * hex_number(digits)->Some_0 + hex_digit(c)->Some_0,
        ),
        hex_number(digits.push(c)) is Some <==> hex_number(digits) is Some && hex_digit(c) is Some,
        hex_number(Seq::empty()) == Some(0int),
{
    assert(digits.push(c).drop_last() =~= digits);
}

/// A number is read with and without `0x` before it, and with and without a plus sign. It has to have
/// digits, and no more than 64 bits.
pub proof fn law_prefixes_do_not_change_numbers(digits: Seq<char>)
    requires
        digits.len() > 0,
        digits[0] != '+',
        digits.len() < 2 || digits[1] != 'x',
    ensures
        ({
            let number = hex_number(digits);
            &&& number is Some && number->Some_0 <= u64::MAX ==> base_16(digits) == Ok::<
                u64,
                Error,
            >(number->Some_0 as u64) && base_16(seq!['0', 'x'] + digits) == base_16(digits)
                && base_16(seq!['+'] + digits) == base_16(digits) && base_16(
                seq!['0', 'x', '+'] + digits,
            ) == base_16(digits)
            &&& number is None || number->Some_0 > u64::MAX ==> base_16(digits) is Err
        }),
        base_16(Seq::empty()) is Err,
{
    reveal_strlit("0x");
    reveal_strlit("+");
    let x = "0x"@;
    let plus = "+"@;
    assert(x =~= seq!['0', 'x']);
    assert(plus =~= seq!['+']);
    if digits.len() >= 2 {
        assert(digits.take(2)[1] == digits[1]);
    }
    assert(digits.take(1)[0] == digits[0]);
    assert(without_prefix(digits, x) == digits);
    assert(without_prefix(digits, plus) == digits);
    let a = seq!['0', 'x'] + digits;
    assert(a.take(2) =~= x && a.skip(2) =~= digits);
    let b = seq!['+'] + digits;
    assert(b.take(1) =~= plus && b.skip(1) =~= digits);
    assert(b.take(2)[0] == '+');
    let c = seq!['0', 'x', '+'] + digits;
    assert(c.take(2) =~= x && c.skip(2) =~= b);
}

/// The bounds of an object hold all of its functions, and there is a function at each of them.
pub proof fn law_bounds_hold_all_functions(infos: Seq<Info>, i: int)
    requires
        infos.len() > 0,
        0 <= i < infos.len(),
    ensures
        lowest(infos) <= infos[i].offset,
        infos[i].offset + infos[i].size <= highest(infos),
        exists|k: int| 0 <= k < infos.len() && (#[trigger] infos[k]).offset == lowest(infos),
        exists|k: int|
            0 <= k < infos.len() && (#[trigger] infos[k]).offset + infos[k].size == highest(infos),
        text_bounds(infos) matches Ok((start, end)) ==> start == lowest(infos) && end == highest(
            infos,
        ),
        text_bounds(infos) is Ok <==> highest(infos) <= u32::MAX,
    decreases infos.len(),
{
    if infos.len() > 1 {
        let before = infos.drop_last();
        if i < before.len() {
            law_bounds_hold_all_functions(before, i);
        } else {
            law_bounds_hold_all_functions(before, 0);
        }
        let low = choose|k: int|
            0 <= k < before.len() && (#[trigger] before[k]).offset == lowest(before);
        let high = choose|k: int|
            0 <= k < before.len() && (#[trigger] before[k]).offset + before[k].size == highest(
                before,
            );
        let last = infos.len() - 1;
        if infos.last().offset < lowest(before) {
            assert(infos[last].offset == lowest(infos));
        } else {
            assert(infos[low].offset == lowest(infos));
        }
        if infos.last().offset + infos.last().size > highest(before) {
            assert(infos[last].offset + infos[last].size == highest(infos));
        } else {
            assert(infos[high].offset + infos[high].size == highest(infos));
        }
    } else {
        assert(infos[0].offset == lowest(infos));
        assert(infos[0].offset + infos[0].size == highest(infos));
    }
}

/// A function has a name unless its list of names is empty, and goes by the first one.
pub proof fn law_functions_go_by_their_first_name(label: AddressLabel)
    ensures
        label is Single ==> label.is_named() && label.first() == label->Single_0@,
        label is Multi && label->Multi_0@.len() == 0 ==> !label.is_named(),
        label is Multi && label->Multi_0@.len() > 0 ==> label.is_named() && label.first()
            == label->Multi_0@[0]@,
{
}

} // verus!
