//! Numbers as text.

use vstd::prelude::*;

verus! {

/// The character for the digit `d`, with letters from ten on.
pub open spec fn digit(d: int, upper: bool) -> char {
    if d < 10 {
        (48 + d) as char
    } else if upper {
        (55 + d) as char
    } else {
        (87 + d) as char
    }
}

/// The digits of `n` in `base`, highest first, without leading zeros.
pub open spec fn digits(n: nat, base: nat, upper: bool) -> Seq<char>
    decreases n,
{
    if n < base || base < 2 {
        seq![digit(n as int, upper)]
    } else {
        proof {
            assert(n / base < n) by (nonlinear_arith)
                requires
                    n >= base,
                    base >= 2,
            ;
        }
        digits(n / base, base, upper).push(digit((n % base) as int, upper))
    }
}

/// `text` with zeros in front, at least `width` characters long.
pub open spec fn zero_padded(text: Seq<char>, width: nat) -> Seq<char> {
    if text.len() < width {
        Seq::new((width - text.len()) as nat, |i: int| '0') + text
    } else {
        text
    }
}

/// `n` in decimal, with a sign where it is negative.
pub open spec fn decimal(n: int) -> Seq<char> {
    if n < 0 {
        seq!['-'] + digits((-n) as nat, 10, true)
    } else {
        digits(n as nat, 10, true)
    }
}

/// `n` in hexadecimal with capital letters.
pub open spec fn hex(n: nat) -> Seq<char> {
    digits(n, 16, true)
}

/// `n` in hexadecimal with capital letters, filled up with zeros to `width`.
pub open spec fn hex_padded(n: nat, width: nat) -> Seq<char> {
    zero_padded(digits(n, 16, true), width)
}

/// `n` in hexadecimal with small letters, filled up with zeros to `width`.
pub open spec fn hex_lower_padded(n: nat, width: nat) -> Seq<char> {
    zero_padded(digits(n, 16, false), width)
}

fn digit_text(d: u64, upper: bool) -> (r: &'static str)
    requires
        d < 16,
    ensures
        r@ == seq![digit(d as int, upper)],
{
    let text = if d == 0 {
        "0"
    } else if d == 1 {
        "1"
    } else if d == 2 {
        "2"
    } else if d == 3 {
        "3"
    } else if d == 4 {
        "4"
    } else if d == 5 {
        "5"
    } else if d == 6 {
        "6"
    } else if d == 7 {
        "7"
    } else if d == 8 {
        "8"
    } else if d == 9 {
        "9"
    } else if d == 10 {
        if upper { "A" } else { "a" }
    } else if d == 11 {
        if upper { "B" } else { "b" }
    } else if d == 12 {
        if upper { "C" } else { "c" }
    } else if d == 13 {
        if upper { "D" } else { "d" }
    } else if d == 14 {
        if upper { "E" } else { "e" }
    } else {
        if upper { "F" } else { "f" }
    };
    proof {
        reveal_strlit("0");
        reveal_strlit("1");
        reveal_strlit("2");
        reveal_strlit("3");
        reveal_strlit("4");
        reveal_strlit("5");
        reveal_strlit("6");
        reveal_strlit("7");
        reveal_strlit("8");
        reveal_strlit("9");
        reveal_strlit("A");
        reveal_strlit("B");
        reveal_strlit("C");
        reveal_strlit("D");
        reveal_strlit("E");
        reveal_strlit("F");
        reveal_strlit("a");
        reveal_strlit("b");
        reveal_strlit("c");
        reveal_strlit("d");
        reveal_strlit("e");
        reveal_strlit("f");
    }
    text
}

fn format_digits(n: u64, base: u64, upper: bool) -> (r: String)
    requires
        2 <= base <= 16,
    ensures
        r@ == digits(n as nat, base as nat, upper),
    decreases n,
{
    if n < base {
        String::from_str(digit_text(n, upper))
    } else {
        assert(n / base < n) by (nonlinear_arith)
            requires
                n >= base,
                base >= 2,
        ;
        let mut text = format_digits(n / base, base, upper);
        text.append(digit_text(n % base, upper));
        text
    }
}

fn pad_with_zeros(text: String, width: usize) -> (r: String)
    ensures
        r@ == zero_padded(text@, width as nat),
{
    proof {
        reveal_strlit("0");
    }
    let length: usize = text.as_str().unicode_len();
    let mut padded = String::new();
    let mut count: usize = length;
    while count < width
        invariant
            length == text@.len(),
            length <= count,
            count <= width || padded@.len() == 0,
            padded@ == Seq::new((count - length) as nat, |i: int| '0'),
            "0"@ == seq!['0'],
        decreases width - count,
    {
        padded.append("0");
        count = count + 1;
    }
    padded.append(text.as_str());
    padded
}

pub fn format_decimal(n: u64) -> (r: String)
    ensures
        r@ == decimal(n as int),
{
    format_digits(n, 10, true)
}

pub fn format_decimal_signed(n: i64) -> (r: String)
    ensures
        r@ == decimal(n as int),
{
    if n < 0 {
        let magnitude: u64 = (-(n + 1)) as u64 + 1;
        let mut text = String::from_str("-");
        proof {
            reveal_strlit("-");
        }
        text.append(format_digits(magnitude, 10, true).as_str());
        text
    } else {
        format_digits(n as u64, 10, true)
    }
}

pub fn format_hex(n: u64) -> (r: String)
    ensures
        r@ == hex(n as nat),
{
    format_digits(n, 16, true)
}

pub fn format_hex_padded(n: u64, width: usize) -> (r: String)
    ensures
        r@ == hex_padded(n as nat, width as nat),
{
    pad_with_zeros(format_digits(n, 16, true), width)
}

pub fn format_hex_lower_padded(n: u64, width: usize) -> (r: String)
    ensures
        r@ == hex_lower_padded(n as nat, width as nat),
{
    pad_with_zeros(format_digits(n, 16, false), width)
}

/// Different numbers have different digits.
pub proof fn lemma_digits_differ(a: nat, b: nat, base: nat, upper: bool)
    requires
        2 <= base <= 16,
        a != b,
    ensures
        digits(a, base, upper) != digits(b, base, upper),
    decreases a,
{
    let (x, y) = (digits(a, base, upper), digits(b, base, upper));
    if x == y {
        assert(x.last() == y.last());
        if a < base || b < base {
            if a >= base {
                assert(digits(a / base, base, upper).len() > 0);
            } else if b >= base {
                assert(digits(b / base, base, upper).len() > 0);
            }
        } else {
            vstd::arithmetic::div_mod::lemma_fundamental_div_mod(a as int, base as int);
            vstd::arithmetic::div_mod::lemma_fundamental_div_mod(b as int, base as int);
            vstd::arithmetic::div_mod::lemma_mod_bound(a as int, base as int);
            vstd::arithmetic::div_mod::lemma_mod_bound(b as int, base as int);
            assert(a % base == b % base);
            assert(a / base < a) by (nonlinear_arith)
                requires
                    a >= base,
                    base >= 2,
            ;
            lemma_digits_differ(a / base, b / base, base, upper);
            assert(x.drop_last() =~= digits(a / base, base, upper));
            assert(y.drop_last() =~= digits(b / base, base, upper));
        }
    }
}

/// A byte has two digits in hexadecimal.
pub proof fn lemma_two_digits(n: nat)
    requires
        n <= 0xFF,
    ensures
        hex_lower_padded(n, 2) == seq![digit(n as int / 16, false), digit(n as int % 16, false)],
{
    let d = digits(n, 16, false);
    if n < 16 {
        assert(digit(0, false) == '0');
        assert(hex_lower_padded(n, 2) =~= seq!['0'] + d);
        assert(seq!['0'] + d =~= seq![digit(0, false), digit(n as int, false)]);
    } else {
        assert(digits(n / 16, 16, false) =~= seq![digit(n as int / 16, false)]);
        assert(d =~= seq![digit(n as int / 16, false), digit(n as int % 16, false)]);
    }
}

/// A byte has two digits in hexadecimal, also with capital letters.
pub proof fn lemma_two_capital_digits(n: nat)
    requires
        n <= 0xFF,
    ensures
        hex_padded(n, 2) == seq![digit(n as int / 16, true), digit(n as int % 16, true)],
{
    let d = digits(n, 16, true);
    if n < 16 {
        assert(digit(0, true) == '0');
        assert(hex_padded(n, 2) =~= seq!['0'] + d);
        assert(seq!['0'] + d =~= seq![digit(0, true), digit(n as int, true)]);
    } else {
        assert(digits(n / 16, 16, true) =~= seq![digit(n as int / 16, true)]);
        assert(d =~= seq![digit(n as int / 16, true), digit(n as int % 16, true)]);
    }
}

/// The value of a character as a digit, if it is one.
pub open spec fn digit_value(c: char) -> int {
    if '0' <= c && c <= '9' {
        c as int - 48
    } else if 'a' <= c && c <= 'f' {
        c as int - 97 + 10
    } else {
        c as int - 65 + 10
    }
}

/// The number that digits stand for, highest first.
pub open spec fn number_of(text: Seq<char>, base: int) -> int
    decreases text.len(),
{
    if text.len() == 0 {
        0
    } else {
        base * number_of(text.drop_last(), base) + digit_value(text.last())
    }
}

/// The digits of a number stand for it, and are no more than needed.
pub proof fn law_digits_stand_for_the_number(n: nat, base: nat, upper: bool)
    requires
        2 <= base <= 16,
    ensures
        number_of(digits(n, base, upper), base as int) == n,
        digits(n, base, upper).len() > 0,
        digits(n, base, upper)[0] == '0' ==> n == 0,
        forall|i: int|
            0 <= i < digits(n, base, upper).len() ==> is_digit_char(
                #[trigger] digits(n, base, upper)[i],
                upper,
            ),
    decreases n,
{
    let all = digits(n, base, upper);
    if n < base {
        assert(all.drop_last() =~= Seq::empty());
        assert(number_of(all.drop_last(), base as int) == 0);
    } else {
        assert(n / base < n) by (nonlinear_arith)
            requires
                n >= base,
                base >= 2,
        ;
        assert(n / base >= 1) by (nonlinear_arith)
            requires
                n >= base,
                base >= 2,
        ;
        law_digits_stand_for_the_number(n / base, base, upper);
        vstd::arithmetic::div_mod::lemma_fundamental_div_mod(n as int, base as int);
        vstd::arithmetic::div_mod::lemma_mod_bound(n as int, base as int);
        let before = digits(n / base, base, upper);
        assert(all.drop_last() =~= before);
        assert forall|i: int| 0 <= i < all.len() implies is_digit_char(#[trigger] all[i], upper) by {
            if i < before.len() {
                assert(all[i] == before[i]);
            }
        }
    }
}

/// A digit with letters of one case.
pub open spec fn is_digit_char(c: char, upper: bool) -> bool {
    ('0' <= c && c <= '9') || (upper && 'A' <= c && c <= 'F') || (!upper && 'a' <= c && c <= 'f')
}

/// A number that is filled up with zeros is as wide as it should be, or wider where it has more digits,
/// and is still the same number.
pub proof fn law_zeros_do_not_change_the_number(n: nat, width: nat, upper: bool)
    ensures
        ({
            let padded = zero_padded(digits(n, 16, upper), width);
            &&& padded.len() == if digits(n, 16, upper).len() < width {
                width
            } else {
                digits(n, 16, upper).len()
            }
            &&& number_of(padded, 16) == n
        }),
{
    law_digits_stand_for_the_number(n, 16, upper);
    let d = digits(n, 16, upper);
    if d.len() < width {
        lemma_leading_zeros_count_nothing((width - d.len()) as nat, d);
    }
}

proof fn lemma_leading_zeros_count_nothing(count: nat, text: Seq<char>)
    ensures
        number_of(Seq::new(count, |i: int| '0') + text, 16) == number_of(text, 16),
    decreases text.len(), count,
{
    let zeros = Seq::new(count, |i: int| '0');
    let all = zeros + text;
    if text.len() > 0 {
        lemma_leading_zeros_count_nothing(count, text.drop_last());
        assert(all.drop_last() =~= zeros + text.drop_last());
    } else if count > 0 {
        let fewer = (count - 1) as nat;
        lemma_leading_zeros_count_nothing(fewer, text);
        assert(all.drop_last() =~= Seq::new(fewer, |i: int| '0') + text);
    } else {
        assert(all =~= text);
    }
}

/// A number in decimal or hexadecimal stands for itself. A negative one has a sign in front of the
/// digits of its distance from zero, and no other has. Hexadecimal digits have capital letters.
pub proof fn law_numbers_are_written_in_their_base(n: nat)
    ensures
        number_of(decimal(n as int), 10) == n,
        n > 0 ==> decimal(-n) == seq!['-'] + decimal(n as int),
        number_of(hex(n), 16) == n,
        forall|i: int| 0 <= i < hex(n).len() ==> is_digit_char(#[trigger] hex(n)[i], true),
        forall|i: int|
            0 <= i < decimal(n as int).len() ==> is_digit_char(
                #[trigger] decimal(n as int)[i],
                true,
            ),
{
    law_digits_stand_for_the_number(n, 10, true);
    law_digits_stand_for_the_number(n, 16, true);
}

/// Small numbers have few digits in hexadecimal.
pub proof fn lemma_few_digits(n: nat, count: nat, upper: bool)
    requires
        count == 2 && n < 0x100 || count == 4 && n < 0x1_0000 || count == 8 && n < 0x1_0000_0000
            || count == 16 && n < 0x1_0000_0000_0000_0000,
    ensures
        digits(n, 16, upper).len() <= count,
{
    reveal_with_fuel(digits, 17);
}

} // verus!
