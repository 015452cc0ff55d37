//! Lines of assembly.

use vstd::prelude::*;
use vstd::string::*;

use crate::fmt::{
    self, format_decimal, format_hex, format_hex_lower_padded, format_hex_padded,
};

verus! {

/// `text` with one more line.
pub open spec fn line(text: Seq<char>, content: Seq<char>) -> Seq<char> {
    text + content + "\n"@
}

/// `text` with one more line, which is made of two parts.
pub open spec fn line_of_two(text: Seq<char>, a: Seq<char>, b: Seq<char>) -> Seq<char> {
    text + a + b + "\n"@
}

/// `text` with one more line, which is made of three parts.
pub open spec fn line_of_three(
    text: Seq<char>,
    a: Seq<char>,
    b: Seq<char>,
    c: Seq<char>,
) -> Seq<char> {
    text + a + b + c + "\n"@
}

/// `text` with one more line, which is made of four parts.
pub open spec fn line_of_four(
    text: Seq<char>,
    a: Seq<char>,
    b: Seq<char>,
    c: Seq<char>,
    d: Seq<char>,
) -> Seq<char> {
    text + a + b + c + d + "\n"@
}

/// `text` with a label that other files may use.
pub open spec fn global_label(text: Seq<char>, name: Seq<char>) -> Seq<char> {
    line_of_two(line_of_two(text, ".global "@, name), name, ":"@)
}

/// `text` with a label that other files may use, for each of the names from `from` on.
pub open spec fn global_labels(text: Seq<char>, names: Seq<Seq<char>>, from: int) -> Seq<char>
    decreases names.len() - from,
{
    if from < 0 || from >= names.len() {
        text
    } else {
        global_labels(global_label(text, names[from]), names, from + 1)
    }
}

/// The contents of several strings.
pub open spec fn text_views(texts: Seq<String>) -> Seq<Seq<char>> {
    texts.map_values(|s: String| s@)
}

/// The name of the data at an address that has no other name.
pub open spec fn offset_name(address: u64) -> Seq<char> {
    "off_"@ + fmt::hex(address as nat)
}

/// `text` with one byte.
pub open spec fn byte_line(text: Seq<char>, value: u8) -> Seq<char> {
    line_of_two(text, "\t.byte 0x"@, fmt::hex_padded(value as nat, 2))
}

/// `text` with all bytes of `data` from `from` on.
pub open spec fn byte_lines(text: Seq<char>, data: Seq<u8>, from: int) -> Seq<char>
    decreases data.len() - from,
{
    if from < 0 || from >= data.len() {
        text
    } else {
        byte_lines(byte_line(text, data[from]), data, from + 1)
    }
}

pub fn put_line(out: &mut String, content: &str)
    ensures
        final(out)@ == line(old(out)@, content@),
{
    out.append(content);
    out.append("\n");
}

pub fn put_line_of_two(out: &mut String, a: &str, b: &str)
    ensures
        final(out)@ == line_of_two(old(out)@, a@, b@),
{
    out.append(a);
    out.append(b);
    out.append("\n");
}

pub fn put_line_of_three(out: &mut String, a: &str, b: &str, c: &str)
    ensures
        final(out)@ == line_of_three(old(out)@, a@, b@, c@),
{
    out.append(a);
    out.append(b);
    out.append(c);
    out.append("\n");
}

pub fn put_line_of_four(out: &mut String, a: &str, b: &str, c: &str, d: &str)
    ensures
        final(out)@ == line_of_four(old(out)@, a@, b@, c@, d@),
{
    out.append(a);
    out.append(b);
    out.append(c);
    out.append(d);
    out.append("\n");
}

/// Adds a line with a number in decimal.
pub fn put_decimal(out: &mut String, directive: &str, value: u64)
    ensures
        final(out)@ == line_of_two(old(out)@, directive@, fmt::decimal(value as int)),
{
    put_line_of_two(out, directive, format_decimal(value).as_str());
}

pub fn put_global_label(out: &mut String, name: &str)
    ensures
        final(out)@ == global_label(old(out)@, name@),
{
    put_line_of_two(out, ".global ", name);
    put_line_of_two(out, name, ":");
}

pub fn put_global_labels(out: &mut String, names: &Vec<String>)
    ensures
        final(out)@ == global_labels(old(out)@, text_views(names@), 0),
{
    let ghost before = out@;
    let ghost views = text_views(names@);
    let mut i: usize = 0;
    while i < names.len()
        invariant
            i <= names@.len(),
            views == text_views(names@),
            global_labels(out@, views, i as int) == global_labels(before, views, 0),
        decreases names@.len() - i,
    {
        assert(views[i as int] == names@[i as int]@);
        put_global_label(out, names[i].as_str());
        i = i + 1;
    }
}

pub fn make_offset_name(address: u64) -> (r: String)
    ensures
        r@ == offset_name(address),
{
    let mut name = String::from_str("off_");
    name.append(format_hex(address).as_str());
    name
}

pub fn put_byte(out: &mut String, value: u8)
    ensures
        final(out)@ == byte_line(old(out)@, value),
{
    put_line_of_two(out, "\t.byte 0x", format_hex_padded(value as u64, 2).as_str());
}

pub fn put_bytes(out: &mut String, data: &[u8])
    ensures
        final(out)@ == byte_lines(old(out)@, data@, 0),
{
    let ghost before = out@;
    let mut i: usize = 0;
    while i < data.len()
        invariant
            i <= data@.len(),
            byte_lines(out@, data@, i as int) == byte_lines(before, data@, 0),
        decreases data@.len() - i,
    {
        put_byte(out, data[i]);
        i = i + 1;
    }
}

/// `text` with a line for each of the numbers from `from` on.
pub open spec fn word_lines(text: Seq<char>, values: Seq<u32>, from: int) -> Seq<char>
    decreases values.len() - from,
{
    if from < 0 || from >= values.len() {
        text
    } else {
        word_lines(
            line_of_two(text, ".word "@, fmt::decimal(values[from] as int)),
            values,
            from + 1,
        )
    }
}

/// `text` with a line for each of the numbers from `from` on.
pub open spec fn quad_lines(text: Seq<char>, values: Seq<u64>, from: int) -> Seq<char>
    decreases values.len() - from,
{
    if from < 0 || from >= values.len() {
        text
    } else {
        quad_lines(
            line_of_two(text, ".quad "@, fmt::decimal(values[from] as int)),
            values,
            from + 1,
        )
    }
}

pub fn put_words(out: &mut String, values: &Vec<u32>)
    ensures
        final(out)@ == word_lines(old(out)@, values@, 0),
{
    let ghost before = out@;
    let mut i: usize = 0;
    while i < values.len()
        invariant
            i <= values@.len(),
            word_lines(out@, values@, i as int) == word_lines(before, values@, 0),
        decreases values@.len() - i,
    {
        put_decimal(out, ".word ", values[i] as u64);
        i = i + 1;
    }
}

pub fn put_quads(out: &mut String, values: &Vec<u64>)
    ensures
        final(out)@ == quad_lines(old(out)@, values@, 0),
{
    let ghost before = out@;
    let mut i: usize = 0;
    while i < values.len()
        invariant
            i <= values@.len(),
            quad_lines(out@, values@, i as int) == quad_lines(before, values@, 0),
        decreases values@.len() - i,
    {
        put_decimal(out, ".quad ", values[i]);
        i = i + 1;
    }
}

/// A control character of Unicode.
pub open spec fn is_control(c: char) -> bool {
    c as int <= 0x1F || 0x7F <= c as int <= 0x9F
}

/// How a character is written in a string of the assembler.
pub open spec fn escaped_char(c: char) -> Seq<char> {
    if c == '"' {
        "\\\""@
    } else if c == '\\' {
        "\\\\"@
    } else if c == '\n' {
        "\\n"@
    } else if c == '\r' {
        "\\r"@
    } else if c == '\t' {
        "\\t"@
    } else if c == '\x07' {
        "\\a"@
    } else if c == '\x08' {
        "\\b"@
    } else if c == '\x0c' {
        "\\f"@
    } else if c == '\x0b' {
        "\\v"@
    } else if c == '\0' {
        "\\0"@
    } else if is_control(c) {
        "\\x"@ + fmt::hex_lower_padded(c as nat, 2)
    } else {
        seq![c]
    }
}

/// How a text is written in a string of the assembler.
pub open spec fn escaped(text: Seq<char>) -> Seq<char>
    decreases text.len(),
{
    if text.len() == 0 {
        Seq::empty()
    } else {
        escaped(text.drop_last()) + escaped_char(text.last())
    }
}

fn put_escaped(out: &mut String, text: &str, i: usize)
    requires
        i < text@.len(),
    ensures
        final(out)@ == old(out)@ + escaped_char(text@[i as int]),
{
    let length: usize = text.unicode_len();
    let c: char = text.get_char(i);
    if c == '"' {
        out.append("\\\"");
    } else if c == '\\' {
        out.append("\\\\");
    } else if c == '\n' {
        out.append("\\n");
    } else if c == '\r' {
        out.append("\\r");
    } else if c == '\t' {
        out.append("\\t");
    } else if c == '\x07' {
        out.append("\\a");
    } else if c == '\x08' {
        out.append("\\b");
    } else if c == '\x0c' {
        out.append("\\f");
    } else if c == '\x0b' {
        out.append("\\v");
    } else if c == '\0' {
        out.append("\\0");
    } else {
        let code: u32 = c as u32;
        if code <= 0x1F || (0x7F <= code && code <= 0x9F) {
            let mut escape = String::from_str("\\x");
            escape.append(format_hex_lower_padded(code as u64, 2).as_str());
            out.append(escape.as_str());
        } else {
            out.append(text.substring_char(i, i + 1));
            assert(text@.subrange(i as int, i + 1) =~= seq![c]);
        }
    }
}

/// Writes a text as it stands in a string of the assembler.
pub fn escape_for_asm_string(s: &str) -> (r: String)
    ensures
        r@ == escaped(s@),
{
    let length: usize = s.unicode_len();
    let mut out = String::from_str("");
    proof {
        reveal_strlit("");
        assert(out@ =~= escaped(s@.take(0)));
    }
    let mut i: usize = 0;
    while i < length
        invariant
            i <= length,
            length == s@.len(),
            out@ == escaped(s@.take(i as int)),
        decreases length - i,
    {
        assert(s@.take(i + 1).drop_last() =~= s@.take(i as int));
        put_escaped(&mut out, s, i);
        i = i + 1;
    }
    assert(s@.take(i as int) =~= s@);
    out
}

/// `after` starts with `text`.
pub open spec fn goes_on(text: Seq<char>, after: Seq<char>) -> bool {
    text.len() <= after.len() && after.take(text.len() as int) == text
}

/// Somewhere in `text` there is a label for each of the names.
pub open spec fn is_labelled(text: Seq<char>, names: Seq<Seq<char>>) -> bool {
    exists|before: Seq<char>| goes_on(#[trigger] global_labels(before, names, 0), text)
}

/// Somewhere in `text` there is `part`.
pub open spec fn is_written(text: Seq<char>, part: Seq<char>) -> bool {
    exists|before: Seq<char>| goes_on(#[trigger] (before + part), text)
}

pub proof fn lemma_add_goes_on(text: Seq<char>, more: Seq<char>)
    ensures
        goes_on(text, text + more),
{
    assert((text + more).take(text.len() as int) =~= text);
}

pub proof fn lemma_stays(text: Seq<char>)
    ensures
        goes_on(text, text),
{
    assert(text.take(text.len() as int) =~= text);
}

pub proof fn lemma_goes_on(a: Seq<char>, b: Seq<char>, c: Seq<char>)
    requires
        goes_on(a, b),
        goes_on(b, c),
    ensures
        goes_on(a, c),
{
    assert(c.take(a.len() as int) =~= b.take(a.len() as int)) by {
        assert(c.take(b.len() as int) == b);
        assert forall|i: int| 0 <= i < a.len() implies c[i] == b[i] by {
            assert(c.take(b.len() as int)[i] == c[i]);
        }
    }
}

pub proof fn lemma_line_goes_on(text: Seq<char>, content: Seq<char>)
    ensures
        goes_on(text, line(text, content)),
{
    lemma_add_goes_on(text, content);
    lemma_add_goes_on(text + content, "\n"@);
    lemma_goes_on(text, text + content, line(text, content));
}

pub proof fn lemma_line_of_two_goes_on(text: Seq<char>, a: Seq<char>, b: Seq<char>)
    ensures
        goes_on(text, line_of_two(text, a, b)),
{
    lemma_add_goes_on(text, a);
    lemma_line_goes_on(text + a, b);
    lemma_goes_on(text, text + a, line_of_two(text, a, b));
}

pub proof fn lemma_line_of_three_goes_on(
    text: Seq<char>,
    a: Seq<char>,
    b: Seq<char>,
    c: Seq<char>,
)
    ensures
        goes_on(text, line_of_three(text, a, b, c)),
{
    lemma_add_goes_on(text, a);
    lemma_line_of_two_goes_on(text + a, b, c);
    lemma_goes_on(text, text + a, line_of_three(text, a, b, c));
}

pub proof fn lemma_line_of_four_goes_on(
    text: Seq<char>,
    a: Seq<char>,
    b: Seq<char>,
    c: Seq<char>,
    d: Seq<char>,
)
    ensures
        goes_on(text, line_of_four(text, a, b, c, d)),
{
    lemma_add_goes_on(text, a);
    lemma_line_of_three_goes_on(text + a, b, c, d);
    lemma_goes_on(text, text + a, line_of_four(text, a, b, c, d));
}

pub proof fn lemma_global_label_goes_on(text: Seq<char>, name: Seq<char>)
    ensures
        goes_on(text, global_label(text, name)),
{
    let a = line_of_two(text, ".global "@, name);
    lemma_line_of_two_goes_on(text, ".global "@, name);
    lemma_line_of_two_goes_on(a, name, ":"@);
    lemma_goes_on(text, a, global_label(text, name));
}

pub proof fn lemma_global_labels_go_on(text: Seq<char>, names: Seq<Seq<char>>, from: int)
    ensures
        goes_on(text, global_labels(text, names, from)),
    decreases names.len() - from,
{
    if 0 <= from < names.len() {
        let next = global_label(text, names[from]);
        lemma_global_label_goes_on(text, names[from]);
        lemma_global_labels_go_on(next, names, from + 1);
        lemma_goes_on(text, next, global_labels(text, names, from));
    } else {
        lemma_add_goes_on(text, Seq::empty());
        assert(text + Seq::<char>::empty() =~= text);
    }
}

pub proof fn lemma_byte_lines_go_on(text: Seq<char>, data: Seq<u8>, from: int)
    ensures
        goes_on(text, byte_lines(text, data, from)),
    decreases data.len() - from,
{
    if 0 <= from < data.len() {
        let next = byte_line(text, data[from]);
        lemma_line_of_two_goes_on(text, "\t.byte 0x"@, fmt::hex_padded(data[from] as nat, 2));
        lemma_byte_lines_go_on(next, data, from + 1);
        lemma_goes_on(text, next, byte_lines(text, data, from));
    } else {
        lemma_add_goes_on(text, Seq::empty());
        assert(text + Seq::<char>::empty() =~= text);
    }
}

/// A label in a text stays when the text goes on.
pub proof fn lemma_stays_labelled(text: Seq<char>, after: Seq<char>, names: Seq<Seq<char>>)
    requires
        is_labelled(text, names),
        goes_on(text, after),
    ensures
        is_labelled(after, names),
{
    let before = choose|before: Seq<char>|
        goes_on(#[trigger] global_labels(before, names, 0), text);
    lemma_goes_on(global_labels(before, names, 0), text, after);
}

/// What is written in a text stays when the text goes on.
pub proof fn lemma_stays_written(text: Seq<char>, after: Seq<char>, part: Seq<char>)
    requires
        is_written(text, part),
        goes_on(text, after),
    ensures
        is_written(after, part),
{
    let before = choose|before: Seq<char>| goes_on(#[trigger] (before + part), text);
    lemma_goes_on(before + part, text, after);
}

/// What a text ends with is written in it.
pub proof fn lemma_ends_written(text: Seq<char>, before: Seq<char>, part: Seq<char>)
    requires
        text == before + part,
    ensures
        is_written(text, part),
{
    assert(text.take(text.len() as int) =~= text);
    assert(goes_on(before + part, text));
}

proof fn lemma_hex_digits(n: nat, i: int)
    requires
        0 <= i < fmt::digits(n, 16, false).len(),
    ensures
        !is_control(fmt::digits(n, 16, false)[i]),
    decreases n,
{
    if n >= 16 && i < fmt::digits(n, 16, false).len() - 1 {
        lemma_hex_digits(n / 16, i);
    }
}

proof fn lemma_escaped_char(c: char, i: int)
    requires
        0 <= i < escaped_char(c).len(),
    ensures
        !is_control(escaped_char(c)[i]),
{
    reveal_strlit("\\\"");
    reveal_strlit("\\\\");
    reveal_strlit("\\n");
    reveal_strlit("\\r");
    reveal_strlit("\\t");
    reveal_strlit("\\a");
    reveal_strlit("\\b");
    reveal_strlit("\\f");
    reveal_strlit("\\v");
    reveal_strlit("\\0");
    reveal_strlit("\\x");
    let digits = fmt::digits(c as nat, 16, false);
    let padded = fmt::hex_lower_padded(c as nat, 2);
    if is_control(c) && i >= 2 && escaped_char(c) == "\\x"@ + padded {
        let k = i - 2 - (padded.len() - digits.len());
        if k >= 0 {
            lemma_hex_digits(c as nat, k);
            assert(padded[i - 2] == digits[k]);
        } else {
            assert(padded[i - 2] == '0');
        }
    }
}

/// A text that is written as a string of the assembler stays on one line: it has no control
/// characters any more.
pub proof fn law_escaped_text_has_no_control_characters(text: Seq<char>, i: int)
    requires
        0 <= i < escaped(text).len(),
    ensures
        !is_control(escaped(text)[i]),
    decreases text.len(),
{
    if text.len() > 0 {
        let before = escaped(text.drop_last());
        if i < before.len() {
            law_escaped_text_has_no_control_characters(text.drop_last(), i);
        } else {
            lemma_escaped_char(text.last(), i - before.len());
        }
    }
}

/// The character stands for itself in a string of the assembler.
pub open spec fn is_plain(c: char) -> bool {
    c != '"' && c != '\\' && !is_control(c)
}

/// What follows the backslash where a character does not stand for itself.
spec fn escape_mark(c: char) -> char {
    if c == '"' {
        '"'
    } else if c == '\\' {
        '\\'
    } else if c == '\n' {
        'n'
    } else if c == '\r' {
        'r'
    } else if c == '\t' {
        't'
    } else if c == '\x07' {
        'a'
    } else if c == '\x08' {
        'b'
    } else if c == '\x0c' {
        'f'
    } else if c == '\x0b' {
        'v'
    } else if c == '\0' {
        '0'
    } else {
        'x'
    }
}

proof fn lemma_escape(c: char)
    ensures
        is_plain(c) ==> escaped_char(c) == seq![c],
        !is_plain(c) ==> escaped_char(c).len() >= 2 && escaped_char(c)[0] == '\\' && escaped_char(
            c,
        )[1] == escape_mark(c),
        !is_plain(c) && escape_mark(c) != 'x' ==> escaped_char(c).len() == 2,
        !is_plain(c) && escape_mark(c) == 'x' ==> escaped_char(c) == "\\x"@
            + fmt::hex_lower_padded(c as nat, 2) && c as nat <= 0xFF,
{
    reveal_strlit("\\\"");
    reveal_strlit("\\\\");
    reveal_strlit("\\n");
    reveal_strlit("\\r");
    reveal_strlit("\\t");
    reveal_strlit("\\a");
    reveal_strlit("\\b");
    reveal_strlit("\\f");
    reveal_strlit("\\v");
    reveal_strlit("\\0");
    reveal_strlit("\\x");
}

/// No escape begins with another one.
proof fn lemma_escapes_differ(c: char, d: char, x: Seq<char>, y: Seq<char>)
    requires
        escaped_char(c) + x == escaped_char(d) + y,
    ensures
        c == d,
        x == y,
{
    lemma_escape(c);
    lemma_escape(d);
    let (a, b) = (escaped_char(c) + x, escaped_char(d) + y);
    assert(a[0] == b[0]);
    if !is_plain(c) && !is_plain(d) {
        assert(a[1] == escape_mark(c));
        assert(b[1] == escape_mark(d));
        if escape_mark(c) == 'x' {
            reveal_strlit("\\x");
            fmt::lemma_two_digits(c as nat);
            fmt::lemma_two_digits(d as nat);
            let p = fmt::hex_lower_padded(c as nat, 2);
            let q = fmt::hex_lower_padded(d as nat, 2);
            assert(a[2] == p[0] && b[2] == q[0]);
            assert(a[3] == p[1] && b[3] == q[1]);
            assert(c as nat == d as nat);
        }
    }
    assert(c == d);
    let n = escaped_char(c).len() as int;
    assert(x =~= a.skip(n));
    assert(y =~= b.skip(n));
}

/// A text is escaped part by part.
pub proof fn law_escaping_goes_by_parts(a: Seq<char>, b: Seq<char>)
    ensures
        escaped(a + b) == escaped(a) + escaped(b),
    decreases b.len(),
{
    if b.len() == 0 {
        assert(a + b =~= a);
        assert(escaped(a) + escaped(b) =~= escaped(a));
    } else {
        law_escaping_goes_by_parts(a, b.drop_last());
        assert((a + b).drop_last() =~= a + b.drop_last());
        let last = escaped_char(b.last());
        assert(escaped(a) + escaped(b.drop_last()) + last =~= escaped(a) + (escaped(b.drop_last())
            + last));
    }
}

proof fn lemma_escaped_first(text: Seq<char>)
    requires
        text.len() > 0,
    ensures
        escaped(text) == escaped_char(text[0]) + escaped(text.drop_first()),
        escaped(text).len() > 0,
{
    let first = text.take(1);
    assert(escaped(first.drop_last()) =~= Seq::empty());
    assert(first.last() == text[0]);
    assert(escaped(first) =~= escaped_char(text[0]));
    assert(text =~= first + text.drop_first());
    law_escaping_goes_by_parts(first, text.drop_first());
    lemma_escape(text[0]);
}

/// Different texts stay different when they are escaped.
pub proof fn law_escaped_texts_differ(a: Seq<char>, b: Seq<char>)
    requires
        a != b,
    ensures
        escaped(a) != escaped(b),
    decreases a.len(),
{
    if a.len() > 0 {
        lemma_escaped_first(a);
    }
    if b.len() > 0 {
        lemma_escaped_first(b);
    }
    if a.len() > 0 && b.len() > 0 {
        if escaped(a) == escaped(b) {
            lemma_escapes_differ(
                a[0],
                b[0],
                escaped(a.drop_first()),
                escaped(b.drop_first()),
            );
            if a.drop_first() == b.drop_first() {
                assert(a =~= seq![a[0]] + a.drop_first());
                assert(b =~= seq![b[0]] + b.drop_first());
            } else {
                law_escaped_texts_differ(a.drop_first(), b.drop_first());
            }
        }
    } else if a.len() == 0 && b.len() == 0 {
        assert(a =~= b);
    }
}

/// A quotation mark in an escaped text is always the second character of the escape for one, so that it
/// does not end the string.
pub proof fn law_quotes_are_escaped(text: Seq<char>, i: int)
    requires
        0 <= i < escaped(text).len(),
        escaped(text)[i] == '"',
    ensures
        exists|k: int|
            0 <= k < text.len() && text[k] == '"' && i == escaped(#[trigger] text.take(k)).len() + 1,
    decreases text.len(),
{
    let before = escaped(text.drop_last());
    if i < before.len() {
        law_quotes_are_escaped(text.drop_last(), i);
        let k = choose|k: int|
            0 <= k < text.len() - 1 && text.drop_last()[k] == '"' && i == escaped(
                #[trigger] text.drop_last().take(k),
            ).len() + 1;
        assert(text.drop_last().take(k) =~= text.take(k));
    } else {
        let c = text.last();
        let m = i - before.len();
        assert(escaped_char(c)[m] == '"');
        lemma_escape(c);
        if escape_mark(c) == 'x' && !is_plain(c) {
            reveal_strlit("\\x");
            fmt::lemma_two_digits(c as nat);
        }
        assert(c == '"' && m == 1);
        let k = text.len() - 1;
        assert(text.take(k) =~= text.drop_last());
    }
}

/// A text is left as it is where all of its characters stand for themselves.
pub proof fn law_plain_text_is_not_escaped(text: Seq<char>)
    requires
        forall|i: int| 0 <= i < text.len() ==> is_plain(#[trigger] text[i]),
    ensures
        escaped(text) == text,
    decreases text.len(),
{
    if text.len() == 0 {
        assert(text =~= Seq::empty());
    } else {
        let before = text.drop_last();
        assert forall|i: int| 0 <= i < before.len() implies is_plain(#[trigger] before[i]) by {
            assert(is_plain(text[i]));
        }
        law_plain_text_is_not_escaped(before);
        assert(is_plain(text[text.len() - 1]));
        lemma_escape(text.last());
        assert(before + seq![text.last()] =~= text);
    }
}

/// Bytes one by one, each on a line of its own and in two hexadecimal digits.
pub open spec fn listing_of_bytes(data: Seq<u8>) -> Seq<char>
    decreases data.len(),
{
    if data.len() == 0 {
        Seq::empty()
    } else {
        seq!['\t', '.', 'b', 'y', 't', 'e', ' ', '0', 'x'] + seq![
            fmt::digit(data[0] as int / 16, true),
            fmt::digit(data[0] as int % 16, true),
            '\n',
        ] + listing_of_bytes(data.skip(1))
    }
}

pub proof fn lemma_listing_of_bytes(text: Seq<char>, data: Seq<u8>, from: int)
    requires
        0 <= from <= data.len(),
    ensures
        byte_lines(text, data, from) == text + listing_of_bytes(data.skip(from)),
    decreases data.len() - from,
{
    if from < data.len() {
        reveal_strlit("\t.byte 0x");
        reveal_strlit("\n");
        fmt::lemma_two_capital_digits(data[from] as nat);
        lemma_listing_of_bytes(byte_line(text, data[from]), data, from + 1);
        assert(data.skip(from).skip(1) =~= data.skip(from + 1));
        let head = seq!['\t', '.', 'b', 'y', 't', 'e', ' ', '0', 'x'];
        assert("\t.byte 0x"@ =~= head);
        assert(byte_lines(text, data, from) =~= text + listing_of_bytes(data.skip(from)));
    } else {
        assert(text + listing_of_bytes(data.skip(from)) =~= text);
    }
}

/// Each line ends with a line break and is nothing but its parts.
pub proof fn law_lines_are_their_parts(
    text: Seq<char>,
    a: Seq<char>,
    b: Seq<char>,
    c: Seq<char>,
    d: Seq<char>,
)
    ensures
        line(text, a) == text + a + seq!['\n'],
        line_of_two(text, a, b) == text + (a + b) + seq!['\n'],
        line_of_three(text, a, b, c) == text + (a + b + c) + seq!['\n'],
        line_of_four(text, a, b, c, d) == text + (a + b + c + d) + seq!['\n'],
{
    reveal_strlit("\n");
    assert("\n"@ =~= seq!['\n']);
    assert(line_of_two(text, a, b) =~= text + (a + b) + seq!['\n']);
    assert(line_of_three(text, a, b, c) =~= text + (a + b + c) + seq!['\n']);
    assert(line_of_four(text, a, b, c, d) =~= text + (a + b + c + d) + seq!['\n']);
}

/// A label is announced to other files before it is set, by the same name.
pub proof fn law_labels_are_announced(text: Seq<char>, names: Seq<Seq<char>>, from: int)
    requires
        0 <= from < names.len(),
    ensures
        global_label(text, names[from]) == text + (".global "@ + names[from] + seq!['\n'])
            + names[from] + seq![':', '\n'],
        global_labels(text, names, from) == global_labels(
            text + (".global "@ + names[from] + seq!['\n']) + names[from] + seq![':', '\n'],
            names,
            from + 1,
        ),
        global_labels(text, names, names.len() as int) == text,
{
    reveal_strlit("\n");
    reveal_strlit(":");
    let name = names[from];
    assert(global_label(text, name) =~= text + (".global "@ + name + seq!['\n']) + name + seq![
        ':',
        '\n',
    ]);
}

/// Numbers are listed one by one, each with the directive for its size.
pub proof fn law_numbers_are_listed(text: Seq<char>, words: Seq<u32>, quads: Seq<u64>, from: int)
    requires
        0 <= from,
    ensures
        from < words.len() ==> word_lines(text, words, from) == word_lines(
            text + (".word "@ + fmt::decimal(words[from] as int)) + seq!['\n'],
            words,
            from + 1,
        ),
        from >= words.len() ==> word_lines(text, words, from) == text,
        from < quads.len() ==> quad_lines(text, quads, from) == quad_lines(
            text + (".quad "@ + fmt::decimal(quads[from] as int)) + seq!['\n'],
            quads,
            from + 1,
        ),
        from >= quads.len() ==> quad_lines(text, quads, from) == text,
{
    if from < words.len() {
        law_lines_are_their_parts(
            text,
            ".word "@,
            fmt::decimal(words[from] as int),
            Seq::empty(),
            Seq::empty(),
        );
    }
    if from < quads.len() {
        law_lines_are_their_parts(
            text,
            ".quad "@,
            fmt::decimal(quads[from] as int),
            Seq::empty(),
            Seq::empty(),
        );
    }
}

/// Data without a name is named by its address.
pub proof fn law_offsets_are_named_by_their_number(address: u64)
    ensures
        offset_name(address) == seq!['o', 'f', 'f', '_'] + fmt::hex(address as nat),
{
    reveal_strlit("off_");
    assert("off_"@ =~= seq!['o', 'f', 'f', '_']);
}

/// Characters that do not stand for themselves are escaped as the assembler reads them.
pub proof fn law_escapes_are_those_of_the_assembler(c: char)
    ensures
        escaped_char('"') == seq!['\\', '"'],
        escaped_char('\\') == seq!['\\', '\\'],
        escaped_char('\n') == seq!['\\', 'n'],
        escaped_char('\r') == seq!['\\', 'r'],
        escaped_char('\t') == seq!['\\', 't'],
        escaped_char('\x07') == seq!['\\', 'a'],
        escaped_char('\x08') == seq!['\\', 'b'],
        escaped_char('\x0c') == seq!['\\', 'f'],
        escaped_char('\x0b') == seq!['\\', 'v'],
        escaped_char('\0') == seq!['\\', '0'],
        is_plain(c) ==> escaped_char(c) == seq![c],
        is_control(c) && !(7 <= c as int <= 13) && c != '\0' ==> escaped_char(c) == seq!['\\', 'x']
            + fmt::hex_lower_padded(c as nat, 2),
{
    reveal_strlit("\\\"");
    reveal_strlit("\\\\");
    reveal_strlit("\\n");
    reveal_strlit("\\r");
    reveal_strlit("\\t");
    reveal_strlit("\\a");
    reveal_strlit("\\b");
    reveal_strlit("\\f");
    reveal_strlit("\\v");
    reveal_strlit("\\0");
    reveal_strlit("\\x");
    let backslash = "\\x"@;
    assert(backslash =~= seq!['\\', 'x']);
    assert(escaped_char('"') =~= seq!['\\', '"']);
    assert(escaped_char('\\') =~= seq!['\\', '\\']);
    assert(escaped_char('\n') =~= seq!['\\', 'n']);
    assert(escaped_char('\r') =~= seq!['\\', 'r']);
    assert(escaped_char('\t') =~= seq!['\\', 't']);
    assert(escaped_char('\x07') =~= seq!['\\', 'a']);
    assert(escaped_char('\x08') =~= seq!['\\', 'b']);
    assert(escaped_char('\x0c') =~= seq!['\\', 'f']);
    assert(escaped_char('\x0b') =~= seq!['\\', 'v']);
    assert(escaped_char('\0') =~= seq!['\\', '0']);
}

} // verus!
