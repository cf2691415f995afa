//! JSON quoting of a string with an ASCII-only result.
//!
//! Every character outside ASCII is written as `\uXXXX` (a surrogate pair for
//! characters above U+FFFF); quote, backslash and the control characters below
//! U+0020 get their JSON escapes; all other ASCII characters stand for
//! themselves.

use vstd::prelude::*;

verus! {

/// The lower-case hexadecimal digit of a value below sixteen.
pub open spec fn hex_digit(n: int) -> char {
    if n < 10 {
        (0x30 + n) as char
    } else {
        (0x61 + n - 10) as char
    }
}

/// The six characters `\uXXXX` for a UTF-16 code unit.
pub open spec fn unicode_escape(unit: int) -> Seq<char> {
    seq![
        '\\',
        'u',
        hex_digit(unit / 4096),
        hex_digit(unit / 256 % 16),
        hex_digit(unit / 16 % 16),
        hex_digit(unit % 16),
    ]
}

/// What one character becomes inside the quotes.
pub open spec fn escape_char(c: char) -> Seq<char> {
    let code = c as int;
    if c == '"' {
        seq!['\\', '"']
    } else if c == '\\' {
        seq!['\\', '\\']
    } else if code == 0x08 {
        seq!['\\', 'b']
    } else if code == 0x09 {
        seq!['\\', 't']
    } else if code == 0x0a {
        seq!['\\', 'n']
    } else if code == 0x0c {
        seq!['\\', 'f']
    } else if code == 0x0d {
        seq!['\\', 'r']
    } else if code < 0x20 {
        unicode_escape(code)
    } else if code < 0x80 {
        seq![c]
    } else if code < 0x10000 {
        unicode_escape(code)
    } else {
        unicode_escape(0xd800 + (code - 0x10000) / 0x400) + unicode_escape(
            0xdc00 + (code - 0x10000) % 0x400,
        )
    }
}

/// The escapes of the characters of `s`, in order.
pub open spec fn escape_chars(s: Seq<char>) -> Seq<char>
    decreases s.len(),
{
    if s.len() == 0 {
        Seq::empty()
    } else {
        escape_char(s.first()) + escape_chars(s.drop_first())
    }
}

/// The JSON-quoted, ASCII-only form of `s`.
pub open spec fn escape_to_ascii(s: Seq<char>) -> Seq<char> {
    seq!['"'] + escape_chars(s) + seq!['"']
}

/// The value of a hexadecimal digit of either case.
pub open spec fn hex_value(c: char) -> Option<int> {
    let code = c as int;
    if 0x30 <= code <= 0x39 {
        Some(code - 0x30)
    } else if 0x61 <= code <= 0x66 {
        Some(code - 0x61 + 10)
    } else if 0x41 <= code <= 0x46 {
        Some(code - 0x41 + 10)
    } else {
        None
    }
}

/// The code unit that the first four characters of `s` spell in hexadecimal.
pub open spec fn hex4(s: Seq<char>) -> Option<int> {
    if s.len() >= 4 && hex_value(s[0]) is Some && hex_value(s[1]) is Some && hex_value(
        s[2],
    ) is Some && hex_value(s[3]) is Some {
        Some(
            ((hex_value(s[0])->0 * 16 + hex_value(s[1])->0) * 16 + hex_value(s[2])->0) * 16
                + hex_value(s[3])->0,
        )
    } else {
        None
    }
}

/// The character that a two-character escape `\e` stands for.
pub open spec fn short_escape(e: char) -> Option<char> {
    if e == '"' {
        Some('"')
    } else if e == '\\' {
        Some('\\')
    } else if e == '/' {
        Some('/')
    } else if e == 'b' {
        Some(0x08 as char)
    } else if e == 't' {
        Some(0x09 as char)
    } else if e == 'n' {
        Some(0x0a as char)
    } else if e == 'f' {
        Some(0x0c as char)
    } else if e == 'r' {
        Some(0x0d as char)
    } else {
        None
    }
}

/// Reads one character from the front of the non-empty body `s` of a JSON
/// string: the character, and how many characters of `s` spell it. `None`
/// where JSON does not allow what stands there.
pub open spec fn decode_one(s: Seq<char>) -> Option<(char, int)> {
    let c = s[0];
    if c == '"' || (c as int) < 0x20 {
        None
    } else if c != '\\' {
        Some((c, 1))
    } else if s.len() < 2 {
        None
    } else if s[1] != 'u' {
        match short_escape(s[1]) {
            Some(d) => Some((d, 2)),
            None => None,
        }
    } else {
        match hex4(s.skip(2)) {
            None => None,
            Some(unit) => {
                if 0xd800 <= unit < 0xdc00 {
                    if s.len() >= 12 && s[6] == '\\' && s[7] == 'u' {
                        match hex4(s.skip(8)) {
                            Some(low) => {
                                if 0xdc00 <= low < 0xe000 {
                                    Some(
                                        (
                                            (0x10000 + (unit - 0xd800) * 0x400 + (low
                                                - 0xdc00)) as char,
                                            12,
                                        ),
                                    )
                                } else {
                                    None
                                }
                            },
                            None => None,
                        }
                    } else {
                        None
                    }
                } else if 0xdc00 <= unit < 0xe000 {
                    None
                } else {
                    Some((unit as char, 6))
                }
            },
        }
    }
}

/// The characters that the body `s` of a JSON string spells, or `None` where
/// `s` is no such body.
pub open spec fn decode_chars(s: Seq<char>) -> Option<Seq<char>>
    decreases s.len(),
{
    if s.len() == 0 {
        Some(Seq::empty())
    } else {
        match decode_one(s) {
            None => None,
            Some((c, used)) => {
                if 0 < used <= s.len() {
                    match decode_chars(s.skip(used)) {
                        Some(rest) => Some(seq![c] + rest),
                        None => None,
                    }
                } else {
                    None
                }
            },
        }
    }
}

/// The string that the JSON string literal `s` stands for, or `None` where
/// `s` is no JSON string literal.
pub open spec fn unescape(s: Seq<char>) -> Option<Seq<char>> {
    if s.len() >= 2 && s.first() == '"' && s.last() == '"' {
        decode_chars(s.subrange(1, s.len() - 1))
    } else {
        None
    }
}

/// Whether `c` is an ASCII character that is no control character below
/// U+0020.
pub open spec fn is_ascii_text(c: char) -> bool {
    0x20 <= (c as int) <= 0x7f
}

/// Whether `c` is a printable ASCII character.
pub open spec fn is_printable_ascii(c: char) -> bool {
    0x20 <= (c as int) <= 0x7e
}

/// U+007F, the one ASCII character at or above U+0020 that is not printable.
pub open spec fn delete_char() -> char {
    0x7f as char
}

/// `String::push` of std: the character is appended at the end and nothing
/// else changes.
pub assume_specification[ String::push ](s: &mut String, ch: char)
    ensures
        final(s)@ == old(s)@.push(ch),
;

fn hex_digit_of(n: u8) -> (d: char)
    requires
        n < 16,
    ensures
        d == hex_digit(n as int),
{
    if n < 10 {
        (0x30 + n) as char
    } else {
        (0x61 + n - 10) as char
    }
}

fn push_unicode_escape(out: &mut String, unit: u32)
    requires
        unit < 0x10000,
    ensures
        final(out)@ == old(out)@ + unicode_escape(unit as int),
{
    out.push('\\');
    out.push('u');
    out.push(hex_digit_of((unit / 4096) as u8));
    out.push(hex_digit_of((unit / 256 % 16) as u8));
    out.push(hex_digit_of((unit / 16 % 16) as u8));
    out.push(hex_digit_of((unit % 16) as u8));
}

fn push_escaped(out: &mut String, c: char)
    ensures
        final(out)@ == old(out)@ + escape_char(c),
{
    let code: u32 = c as u32;
    if c == '"' {
        out.push('\\');
        out.push('"');
    } else if c == '\\' {
        out.push('\\');
        out.push('\\');
    } else if code == 0x08 {
        out.push('\\');
        out.push('b');
    } else if code == 0x09 {
        out.push('\\');
        out.push('t');
    } else if code == 0x0a {
        out.push('\\');
        out.push('n');
    } else if code == 0x0c {
        out.push('\\');
        out.push('f');
    } else if code == 0x0d {
        out.push('\\');
        out.push('r');
    } else if code < 0x20 {
        push_unicode_escape(out, code);
    } else if code < 0x80 {
        out.push(c);
    } else if code < 0x10000 {
        push_unicode_escape(out, code);
    } else {
        push_unicode_escape(out, 0xd800 + (code - 0x10000) / 0x400);
        push_unicode_escape(out, 0xdc00 + (code - 0x10000) % 0x400);
    }
}

/// Appending at the end of the input appends the escape at the end of the
/// output.
pub proof fn lemma_escape_chars_push(s: Seq<char>, c: char)
    ensures
        escape_chars(s.push(c)) == escape_chars(s) + escape_char(c),
    decreases s.len(),
{
    if s.len() == 0 {
        let one = s.push(c);
        assert(one.first() == c);
        assert(one.drop_first() =~= Seq::<char>::empty());
        assert(escape_chars(one.drop_first()) =~= Seq::<char>::empty());
        assert(escape_chars(one) =~= escape_char(c));
    } else {
        lemma_escape_chars_push(s.drop_first(), c);
        assert(s.push(c).drop_first() =~= s.drop_first().push(c));
        assert(s.push(c).first() == s.first());
        assert(escape_chars(s.push(c)) =~= escape_chars(s) + escape_char(c));
    }
}

proof fn lemma_hex_digit(n: int)
    requires
        0 <= n < 16,
    ensures
        hex_value(hex_digit(n)) == Some(n),
        is_printable_ascii(hex_digit(n)),
{
}

proof fn lemma_unicode_escape(unit: int, rest: Seq<char>)
    requires
        0 <= unit < 0x10000,
    ensures
        unicode_escape(unit).len() == 6,
        hex4((unicode_escape(unit) + rest).skip(2)) == Some(unit),
        forall|i: int| 0 <= i < 6 ==> is_printable_ascii(#[trigger] unicode_escape(unit)[i]),
{
    lemma_hex_digit(unit / 4096);
    lemma_hex_digit(unit / 256 % 16);
    lemma_hex_digit(unit / 16 % 16);
    lemma_hex_digit(unit % 16);
    let s = (unicode_escape(unit) + rest).skip(2);
    assert(s[0] == hex_digit(unit / 4096));
    assert(s[1] == hex_digit(unit / 256 % 16));
    assert(s[2] == hex_digit(unit / 16 % 16));
    assert(s[3] == hex_digit(unit % 16));
}

proof fn lemma_surrogate_pair(code: int)
    requires
        0x10000 <= code <= 0x10ffff,
    ensures
        0xd800 <= 0xd800 + (code - 0x10000) / 0x400 < 0xdc00,
        0xdc00 <= 0xdc00 + (code - 0x10000) % 0x400 < 0xe000,
        0x10000 + ((code - 0x10000) / 0x400) * 0x400 + (code - 0x10000) % 0x400 == code,
{
}

proof fn lemma_decode_short(c: char, rest: Seq<char>)
    requires
        c == '"' || c == '\\' || c as int == 0x08 || c as int == 0x09 || c as int == 0x0a
            || c as int == 0x0c || c as int == 0x0d,
    ensures
        escape_char(c).len() == 2,
        decode_one(escape_char(c) + rest) == Some((c, 2int)),
{
    let s = escape_char(c) + rest;
    assert(s[0] == '\\');
    assert(s[1] == escape_char(c)[1]);
}

proof fn lemma_decode_unit(unit: int, rest: Seq<char>)
    requires
        0 <= unit < 0xd800 || 0xe000 <= unit < 0x10000,
    ensures
        decode_one(unicode_escape(unit) + rest) == Some((unit as char, 6int)),
{
    lemma_unicode_escape(unit, rest);
    let s = unicode_escape(unit) + rest;
    assert(s[0] == '\\' && s[1] == 'u');
}

proof fn lemma_decode_pair(high: int, low: int, rest: Seq<char>)
    requires
        0xd800 <= high < 0xdc00,
        0xdc00 <= low < 0xe000,
    ensures
        decode_one(unicode_escape(high) + unicode_escape(low) + rest) == Some(
            ((0x10000 + (high - 0xd800) * 0x400 + (low - 0xdc00)) as char, 12int),
        ),
{
    let tail = unicode_escape(low) + rest;
    let s = unicode_escape(high) + unicode_escape(low) + rest;
    lemma_unicode_escape(high, tail);
    lemma_unicode_escape(low, rest);
    assert(s =~= unicode_escape(high) + tail);
    assert(s[0] == '\\' && s[1] == 'u');
    assert(s[6] == tail[0] && s[7] == tail[1]);
    assert(tail[0] == '\\' && tail[1] == 'u');
    assert(s.skip(8) =~= tail.skip(2));
    assert(s.len() >= 12);
}

/// Reading from the front of an escape, whatever follows it, gives back the
/// character that was escaped and uses up exactly the escape.
pub proof fn lemma_decode_one_escape(c: char, rest: Seq<char>)
    ensures
        escape_char(c).len() > 0,
        decode_one(escape_char(c) + rest) == Some((c, escape_char(c).len() as int)),
{
    let code = c as int;
    if c == '"' || c == '\\' || code == 0x08 || code == 0x09 || code == 0x0a || code == 0x0c
        || code == 0x0d {
        lemma_decode_short(c, rest);
    } else if code < 0x20 {
        lemma_decode_unit(code, rest);
        lemma_unicode_escape(code, rest);
    } else if code < 0x80 {
        assert((escape_char(c) + rest)[0] == c);
    } else if code < 0x10000 {
        lemma_decode_unit(code, rest);
        lemma_unicode_escape(code, rest);
    } else {
        lemma_surrogate_pair(code);
        let high = 0xd800 + (code - 0x10000) / 0x400;
        let low = 0xdc00 + (code - 0x10000) % 0x400;
        lemma_decode_pair(high, low, rest);
        lemma_unicode_escape(high, rest);
        lemma_unicode_escape(low, rest);
        assert(escape_char(c).len() == 12);
    }
}

proof fn lemma_decode_escape_chars(s: Seq<char>)
    ensures
        decode_chars(escape_chars(s)) == Some(s),
    decreases s.len(),
{
    if s.len() == 0 {
        assert(s =~= Seq::<char>::empty());
    } else {
        let head = escape_char(s.first());
        let tail = escape_chars(s.drop_first());
        lemma_decode_one_escape(s.first(), tail);
        lemma_decode_escape_chars(s.drop_first());
        assert((head + tail).skip(head.len() as int) =~= tail);
        assert(seq![s.first()] + s.drop_first() =~= s);
    }
}

/// Decoding what `escape_to_ascii` wrote gives back the string it was written
/// from, whatever that string holds.
pub proof fn lemma_escape_round_trip(s: Seq<char>)
    ensures
        unescape(escape_to_ascii(s)) == Some(s),
{
    let quoted = escape_to_ascii(s);
    lemma_decode_escape_chars(s);
    assert(quoted.subrange(1, quoted.len() - 1) =~= escape_chars(s));
}

proof fn lemma_escape_char_ascii(c: char)
    ensures
        forall|i: int|
            0 <= i < escape_char(c).len() ==> is_ascii_text(#[trigger] escape_char(c)[i]),
        c != delete_char() ==> forall|i: int|
            0 <= i < escape_char(c).len() ==> is_printable_ascii(#[trigger] escape_char(c)[i]),
{
    let code = c as int;
    if code < 0x20 {
        lemma_unicode_escape(code, Seq::empty());
    } else if 0x80 <= code < 0x10000 {
        lemma_unicode_escape(code, Seq::empty());
    } else if code >= 0x10000 {
        lemma_unicode_escape(0xd800 + (code - 0x10000) / 0x400, Seq::empty());
        lemma_unicode_escape(0xdc00 + (code - 0x10000) % 0x400, Seq::empty());
    }
}

proof fn lemma_escape_chars_ascii(s: Seq<char>)
    ensures
        forall|i: int|
            0 <= i < escape_chars(s).len() ==> is_ascii_text(#[trigger] escape_chars(s)[i]),
        !s.contains(delete_char()) ==> forall|i: int|
            0 <= i < escape_chars(s).len() ==> is_printable_ascii(#[trigger] escape_chars(s)[i]),
    decreases s.len(),
{
    if s.len() > 0 {
        let head = escape_char(s.first());
        let tail = escape_chars(s.drop_first());
        lemma_escape_char_ascii(s.first());
        lemma_escape_chars_ascii(s.drop_first());
        assert forall|i: int| 0 <= i < escape_chars(s).len() implies is_ascii_text(
            #[trigger] escape_chars(s)[i],
        ) by {
            if i < head.len() {
                assert(escape_chars(s)[i] == head[i]);
            } else {
                assert(escape_chars(s)[i] == tail[i - head.len()]);
            }
        }
        if !s.contains(delete_char()) {
            assert(s[0] != delete_char());
            assert forall|j: int| 0 <= j < s.drop_first().len() implies s.drop_first()[j]
                != delete_char() by {
                assert(s[j + 1] != delete_char());
            }
            assert(!s.drop_first().contains(delete_char()));
            assert forall|i: int| 0 <= i < escape_chars(s).len() implies is_printable_ascii(
                #[trigger] escape_chars(s)[i],
            ) by {
                if i < head.len() {
                    assert(escape_chars(s)[i] == head[i]);
                } else {
                    assert(escape_chars(s)[i] == tail[i - head.len()]);
                }
            }
        }
    }
}

/// The quoted form holds no character outside ASCII and no control character
/// below U+0020, whatever the input.
pub proof fn lemma_escape_is_ascii(s: Seq<char>)
    ensures
        forall|i: int|
            0 <= i < escape_to_ascii(s).len() ==> is_ascii_text(#[trigger] escape_to_ascii(s)[i]),
{
    lemma_escape_chars_ascii(s);
}

/// The quoted form of a string without U+007F holds printable ASCII
/// characters only. U+007F itself is ASCII and no JSON escape is owed for it,
/// so it stands for itself in the output.
pub proof fn lemma_escape_is_printable(s: Seq<char>)
    requires
        !s.contains(delete_char()),
    ensures
        forall|i: int|
            0 <= i < escape_to_ascii(s).len() ==> is_printable_ascii(
                #[trigger] escape_to_ascii(s)[i],
            ),
{
    lemma_escape_chars_ascii(s);
}

/// Quotes `input` as a JSON string that holds ASCII characters only.
pub fn convert(input: &str) -> (out: String)
    ensures
        out@ == escape_to_ascii(input@),
        forall|i: int| 0 <= i < out@.len() ==> is_ascii_text(#[trigger] out@[i]),
        !input@.contains(delete_char()) ==> forall|i: int|
            0 <= i < out@.len() ==> is_printable_ascii(#[trigger] out@[i]),
        unescape(out@) == Some(input@),
{
    proof {
        lemma_escape_is_ascii(input@);
        if !input@.contains(delete_char()) {
            lemma_escape_is_printable(input@);
        }
        lemma_escape_round_trip(input@);
    }
    let mut out = String::new();
    out.push('"');
    for c in it: input.chars()
        invariant
            out@ == seq!['"'] + escape_chars(it.seq().take(it.index())),
            it.seq() == input@,
    {
        proof {
            lemma_escape_chars_push(it.seq().take(it.index()), c);
            assert(it.seq().take(it.index() + 1) =~= it.seq().take(it.index()).push(c));
        }
        push_escaped(&mut out, c);
    }
    proof {
        assert(input@.take(input@.len() as int) =~= input@);
    }
    out.push('"');
    out
}

} // verus!
