//! Text as the agent reads and writes it: hexadecimal addresses, decimal
//! counts, ASCII case folding and white space.

use vstd::prelude::*;
use vstd::string::*;
use vstd::utf8::{decode_utf8, valid_utf8};

verus! {

/// `String::push` appends one character.
pub assume_specification[ String::push ](text: &mut String, c: char)
    ensures
        final(text)@ == old(text)@.push(c),
;

/// Characters with the Unicode `White_Space` property.
pub open spec fn is_white(c: char) -> bool {
    let n = c as int;
    ||| 0x9 <= n <= 0xd
    ||| n == 0x20
    ||| n == 0x85
    ||| n == 0xa0
    ||| n == 0x1680
    ||| 0x2000 <= n <= 0x200a
    ||| n == 0x2028
    ||| n == 0x2029
    ||| n == 0x202f
    ||| n == 0x205f
    ||| n == 0x3000
}

/// Text that holds nothing but white space.
pub open spec fn is_blank(s: Seq<char>) -> bool {
    forall|i: int| 0 <= i < s.len() ==> is_white(#[trigger] s[i])
}

/// The lower-case form of an ASCII letter; any other character is its own.
pub open spec fn ascii_lower(c: char) -> char {
    if 'A' <= c <= 'Z' {
        ((c as u32) + 32) as char
    } else {
        c
    }
}

/// ASCII lower-casing, character by character.
pub open spec fn lowered(s: Seq<char>) -> Seq<char> {
    s.map_values(|c: char| ascii_lower(c))
}

/// The digit that stands for a value below sixteen.
pub open spec fn digit_char(value: int) -> char {
    if value < 10 {
        (0x30 + value) as char
    } else {
        (0x57 + value) as char
    }
}

/// The shortest lower-case hexadecimal numeral.
pub open spec fn hex_text(value: nat) -> Seq<char>
    decreases value,
{
    if value < 16 {
        seq![digit_char(value as int)]
    } else {
        hex_text(value / 16).push(digit_char((value % 16) as int))
    }
}

/// The last `width` hexadecimal digits, leading zeros kept.
pub open spec fn hex_padded(value: nat, width: nat) -> Seq<char>
    decreases width,
{
    if width == 0 {
        Seq::empty()
    } else {
        hex_padded(value / 16, (width - 1) as nat).push(digit_char((value % 16) as int))
    }
}

/// The shortest decimal numeral.
pub open spec fn dec_text(value: nat) -> Seq<char>
    decreases value,
{
    if value < 10 {
        seq![digit_char(value as int)]
    } else {
        dec_text(value / 10).push(digit_char((value % 10) as int))
    }
}

/// A decimal numeral with a sign where the value is negative.
pub open spec fn signed_text(value: int) -> Seq<char> {
    if value < 0 {
        seq!['-'] + dec_text((-value) as nat)
    } else {
        dec_text(value as nat)
    }
}

/// An address as the agent writes it.
pub open spec fn address_text(address: nat) -> Seq<char> {
    seq!['0', 'x'] + hex_text(address)
}

/// The value of a hexadecimal digit in either case.
pub open spec fn hex_value(c: char) -> Option<int> {
    if '0' <= c <= '9' {
        Some(c as int - 0x30)
    } else if 'a' <= c <= 'f' {
        Some(c as int - 0x57)
    } else if 'A' <= c <= 'F' {
        Some(c as int - 0x37)
    } else {
        None
    }
}

/// The value that a run of digits denotes in the given base, if every
/// character is a digit of that base.
pub open spec fn digits_value(s: Seq<char>, base: int) -> Option<nat>
    decreases s.len(),
{
    if s.len() == 0 {
        Some(0)
    } else {
        match (digits_value(s.drop_last(), base), hex_value(s.last())) {
            (Some(head), Some(digit)) if digit < base => Some((head * base + digit) as nat),
            _ => None,
        }
    }
}

/// An unsigned numeral: an optional plus sign and at least one digit.
pub open spec fn numeral(s: Seq<char>, base: int) -> Option<nat> {
    let digits = if s.len() > 0 && s[0] == '+' {
        s.skip(1)
    } else {
        s
    };
    if digits.len() == 0 {
        None
    } else {
        digits_value(digits, base)
    }
}

/// Copies out the characters of a string.
pub fn chars_of(s: &str) -> (out: Vec<char>)
    ensures
        out@ == s@,
{
    let mut out: Vec<char> = Vec::new();
    for c in it: s.chars()
        invariant
            out@ == it.seq().take(it.index()),
    {
        proof {
            assert(it.seq().take(it.index() + 1) =~= it.seq().take(it.index()).push(c));
        }
        out.push(c);
    }
    proof {
        assert(out@ =~= s@);
    }
    out
}

/// Builds a string out of characters.
pub fn string_of(chars: &[char]) -> (out: String)
    ensures
        out@ == chars@,
{
    let mut out = String::new();
    let mut i: usize = 0;
    while i < chars.len()
        invariant
            i <= chars.len(),
            out@ == chars@.take(i as int),
        decreases chars.len() - i,
    {
        proof {
            assert(chars@.take(i + 1) =~= chars@.take(i as int).push(chars@[i as int]));
        }
        out.push(chars[i]);
        i += 1;
    }
    proof {
        assert(chars@.take(i as int) =~= chars@);
    }
    out
}

/// Joins two pieces of text.
pub fn join2(a: &str, b: &str) -> (out: String)
    ensures
        out@ == a@ + b@,
{
    let mut out = a.to_owned();
    out.append(b);
    out
}

/// Joins three pieces of text.
pub fn join3(a: &str, b: &str, c: &str) -> (out: String)
    ensures
        out@ == a@ + b@ + c@,
{
    let mut out = a.to_owned();
    out.append(b);
    out.append(c);
    out
}

/// Joins four pieces of text.
pub fn join4(a: &str, b: &str, c: &str, d: &str) -> (out: String)
    ensures
        out@ == a@ + b@ + c@ + d@,
{
    let mut out = a.to_owned();
    out.append(b);
    out.append(c);
    out.append(d);
    out
}

/// Joins five pieces of text.
pub fn join5(a: &str, b: &str, c: &str, d: &str, e: &str) -> (out: String)
    ensures
        out@ == a@ + b@ + c@ + d@ + e@,
{
    let mut out = a.to_owned();
    out.append(b);
    out.append(c);
    out.append(d);
    out.append(e);
    out
}

/// Pieces of text with a separator between neighbours.
pub open spec fn joined(parts: Seq<Seq<char>>, separator: Seq<char>) -> Seq<char>
    decreases parts.len(),
{
    if parts.len() == 0 {
        Seq::empty()
    } else if parts.len() == 1 {
        parts[0]
    } else {
        joined(parts.drop_last(), separator) + separator + parts.last()
    }
}

/// The contents of each string of a list.
pub open spec fn texts(parts: Seq<String>) -> Seq<Seq<char>> {
    parts.map_values(|part: String| part@)
}

/// Joins a list of strings with a separator.
pub fn join_all(parts: &Vec<String>, separator: &str) -> (out: String)
    ensures
        out@ == joined(texts(parts@), separator@),
{
    let mut out = String::new();
    let mut i: usize = 0;
    while i < parts.len()
        invariant
            i <= parts.len(),
            out@ == joined(texts(parts@.take(i as int)), separator@),
        decreases parts.len() - i,
    {
        proof {
            let next = texts(parts@.take(i + 1));
            assert(next.drop_last() =~= texts(parts@.take(i as int)));
            assert(next.last() == parts@[i as int]@);
            if i == 0 {
                assert(Seq::<char>::empty() + parts@[0]@ =~= parts@[0]@);
            }
        }
        if i > 0 {
            out.append(separator);
        }
        out.append(parts[i].as_str());
        i += 1;
    }
    proof {
        assert(parts@.take(i as int) =~= parts@);
    }
    out
}

/// Compares the contents of two strings.
pub fn same_text(a: &str, b: &str) -> (same: bool)
    ensures
        same == (a@ == b@),
{
    let x = chars_of(a);
    let y = chars_of(b);
    same_chars(&x, &y)
}

/// Compares two runs of characters.
pub fn same_chars(x: &Vec<char>, y: &Vec<char>) -> (same: bool)
    ensures
        same == (x@ == y@),
{
    if x.len() != y.len() {
        return false;
    }
    let mut i: usize = 0;
    while i < x.len()
        invariant
            i <= x.len(),
            x.len() == y.len(),
            forall|j: int| 0 <= j < i ==> x@[j] == y@[j],
        decreases x.len() - i,
    {
        if x[i] != y[i] {
            return false;
        }
        i += 1;
    }
    proof {
        assert(x@ =~= y@);
    }
    true
}

/// Whether a character is white space.
pub fn white(c: char) -> (yes: bool)
    ensures
        yes == is_white(c),
{
    let n: u32 = c as u32;
    (0x9 <= n && n <= 0xd) || n == 0x20 || n == 0x85 || n == 0xa0 || n == 0x1680 || (0x2000 <= n
        && n <= 0x200a) || n == 0x2028 || n == 0x2029 || n == 0x202f || n == 0x205f || n == 0x3000
}

/// Whether text holds nothing but white space.
pub fn blank(s: &str) -> (yes: bool)
    ensures
        yes == is_blank(s@),
{
    let chars = chars_of(s);
    let mut i: usize = 0;
    while i < chars.len()
        invariant
            i <= chars.len(),
            chars@ == s@,
            forall|j: int| 0 <= j < i ==> is_white(#[trigger] chars@[j]),
        decreases chars.len() - i,
    {
        if !white(chars[i]) {
            return false;
        }
        i += 1;
    }
    true
}

/// Whether a character occurs in text.
pub fn contains_char(s: &str, c: char) -> (yes: bool)
    ensures
        yes == s@.contains(c),
{
    let chars = chars_of(s);
    let mut i: usize = 0;
    while i < chars.len()
        invariant
            i <= chars.len(),
            chars@ == s@,
            forall|j: int| 0 <= j < i ==> chars@[j] != c,
        decreases chars.len() - i,
    {
        if chars[i] == c {
            return true;
        }
        i += 1;
    }
    false
}

fn lower_char(c: char) -> (out: char)
    ensures
        out == ascii_lower(c),
{
    match c {
        'A' => 'a',
        'B' => 'b',
        'C' => 'c',
        'D' => 'd',
        'E' => 'e',
        'F' => 'f',
        'G' => 'g',
        'H' => 'h',
        'I' => 'i',
        'J' => 'j',
        'K' => 'k',
        'L' => 'l',
        'M' => 'm',
        'N' => 'n',
        'O' => 'o',
        'P' => 'p',
        'Q' => 'q',
        'R' => 'r',
        'S' => 's',
        'T' => 't',
        'U' => 'u',
        'V' => 'v',
        'W' => 'w',
        'X' => 'x',
        'Y' => 'y',
        'Z' => 'z',
        other => other,
    }
}

fn lower_chars(s: &str) -> (out: Vec<char>)
    ensures
        out@ == lowered(s@),
{
    let chars = chars_of(s);
    let mut out: Vec<char> = Vec::new();
    let mut i: usize = 0;
    while i < chars.len()
        invariant
            i <= chars.len(),
            chars@ == s@,
            out@ == lowered(s@).take(i as int),
        decreases chars.len() - i,
    {
        let c = lower_char(chars[i]);
        proof {
            assert(lowered(s@).take(i + 1) =~= lowered(s@).take(i as int).push(c));
        }
        out.push(c);
        i += 1;
    }
    proof {
        assert(lowered(s@).take(i as int) =~= lowered(s@));
    }
    out
}

/// ASCII lower-casing.
pub fn ascii_lowercase(s: &str) -> (out: String)
    ensures
        out@ == lowered(s@),
{
    let chars = lower_chars(s);
    string_of(chars.as_slice())
}

/// Compares text without regard to ASCII case.
pub fn same_ignoring_case(a: &str, b: &str) -> (same: bool)
    ensures
        same == (lowered(a@) == lowered(b@)),
{
    let x = lower_chars(a);
    let y = lower_chars(b);
    same_chars(&x, &y)
}

fn digit(value: u64) -> (c: char)
    requires
        value < 16,
    ensures
        c == digit_char(value as int),
{
    match value {
        0 => '0',
        1 => '1',
        2 => '2',
        3 => '3',
        4 => '4',
        5 => '5',
        6 => '6',
        7 => '7',
        8 => '8',
        9 => '9',
        10 => 'a',
        11 => 'b',
        12 => 'c',
        13 => 'd',
        14 => 'e',
        _ => 'f',
    }
}

fn push_hex(out: &mut String, value: u64)
    ensures
        final(out)@ == old(out)@ + hex_text(value as nat),
    decreases value,
{
    if value >= 16 {
        push_hex(out, value / 16);
    }
    out.push(digit(value % 16));
    proof {
        assert(out@ =~= old(out)@ + hex_text(value as nat));
    }
}

fn push_hex_padded(out: &mut String, value: u64, width: usize)
    ensures
        final(out)@ == old(out)@ + hex_padded(value as nat, width as nat),
    decreases width,
{
    if width > 0 {
        push_hex_padded(out, value / 16, width - 1);
        out.push(digit(value % 16));
    }
    proof {
        assert(out@ =~= old(out)@ + hex_padded(value as nat, width as nat));
    }
}

fn push_dec(out: &mut String, value: u64)
    ensures
        final(out)@ == old(out)@ + dec_text(value as nat),
    decreases value,
{
    if value >= 10 {
        push_dec(out, value / 10);
    }
    out.push(digit(value % 10));
    proof {
        assert(out@ =~= old(out)@ + dec_text(value as nat));
    }
}

/// Writes a value as `0x` and its shortest hexadecimal numeral.
pub fn format_hex(value: u64) -> (out: String)
    ensures
        out@ == address_text(value as nat),
{
    let mut out = String::new();
    out.push('0');
    out.push('x');
    push_hex(&mut out, value);
    proof {
        assert(out@ =~= address_text(value as nat));
    }
    out
}

/// Writes an address as `0x` and its shortest hexadecimal numeral.
pub fn format_address(address: usize) -> (out: String)
    ensures
        out@ == address_text(address as nat),
{
    format_hex(address as u64)
}

/// Writes the last `width` hexadecimal digits of a value.
pub fn format_padded(value: u64, width: usize) -> (out: String)
    ensures
        out@ == hex_padded(value as nat, width as nat),
{
    let mut out = String::new();
    push_hex_padded(&mut out, value, width);
    proof {
        assert(out@ =~= hex_padded(value as nat, width as nat));
    }
    out
}

/// Writes a count in decimal.
pub fn format_decimal(value: u64) -> (out: String)
    ensures
        out@ == dec_text(value as nat),
{
    let mut out = String::new();
    push_dec(&mut out, value);
    proof {
        assert(out@ =~= dec_text(value as nat));
    }
    out
}

/// Writes a signed code in decimal.
pub fn format_signed(value: i32) -> (out: String)
    ensures
        out@ == signed_text(value as int),
{
    let mut out = String::new();
    if value < 0 {
        out.push('-');
        push_dec(&mut out, (-(value as i64)) as u64);
    } else {
        push_dec(&mut out, value as u64);
    }
    proof {
        assert(out@ =~= signed_text(value as int));
    }
    out
}

fn hex_digit(c: char) -> (value: Option<u64>)
    ensures
        value matches Some(v) ==> v < 16 && hex_value(c) == Some(v as int),
        value is None ==> hex_value(c) is None,
{
    if '0' <= c && c <= '9' {
        Some((c as u32 - 0x30) as u64)
    } else if 'a' <= c && c <= 'f' {
        Some((c as u32 - 0x57) as u64)
    } else if 'A' <= c && c <= 'F' {
        Some((c as u32 - 0x37) as u64)
    } else {
        None
    }
}

/// Once a prefix is no numeral or is too large, so is all that extends it.
proof fn lemma_digits_prefix(s: Seq<char>, base: int, n: int, limit: nat)
    requires
        2 <= base,
        0 <= n <= s.len(),
        match digits_value(s.take(n), base) {
            Some(v) => v > limit,
            None => true,
        },
    ensures
        match digits_value(s, base) {
            Some(v) => v > limit,
            None => true,
        },
    decreases s.len() - n,
{
    if n < s.len() {
        let next = s.take(n + 1);
        assert(next.drop_last() =~= s.take(n));
        if let (Some(head), Some(digit)) = (digits_value(s.take(n), base), hex_value(next.last())) {
            assert(head * base + digit >= head) by (nonlinear_arith)
                requires
                    head >= 0,
                    base >= 2,
                    digit >= 0,
            ;
        }
        lemma_digits_prefix(s, base, n + 1, limit);
    } else {
        assert(s.take(n) =~= s);
    }
}

/// Reads an unsigned numeral in the given base, if it is one and its value
/// does not exceed the limit.
pub fn parse_numeral(s: &str, base: u64, limit: u64) -> (value: Option<u64>)
    requires
        2 <= base <= 16,
    ensures
        value matches Some(v) ==> v <= limit && numeral(s@, base as int) == Some(v as nat),
        value is None ==> (numeral(s@, base as int) matches Some(v) ==> v > limit),
{
    let chars = chars_of(s);
    let mut i: usize = 0;
    if chars.len() > 0 && chars[0] == '+' {
        i = 1;
    }
    if i == chars.len() {
        return None;
    }
    let ghost digits = s@.skip(i as int);
    let ghost first = i as int;
    proof {
        if first == 0 {
            assert(digits =~= s@);
        }
        assert(digits.take(0) =~= Seq::<char>::empty());
    }
    let mut value: u64 = 0;
    while i < chars.len()
        invariant
            2 <= base <= 16,
            chars@ == s@,
            0 <= first <= i <= chars.len(),
            digits == s@.skip(first),
            numeral(s@, base as int) == digits_value(digits, base as int),
            value <= limit,
            digits_value(digits.take(i - first), base as int) == Some(value as nat),
        ensures
            i == chars.len(),
        decreases chars.len() - i,
    {
        let ghost next = digits.take(i - first + 1);
        proof {
            assert(next.drop_last() =~= digits.take(i - first));
            assert(next.last() == chars@[i as int]);
        }
        let digit = match hex_digit(chars[i]) {
            Some(digit) if digit < base => digit,
            _ => {
                proof {
                    assert(digits_value(next, base as int) is None);
                    lemma_digits_prefix(digits, base as int, i - first + 1, limit as nat);
                }
                return None;
            },
        };
        proof {
            assert(value as u128 * base as u128 <= u64::MAX as u128 * 16) by (nonlinear_arith)
                requires
                    value <= u64::MAX,
                    base <= 16,
            ;
        }
        let wide: u128 = value as u128 * base as u128 + digit as u128;
        proof {
            assert(digits_value(next, base as int) == Some(wide as nat));
        }
        if wide > limit as u128 {
            proof {
                lemma_digits_prefix(digits, base as int, i - first + 1, limit as nat);
            }
            return None;
        }
        value = wide as u64;
        i += 1;
    }
    proof {
        assert(digits.take(i - first) =~= digits);
    }
    Some(value)
}

proof fn lemma_digit(value: int)
    requires
        0 <= value < 16,
    ensures
        hex_value(digit_char(value)) == Some(value),
        digit_char(value) != '+',
{
}

/// The value of a written hexadecimal numeral is the number it was written for.
pub proof fn hexadecimal_reads_back(value: nat)
    ensures
        numeral(hex_text(value), 16) == Some(value),
        hex_text(value).len() > 0,
        hex_text(value)[0] != '+',
    decreases value,
{
    lemma_hex_digits(value);
    lemma_hex_first(value);
}

proof fn lemma_hex_digits(value: nat)
    ensures
        digits_value(hex_text(value), 16) == Some(value),
        hex_text(value).len() > 0,
    decreases value,
{
    let digits = hex_text(value);
    if value < 16 {
        lemma_digit(value as int);
        assert(digits.drop_last() =~= Seq::empty());
        assert(digits_value(Seq::<char>::empty(), 16) == Some(0nat));
        assert(digits.last() == digit_char(value as int));
    } else {
        lemma_hex_digits(value / 16);
        lemma_digit((value % 16) as int);
        assert(digits.drop_last() =~= hex_text(value / 16));
    }
}

proof fn lemma_hex_first(value: nat)
    ensures
        hex_text(value).len() > 0,
        hex_text(value)[0] != '+',
    decreases value,
{
    if value < 16 {
        lemma_digit(value as int);
    } else {
        lemma_hex_first(value / 16);
        assert(hex_text(value)[0] == hex_text(value / 16)[0]);
    }
}

/// Text in quotes, as the debug form of a string shows it.
pub uninterp spec fn quoted_text(text: Seq<char>) -> Seq<char>;

/// `format!` with `{:?}` writes a string in quotes, with its special
/// characters escaped. How is left to the standard library.
#[verifier::external_body]
pub(crate) fn quoted(text: &str) -> (out: String)
    ensures
        out@ == quoted_text(text@),
{
    format!("{:?}", text)
}

/// `std::str::from_utf8` accepts exactly the bytes that are valid UTF-8, and
/// gives the text that they encode.
#[verifier::external_body]
pub(crate) fn utf8_text(bytes: &[u8]) -> (text: Option<String>)
    ensures
        text is Some <==> valid_utf8(bytes@),
        text matches Some(decoded) ==> decoded@ == decode_utf8(bytes@),
{
    match std::str::from_utf8(bytes) {
        Ok(text) => Some(text.to_owned()),
        Err(_) => None,
    }
}

}
