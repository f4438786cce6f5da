//! Whitespace, decimal digits and numbers written in decimal.

use vstd::prelude::*;

verus! {

/// Taken on trust from the documentation of `String::push` in std: the call
/// appends `c` to the end of the string and changes nothing else of it.
pub assume_specification[ String::push ](s: &mut String, c: char)
    ensures
        final(s)@ == old(s)@.push(c),
;

/// The characters that separate chunks: Unicode's `White_Space` property.
pub open spec fn spec_is_whitespace(c: char) -> bool {
    let n = c as u32;
    ||| 0x09 <= n <= 0x0D
    ||| n == 0x20
    ||| n == 0x85
    ||| n == 0xA0
    ||| n == 0x1680
    ||| 0x2000 <= n <= 0x200A
    ||| n == 0x2028
    ||| n == 0x2029
    ||| n == 0x202F
    ||| n == 0x205F
    ||| n == 0x3000
}

/// Tells whether `c` separates chunks.
pub fn is_whitespace(c: char) -> (b: bool)
    ensures
        b == spec_is_whitespace(c),
{
    let n: u32 = c as u32;
    (0x09 <= n && n <= 0x0D) || n == 0x20 || n == 0x85 || n == 0xA0 || n == 0x1680 || (0x2000 <= n
        && n <= 0x200A) || n == 0x2028 || n == 0x2029 || n == 0x202F || n == 0x205F || n == 0x3000
}

/// The value of `c` as a decimal digit, if it is one of `'0'` to `'9'`.
pub open spec fn spec_decimal_digit(c: char) -> Option<u32> {
    if '0' <= c <= '9' {
        Some((c as u32 - '0' as u32) as u32)
    } else {
        None
    }
}

/// Reads `c` as a decimal digit.
pub fn decimal_digit(c: char) -> (d: Option<u32>)
    ensures
        d == spec_decimal_digit(c),
        d matches Some(v) ==> v <= 9,
{
    let n: u32 = c as u32;
    if 0x30 <= n && n <= 0x39 {
        Some(n - 0x30)
    } else {
        None
    }
}

/// The character that stands for the decimal digit `d`.
pub open spec fn spec_digit_char(d: nat) -> char
    recommends
        d <= 9,
{
    (0x30 + d) as char
}

/// The character that stands for the decimal digit `d`.
pub fn digit_char(d: u8) -> (c: char)
    requires
        d <= 9,
    ensures
        c == spec_digit_char(d as nat),
        spec_decimal_digit(c) == Some(d as u32),
{
    (0x30 + d) as char
}

/// `n` written in decimal, without leading zeros.
pub open spec fn decimal_digits(n: nat) -> Seq<char>
    decreases n,
{
    if n < 10 {
        seq![spec_digit_char(n)]
    } else {
        decimal_digits(n / 10).push(spec_digit_char(n % 10))
    }
}

/// Appends `n`, written in decimal, to `out`.
pub fn push_decimal(out: &mut String, n: usize)
    ensures
        final(out)@ == old(out)@ + decimal_digits(n as nat),
    decreases n,
{
    if n >= 10 {
        push_decimal(out, n / 10);
    }
    out.push(digit_char((n % 10) as u8));
}

/// The length of `s` in bytes, that is of its UTF-8 encoding.
pub fn calculate_length(s: &String) -> (length: usize)
    ensures
        length == vstd::utf8::encode_utf8(s@).len(),
{
    s.as_str().as_bytes().len()
}

} // verus!
