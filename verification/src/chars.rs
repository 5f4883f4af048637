//! Character classes of the source language and decimal numerals.

use vstd::prelude::*;

verus! {

/// Blank characters: they separate tokens and are otherwise ignored.
pub open spec fn space(c: char) -> bool {
    c == ' ' || c == '\t' || c == '\n'
}

/// Decimal digits.
pub open spec fn digit(c: char) -> bool {
    '0' <= c && c <= '9'
}

/// Characters that may open an identifier.
pub open spec fn name_start(c: char) -> bool {
    ('a' <= c && c <= 'z') || ('A' <= c && c <= 'Z') || c == '_'
}

/// Characters that may continue an identifier.
pub open spec fn name_char(c: char) -> bool {
    name_start(c) || digit(c)
}

/// Whether a character is one byte of text.
pub open spec fn ascii(c: char) -> bool {
    '\0' <= c && c <= '\u{7f}'
}

/// The number of bytes that a text takes.
pub open spec fn bytes_of(text: Seq<char>) -> nat {
    vstd::utf8::encode_utf8(text).len()
}

/// A text of one-byte characters takes as many bytes as it has characters.
pub proof fn lemma_bytes_of(text: Seq<char>)
    requires
        forall|i: int| 0 <= i < text.len() ==> ascii(#[trigger] text[i]),
    ensures
        bytes_of(text) == text.len(),
{
    assert(vstd::utf8::is_ascii_chars(text)) by {
        assert forall|i: int| 0 <= i < text.len() implies '\0' <= #[trigger] text[i]
            <= '\u{7f}' by {
            assert(ascii(text[i]));
        }
    }
    vstd::utf8::is_ascii_chars_encode_utf8(text);
}

/// A text takes at least as many bytes as it has characters.
pub proof fn lemma_bytes_at_least(text: Seq<char>)
    ensures
        bytes_of(text) >= text.len(),
    decreases text.len(),
{
    if text.len() > 0 {
        lemma_bytes_at_least(text.drop_first());
    }
}

/// The number a decimal digit stands for.
pub open spec fn digit_value(c: char) -> i64 {
    (c as u32 - '0' as u32) as i64
}

/// The digit that stands for a number below ten.
pub open spec fn digit_char(d: int) -> char {
    ((d + 48) as u8) as char
}

/// The value of a run of digits, accumulated from the left as
/// `value * 10 + digit` in wrapping 64-bit arithmetic.
pub open spec fn numeral_value(s: Seq<char>) -> i64
    decreases s.len(),
{
    if s.len() == 0 {
        0
    } else {
        numeral_value(s.drop_last()).wrapping_mul(10).wrapping_add(digit_value(s.last()))
    }
}

/// The decimal numeral of a natural number, without leading zeros.
pub open spec fn decimal(n: nat) -> Seq<char>
    decreases n,
{
    if n < 10 {
        seq![digit_char(n as int)]
    } else {
        decimal(n / 10).push(digit_char((n % 10) as int))
    }
}

/// The decimal numeral of an integer, with a minus sign when negative.
pub open spec fn signed_decimal(v: int) -> Seq<char> {
    if v < 0 {
        seq!['-'] + decimal((-v) as nat)
    } else {
        decimal(v as nat)
    }
}

/// A decimal numeral is a run of digits, and not empty.
pub proof fn lemma_decimal_digits(n: nat)
    ensures
        decimal(n).len() > 0,
        forall|k: int| 0 <= k < decimal(n).len() ==> digit(#[trigger] decimal(n)[k]),
    decreases n,
{
    if n >= 10 {
        lemma_decimal_digits(n / 10);
    }
}

/// Reading a decimal numeral gives back the number it was written for, as
/// long as the number fits in 64 bits.
pub proof fn lemma_decimal_value(n: nat)
    requires
        n <= i64::MAX,
    ensures
        numeral_value(decimal(n)) == n,
    decreases n,
{
    let text = decimal(n);
    if n < 10 {
        assert(text.drop_last() =~= Seq::<char>::empty());
        assert(numeral_value(text.drop_last()) == 0);
        assert(text.last() == digit_char(n as int));
    } else {
        lemma_decimal_value(n / 10);
        assert(text.drop_last() =~= decimal(n / 10));
        assert(text.last() == digit_char((n % 10) as int));
    }
}

pub fn is_space(c: char) -> (r: bool)
    ensures
        r == space(c),
{
    c == ' ' || c == '\t' || c == '\n'
}

pub fn is_decimal_digit(c: char) -> (r: bool)
    ensures
        r == digit(c),
{
    '0' <= c && c <= '9'
}

pub fn is_name_char(c: char) -> (r: bool)
    ensures
        r == name_char(c),
{
    ('a' <= c && c <= 'z') || ('A' <= c && c <= 'Z') || c == '_' || ('0' <= c && c <= '9')
}

/// The value of one digit.
pub fn value_of_digit(c: char) -> (v: i64)
    requires
        digit(c),
    ensures
        v == digit_value(c),
        0 <= v <= 9,
{
    (c as u32 - '0' as u32) as i64
}

/// One accumulation step of a numeral's value.
pub fn extend_value(value: i64, c: char) -> (v: i64)
    requires
        digit(c),
    ensures
        v == value.wrapping_mul(10).wrapping_add(digit_value(c)),
{
    value.wrapping_mul(10).wrapping_add(value_of_digit(c))
}

/// The characters of a string, in order.
pub fn chars_of(s: &str) -> (chars: Vec<char>)
    ensures
        chars@ == s@,
{
    let mut chars: Vec<char> = Vec::new();
    for c in it: s.chars()
        invariant
            it.seq() == s@,
            chars@ == it.seq().take(it.index() as int),
    {
        proof {
            assert(it.seq().take(it.index() + 1) =~= it.seq().take(it.index() as int).push(c));
        }
        chars.push(c);
    }
    proof {
        assert(s@.take(s@.len() as int) =~= s@);
    }
    chars
}

/// The string that holds one character.
pub fn string_of(c: char) -> (s: String)
    ensures
        s@ == seq![c],
{
    let mut s = String::new();
    s.push(c);
    proof {
        assert(Seq::<char>::empty().push(c) =~= seq![c]);
    }
    s
}

/// Appends the decimal numeral of `n` to `out`.
pub fn push_natural(out: &mut String, n: u64)
    ensures
        final(out)@ == old(out)@ + decimal(n as nat),
    decreases n,
{
    if n >= 10 {
        push_natural(out, n / 10);
    }
    let d: u8 = (n % 10) as u8;
    let c: char = (d + 48) as char;
    out.push(c);
    proof {
        if n < 10 {
            assert(old(out)@.push(c) =~= old(out)@ + decimal(n as nat));
        } else {
            assert((old(out)@ + decimal((n / 10) as nat)).push(c) =~= old(out)@ + decimal(
                n as nat,
            ));
        }
    }
}

/// Appends the decimal numeral of `v` to `out`.
pub fn push_decimal(out: &mut String, v: i64)
    ensures
        final(out)@ == old(out)@ + signed_decimal(v as int),
{
    if v < 0 {
        out.push('-');
        let magnitude: u64 = ((-(v + 1)) as u64) + 1;
        push_natural(out, magnitude);
        proof {
            assert(old(out)@.push('-') + decimal(magnitude as nat) =~= old(out)@ + (seq!['-']
                + decimal((-v) as nat)));
        }
    } else {
        push_natural(out, v as u64);
    }
}

/// Appends one character; `String::push` of the standard library adds the
/// given character at the end of the string and changes nothing else.
pub assume_specification[ String::push ](s: &mut String, c: char)
    ensures
        final(s)@ == old(s)@.push(c),
;

} // verus!
