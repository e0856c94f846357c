//! Number rendering and little-endian decoding on plain bytes and strings.

use vstd::prelude::*;

verus! {

/// The character of a digit in bases up to sixteen (lower-case letters).
pub open spec fn digit_char(d: nat) -> char {
    if d == 0 { '0' }
    else if d == 1 { '1' }
    else if d == 2 { '2' }
    else if d == 3 { '3' }
    else if d == 4 { '4' }
    else if d == 5 { '5' }
    else if d == 6 { '6' }
    else if d == 7 { '7' }
    else if d == 8 { '8' }
    else if d == 9 { '9' }
    else if d == 10 { 'a' }
    else if d == 11 { 'b' }
    else if d == 12 { 'c' }
    else if d == 13 { 'd' }
    else if d == 14 { 'e' }
    else { 'f' }
}

/// Decimal rendering of `n` without leading zeros, as `{}` prints it.
pub open spec fn decimal(n: nat) -> Seq<char>
    decreases n,
{
    if n < 10 {
        seq![digit_char(n)]
    } else {
        decimal(n / 10).push(digit_char(n % 10))
    }
}

/// The lowest `width` hexadecimal digits of `n`, most significant first.
pub open spec fn hex_fixed(n: nat, width: nat) -> Seq<char>
    decreases width,
{
    if width == 0 {
        Seq::empty()
    } else {
        hex_fixed(n / 16, (width - 1) as nat).push(digit_char(n % 16))
    }
}

/// `{:#010x}` of a 32-bit value: `0x` and exactly eight lower-case digits.
pub open spec fn hex_u32_padded(n: u32) -> Seq<char> {
    seq!['0', 'x'] + hex_fixed(n as nat, 8)
}

/// The value of bytes read as a little-endian unsigned number.
pub open spec fn le_value(s: Seq<u8>) -> nat
    decreases s.len(),
{
    if s.len() == 0 {
        0
    } else {
        s[0] as nat + 256 * le_value(s.drop_first())
    }
}

pub open spec fn pow256(k: nat) -> nat
    decreases k,
{
    if k == 0 { 1 } else { 256 * pow256((k - 1) as nat) }
}

pub proof fn lemma_le_value_bound(s: Seq<u8>)
    ensures
        le_value(s) < pow256(s.len()),
    decreases s.len(),
{
    if s.len() > 0 {
        lemma_le_value_bound(s.drop_first());
    }
}

pub proof fn lemma_pow256_8()
    ensures
        pow256(8) == 0x1_0000_0000_0000_0000,
        pow256(4) == 0x1_0000_0000,
{
    reveal_with_fuel(pow256, 9);
}

fn digit(d: u64) -> (c: char)
    requires
        d < 16,
    ensures
        c == digit_char(d as nat),
{
    if d == 0 { '0' }
    else if d == 1 { '1' }
    else if d == 2 { '2' }
    else if d == 3 { '3' }
    else if d == 4 { '4' }
    else if d == 5 { '5' }
    else if d == 6 { '6' }
    else if d == 7 { '7' }
    else if d == 8 { '8' }
    else if d == 9 { '9' }
    else if d == 10 { 'a' }
    else if d == 11 { 'b' }
    else if d == 12 { 'c' }
    else if d == 13 { 'd' }
    else if d == 14 { 'e' }
    else { 'f' }
}

/// `String::push`: appends one character.
#[verifier::external_body]
pub(crate) fn push_char(s: &mut String, c: char)
    ensures
        final(s)@ == old(s)@.push(c),
{
    s.push(c);
}

/// Appends the decimal rendering of `n` to `s`.
pub fn push_decimal(s: &mut String, n: u64)
    ensures
        final(s)@ == old(s)@ + decimal(n as nat),
    decreases n,
{
    if n >= 10 {
        push_decimal(s, n / 10);
    }
    push_char(s, digit(n % 10));
    assert(s@ =~= old(s)@ + decimal(n as nat));
}

/// Appends the lowest `width` hexadecimal digits of `n` to `s`.
pub fn push_hex_fixed(s: &mut String, n: u64, width: u64)
    ensures
        final(s)@ == old(s)@ + hex_fixed(n as nat, width as nat),
    decreases width,
{
    if width > 0 {
        push_hex_fixed(s, n / 16, width - 1);
        push_char(s, digit(n % 16));
        assert(s@ =~= old(s)@ + hex_fixed(n as nat, width as nat));
    } else {
        assert(s@ =~= old(s)@ + hex_fixed(n as nat, width as nat));
    }
}

/// Appends `{:#010x}` of `n` to `s`.
pub fn push_hex_u32_padded(s: &mut String, n: u32)
    ensures
        final(s)@ == old(s)@ + hex_u32_padded(n),
{
    push_char(s, '0');
    push_char(s, 'x');
    push_hex_fixed(s, n as u64, 8);
    assert(s@ =~= old(s)@ + hex_u32_padded(n));
}

/// Reads `len` bytes from `start` as a little-endian number.
pub fn read_le(bytes: &[u8], start: usize, len: usize) -> (r: u64)
    requires
        start + len <= bytes.len(),
        len <= 8,
    ensures
        r as nat == le_value(bytes@.subrange(start as int, start + len)),
    decreases len,
{
    if len == 0 {
        0
    } else {
        let rest = read_le(bytes, start + 1, len - 1);
        proof {
            let full = bytes@.subrange(start as int, start + len);
            assert(full.drop_first() =~= bytes@.subrange(start + 1, start + len));
            lemma_le_value_bound(full);
            lemma_pow256_8();
            assert(pow256(full.len()) <= pow256(8)) by {
                lemma_pow256_monotone(full.len(), 8);
            }
        }
        bytes[start] as u64 + 256 * rest
    }
}

pub proof fn lemma_pow256_monotone(a: nat, b: nat)
    requires
        a <= b,
    ensures
        pow256(a) <= pow256(b),
    decreases b,
{
    if a < b {
        lemma_pow256_monotone(a, (b - 1) as nat);
    }
}

} // verus!
