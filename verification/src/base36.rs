//! Rendering of unsigned numbers in positional notation with the digits
//! `0-9A-Z`, as used for order and execution identifiers.

use crate::wire::{byte_chars, is_ascii_bytes, text_of_bytes};
use vstd::prelude::*;

verus! {

/// The ASCII digit for a value below 36: `0`-`9`, then `A`-`Z`.
pub open spec fn digit_byte(d: nat) -> u8 {
    if d < 10 {
        (0x30 + d) as u8
    } else {
        (0x41 + (d - 10)) as u8
    }
}

/// The digits of `n` in the given radix, most significant first, without
/// leading zeros; zero is the single digit `0`.
pub open spec fn digits(n: nat, radix: nat) -> Seq<u8>
    decreases n,
    via digits_decreases
{
    if radix < 2 || n < radix {
        seq![digit_byte(n)]
    } else {
        digits(n / radix, radix).push(digit_byte(n % radix))
    }
}

#[via_fn]
proof fn digits_decreases(n: nat, radix: nat) {
    if radix >= 2 && n >= radix {
        assert(n / radix < n) by (nonlinear_arith)
            requires
                radix >= 2,
                n >= radix,
        ;
    }
}

/// `n` in base 36.
pub open spec fn base36_text(n: nat) -> Seq<char> {
    byte_chars(digits(n, 36))
}

/// `n` in base 10.
pub open spec fn decimal_text(n: nat) -> Seq<char> {
    byte_chars(digits(n, 10))
}

/// `text` filled up on the left with `fill` to `width` characters; a longer
/// text stays as it is.
pub open spec fn pad_left(text: Seq<u8>, width: nat, fill: u8) -> Seq<u8> {
    if text.len() >= width {
        text
    } else {
        Seq::new((width - text.len()) as nat, |i: int| fill) + text
    }
}

pub proof fn lemma_digits_ascii(n: nat, radix: nat)
    requires
        2 <= radix <= 36,
    ensures
        is_ascii_bytes(digits(n, radix)),
        digits(n, radix).len() >= 1,
    decreases n,
{
    if n >= radix {
        assert(n / radix < n && n % radix < radix) by (nonlinear_arith)
            requires
                radix >= 2,
                n >= radix,
        ;
        lemma_digits_ascii(n / radix, radix);
    }
}

fn digit_of(d: u64) -> (b: u8)
    requires
        d < 36,
    ensures
        b == digit_byte(d as nat),
{
    if d < 10 {
        0x30u8 + (d as u8)
    } else {
        0x41u8 + ((d - 10) as u8)
    }
}

/// The digits of `num` in the given radix as ASCII bytes.
pub(crate) fn digit_bytes(num: u64, radix: u64) -> (out: Vec<u8>)
    requires
        2 <= radix <= 36,
    ensures
        out@ == digits(num as nat, radix as nat),
{
    let mut low_first: Vec<u8> = Vec::new();
    let mut rest: u64 = num;
    while rest >= radix
        invariant
            2 <= radix <= 36,
            digits(num as nat, radix as nat) == digits(rest as nat, radix as nat)
                + low_first@.reverse(),
        decreases rest,
    {
        let d = digit_of(rest % radix);
        proof {
            let r = radix as nat;
            let next = low_first@.push(d);
            assert(next.reverse() =~= seq![d] + low_first@.reverse());
            assert(digits(rest as nat, r) + low_first@.reverse() =~= digits(
                (rest / radix) as nat,
                r,
            ) + next.reverse());
        }
        low_first.push(d);
        rest = rest / radix;
    }
    let d = digit_of(rest);
    proof {
        let next = low_first@.push(d);
        assert(next.reverse() =~= seq![d] + low_first@.reverse());
    }
    low_first.push(d);
    let mut out: Vec<u8> = Vec::new();
    let mut i: usize = low_first.len();
    while i > 0
        invariant
            i <= low_first@.len(),
            out@ == low_first@.reverse().take(low_first@.len() - i),
        decreases i,
    {
        i = i - 1;
        out.push(low_first[i]);
        assert(out@ =~= low_first@.reverse().take(low_first@.len() - i));
    }
    assert(out@ =~= low_first@.reverse());
    out
}

/// The text of `num` in base 36, digits `0-9A-Z`, without padding.
pub fn encode(num: u64) -> (text: String)
    ensures
        text@ == base36_text(num as nat),
{
    let bytes = digit_bytes(num, 36);
    proof {
        lemma_digits_ascii(num as nat, 36);
    }
    text_of_bytes(bytes.as_slice())
}

/// The text of `num` in base 10.
pub fn decimal(num: u64) -> (text: String)
    ensures
        text@ == decimal_text(num as nat),
{
    let bytes = digit_bytes(num, 10);
    proof {
        lemma_digits_ascii(num as nat, 10);
    }
    text_of_bytes(bytes.as_slice())
}

/// The text of `num` in base 36, filled up on the left with `0` to `width`
/// characters.
pub fn encode_padded(num: u64, width: usize) -> (text: String)
    ensures
        text@ == byte_chars(pad_left(digits(num as nat, 36), width as nat, 0x30)),
{
    let bytes = digit_bytes(num, 36);
    let mut out: Vec<u8> = Vec::new();
    let ghost fill: Seq<u8> = Seq::new((width - bytes@.len()) as nat, |i: int| 0x30u8);
    if bytes.len() < width {
        let count: usize = width - bytes.len();
        let mut i: usize = 0;
        while i < count
            invariant
                i <= count,
                count == width - bytes@.len(),
                fill == Seq::new((width - bytes@.len()) as nat, |i: int| 0x30u8),
                out@ == fill.take(i as int),
            decreases count - i,
        {
            out.push(0x30u8);
            assert(out@ =~= fill.take(i + 1));
            i = i + 1;
        }
        assert(out@ =~= fill);
    }
    let mut digits_part = bytes;
    out.append(&mut digits_part);
    proof {
        lemma_digits_ascii(num as nat, 36);
        assert(out@ =~= pad_left(digits(num as nat, 36), width as nat, 0x30));
        assert(is_ascii_bytes(out@));
    }
    text_of_bytes(out.as_slice())
}

} // verus!
