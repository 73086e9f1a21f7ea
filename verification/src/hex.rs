//! Hexadecimal text: which strings are accepted, what number they denote,
//! and how they are cut into limbs.

use crate::limbs::{
    base_pow, lemma_limbs_of_value, lemma_value_push, limbs_of, limbs_value, trim_vec,
};
use vstd::prelude::*;

verus! {

/// Number of hexadecimal digits in one 32-bit limb.
pub const LIMB_HEX_DIGITS: usize = 8;

/// Number of hexadecimal digits in one 64-bit chunk of the text.
pub const CHUNK_HEX_DIGITS: usize = 16;

/// Whether `c` is one of `0-9`, `a-f`, `A-F`.
pub open spec fn is_hex_digit(c: char) -> bool {
    ('0' <= c && c <= '9') || ('a' <= c && c <= 'f') || ('A' <= c && c <= 'F')
}

/// The value of a hexadecimal digit; zero for any other character.
pub open spec fn hex_digit_value(c: char) -> nat {
    if '0' <= c && c <= '9' {
        (c as u32 - '0' as u32) as nat
    } else if 'a' <= c && c <= 'f' {
        (c as u32 - 'a' as u32 + 10) as nat
    } else if 'A' <= c && c <= 'F' {
        (c as u32 - 'A' as u32 + 10) as nat
    } else {
        0
    }
}

/// Whether every character of `s` is a hexadecimal digit.
pub open spec fn is_hex_text(s: Seq<char>) -> bool {
    forall|i: int| 0 <= i < s.len() ==> is_hex_digit(#[trigger] s[i])
}

/// Whether `s` starts with a minus sign.
pub open spec fn has_minus(s: Seq<char>) -> bool {
    s.len() > 0 && s[0] == '-'
}

/// The digits of `s`: all of it but a leading minus sign.
pub open spec fn hex_digits(s: Seq<char>) -> Seq<char> {
    if has_minus(s) {
        s.skip(1)
    } else {
        s
    }
}

/// The accepted texts: hexadecimal digits, with or without a minus sign in
/// front.  No digits at all are accepted and denote zero.
pub open spec fn is_signed_hex(s: Seq<char>) -> bool {
    is_hex_text(hex_digits(s))
}

/// The number that the digits `s` denote, most significant digit first.
pub open spec fn hex_value(s: Seq<char>) -> nat
    decreases s.len(),
{
    if s.len() == 0 {
        0
    } else {
        16 * hex_value(s.drop_last()) + hex_digit_value(s.last())
    }
}

/// Sixteen to the power `n`.
pub open spec fn pow16(n: nat) -> nat
    decreases n,
{
    if n == 0 {
        1
    } else {
        16 * pow16((n - 1) as nat)
    }
}

/// The digits `s` cut from the right into groups of sixteen, each group read
/// as a number, the rightmost (least significant) group first.  The last
/// group holds what is left and may be shorter.
pub open spec fn hex_chunks(s: Seq<char>) -> Seq<u64>
    decreases s.len(),
{
    if s.len() == 0 {
        Seq::empty()
    } else if s.len() <= 16 {
        seq![hex_value(s) as u64]
    } else {
        seq![hex_value(s.skip(s.len() - 16)) as u64] + hex_chunks(s.take(s.len() - 16))
    }
}

/// A larger exponent does not give a smaller power of sixteen.
pub proof fn lemma_pow16_monotonic(m: nat, n: nat)
    requires
        m <= n,
    ensures
        1 <= pow16(m) <= pow16(n),
    decreases n,
{
    if n > 0 {
        if m < n {
            lemma_pow16_monotonic(m, (n - 1) as nat);
        } else {
            lemma_pow16_monotonic((m - 1) as nat, (n - 1) as nat);
        }
    }
}

/// Eight digits fill a limb, sixteen fill a chunk.
pub proof fn lemma_pow16_widths()
    ensures
        pow16(8) == 0x1_0000_0000,
        pow16(15) == 0x1000_0000_0000_0000,
        pow16(16) == 0x1_0000_0000_0000_0000,
{
    reveal_with_fuel(pow16, 9);
    assert(pow16(8) == 0x1_0000_0000);
    assert(pow16(12) == 0x1_0000_0000_0000);
    assert(pow16(15) == 0x1000_0000_0000_0000);
}

/// `n` digits denote a number below sixteen to the `n`.
pub proof fn lemma_hex_value_bound(s: Seq<char>)
    ensures
        hex_value(s) < pow16(s.len()),
    decreases s.len(),
{
    if s.len() > 0 {
        lemma_hex_value_bound(s.drop_last());
    }
}

/// The value of two runs of digits written one after the other.
pub proof fn lemma_hex_value_concat(a: Seq<char>, b: Seq<char>)
    ensures
        hex_value(a + b) == hex_value(a) * pow16(b.len()) + hex_value(b),
    decreases b.len(),
{
    let h = hex_value(a);
    if b.len() == 0 {
        assert(a + b =~= a);
        assert(h * 1 == h) by (nonlinear_arith);
    } else {
        let rest = b.drop_last();
        assert((a + b).drop_last() =~= a + rest);
        assert((a + b).last() == b.last());
        lemma_hex_value_concat(a, rest);
        let p = pow16(rest.len());
        assert(pow16(b.len()) == 16 * p);
        assert(16 * (h * p + hex_value(rest)) == h * (16 * p) + 16 * hex_value(rest))
            by (nonlinear_arith);
    }
}

/// A range within hexadecimal digits holds hexadecimal digits only.
pub proof fn lemma_hex_text_range(s: Seq<char>, start: int, from: int, end: int)
    requires
        0 <= start <= from <= end <= s.len(),
        is_hex_text(s.skip(start)),
    ensures
        is_hex_text(s.subrange(from, end)),
{
    assert forall|i: int| 0 <= i < end - from implies is_hex_digit(
        #[trigger] s.subrange(from, end)[i],
    ) by {
        assert(s.skip(start)[from - start + i] == s[from + i]);
    }
}

/// The characters of `s`, one by one.
pub fn text_chars(s: &str) -> (chars: Vec<char>)
    ensures
        chars@ == s@,
{
    broadcast use vstd::string::group_string_axioms;

    let mut chars: Vec<char> = Vec::new();
    for c in it: s.chars()
        invariant
            it.seq() == s@,
            chars@ == it.seq().take(it.index()),
    {
        chars.push(c);
        assert(chars@ =~= it.seq().take(it.index() + 1));
    }
    assert(chars@ =~= s@);
    chars
}

/// Whether `c` is a hexadecimal digit, and its value.
pub fn hex_digit(c: char) -> (digit: Option<u8>)
    ensures
        digit is Some <==> is_hex_digit(c),
        digit matches Some(d) ==> d == hex_digit_value(c) && d < 16,
{
    let u: u32 = c as u32;
    if 0x30 <= u && u <= 0x39 {
        Some((u - 0x30) as u8)
    } else if 0x61 <= u && u <= 0x66 {
        Some((u - 0x61 + 10) as u8)
    } else if 0x41 <= u && u <= 0x46 {
        Some((u - 0x41 + 10) as u8)
    } else {
        None
    }
}

/// The value of the hexadecimal digit `c`.
pub fn digit_value(c: char) -> (d: u8)
    requires
        is_hex_digit(c),
    ensures
        d == hex_digit_value(c),
        d < 16,
{
    let u: u32 = c as u32;
    if u <= 0x39 {
        (u - 0x30) as u8
    } else if u >= 0x61 {
        (u - 0x61 + 10) as u8
    } else {
        (u - 0x41 + 10) as u8
    }
}

/// Whether `s` is an accepted text: hexadecimal digits after an optional
/// minus sign.
pub fn is_valid_hex(s: &str) -> (valid: bool)
    ensures
        valid == is_signed_hex(s@),
{
    let chars = text_chars(s);
    let start = sign_length(&chars);
    all_hex_from(&chars, start)
}

/// The length of the sign in front of the digits: one for a minus sign,
/// else zero.
pub fn sign_length(chars: &Vec<char>) -> (n: usize)
    ensures
        n == if has_minus(chars@) {
            1usize
        } else {
            0usize
        },
        n <= chars.len(),
        chars@.skip(n as int) == hex_digits(chars@),
{
    if chars.len() > 0 && chars[0] == '-' {
        1
    } else {
        assert(chars@.skip(0) =~= chars@);
        0
    }
}

/// Whether every character from `start` on is a hexadecimal digit.
pub fn all_hex_from(chars: &Vec<char>, start: usize) -> (all: bool)
    requires
        start <= chars.len(),
    ensures
        all == is_hex_text(chars@.skip(start as int)),
{
    let ghost tail = chars@.skip(start as int);
    let mut i: usize = start;
    while i < chars.len()
        invariant
            start <= i <= chars.len(),
            tail == chars@.skip(start as int),
            forall|j: int| 0 <= j < i - start ==> is_hex_digit(#[trigger] tail[j]),
        decreases chars.len() - i,
    {
        if hex_digit(chars[i]).is_none() {
            assert(!is_hex_digit(tail[i - start]));
            return false;
        }
        assert(tail[i - start] == chars@[i as int]);
        i = i + 1;
    }
    true
}

/// The number that the digits from `start` up to `end` denote.  Every
/// character in that range must be a hexadecimal digit.
pub fn parse_group(chars: &Vec<char>, start: usize, end: usize) -> (value: u64)
    requires
        start <= end <= chars.len(),
        end - start <= CHUNK_HEX_DIGITS,
        is_hex_text(chars@.subrange(start as int, end as int)),
    ensures
        value == hex_value(chars@.subrange(start as int, end as int)),
{
    let mut acc: u64 = 0;
    let mut i: usize = start;
    while i < end
        invariant
            start <= i <= end <= chars.len(),
            end - start <= CHUNK_HEX_DIGITS,
            is_hex_text(chars@.subrange(start as int, end as int)),
            acc == hex_value(chars@.subrange(start as int, i as int)),
        decreases end - i,
    {
        assert(chars@.subrange(start as int, end as int)[i - start] == chars@[i as int]);
        let d: u8 = digit_value(chars[i]);
        proof {
            let read = chars@.subrange(start as int, i as int);
            let next = chars@.subrange(start as int, i as int + 1);
            assert(next.drop_last() =~= read);
            assert(next.last() == chars@[i as int]);
            lemma_hex_value_bound(read);
            lemma_pow16_monotonic(read.len(), 15);
            lemma_pow16_widths();
        }
        acc = acc * 16 + d as u64;
        i = i + 1;
    }
    acc
}

/// The canonical 32-bit limbs of the number that the digits from `start` to
/// the end denote.  Every character from `start` on must be a hexadecimal
/// digit.
pub fn hex_limbs(chars: &Vec<char>, start: usize) -> (out: Vec<u32>)
    requires
        start <= chars.len(),
        is_hex_text(chars@.skip(start as int)),
    ensures
        out@ == limbs_of(hex_value(chars@.skip(start as int))),
{
    let ghost digits = chars@.skip(start as int);
    let mut out: Vec<u32> = Vec::new();
    let mut end: usize = chars.len();
    proof {
        assert(chars@.subrange(start as int, end as int) =~= digits);
        assert(hex_value(digits) * 1 == hex_value(digits)) by (nonlinear_arith);
    }
    while end > start
        invariant
            start <= end <= chars.len(),
            digits == chars@.skip(start as int),
            is_hex_text(digits),
            hex_value(digits) == hex_value(chars@.subrange(start as int, end as int)) * base_pow(
                out@.len(),
            ) + limbs_value(out@),
        decreases end - start,
    {
        let from: usize = if end - start > LIMB_HEX_DIGITS {
            end - LIMB_HEX_DIGITS
        } else {
            start
        };
        proof {
            lemma_hex_text_range(chars@, start as int, from as int, end as int);
        }
        let group = parse_group(chars, from, end);
        proof {
            let left = chars@.subrange(start as int, from as int);
            let right = chars@.subrange(from as int, end as int);
            assert(chars@.subrange(start as int, end as int) =~= left + right);
            lemma_hex_value_concat(left, right);
            lemma_hex_value_bound(right);
            lemma_pow16_monotonic(right.len(), 8);
            lemma_pow16_widths();
            lemma_value_push(out@, group as u32);
            let p = base_pow(out@.len());
            let h = hex_value(left);
            let g = hex_value(right);
            if from == start {
                assert(h == 0);
                assert((h * pow16(right.len()) + g) * p + limbs_value(out@) == h * (0x1_0000_0000
                    * p) + (limbs_value(out@) + g * p)) by (nonlinear_arith)
                    requires
                        h == 0,
                ;
            } else {
                assert((h * 0x1_0000_0000 + g) * p + limbs_value(out@) == h * (0x1_0000_0000 * p)
                    + (limbs_value(out@) + g * p)) by (nonlinear_arith);
            }
        }
        out.push(group as u32);
        end = from;
    }
    proof {
        assert(hex_value(chars@.subrange(start as int, end as int)) == 0);
        assert(0 * base_pow(out@.len()) == 0) by (nonlinear_arith);
        lemma_limbs_of_value(out@);
    }
    trim_vec(&mut out);
    out
}

/// The 64-bit chunks of the digits from `start` to the end, rightmost chunk
/// first.  Every character from `start` on must be a hexadecimal digit.
pub fn hex_chunks_of(chars: &Vec<char>, start: usize) -> (out: Vec<u64>)
    requires
        start <= chars.len(),
        is_hex_text(chars@.skip(start as int)),
    ensures
        out@ == hex_chunks(chars@.skip(start as int)),
{
    let ghost digits = chars@.skip(start as int);
    let mut out: Vec<u64> = Vec::new();
    let mut end: usize = chars.len();
    proof {
        assert(chars@.subrange(start as int, end as int) =~= digits);
    }
    while end > start
        invariant
            start <= end <= chars.len(),
            digits == chars@.skip(start as int),
            is_hex_text(digits),
            hex_chunks(digits) == out@ + hex_chunks(chars@.subrange(start as int, end as int)),
        decreases end - start,
    {
        let from: usize = if end - start > CHUNK_HEX_DIGITS {
            end - CHUNK_HEX_DIGITS
        } else {
            start
        };
        proof {
            lemma_hex_text_range(chars@, start as int, from as int, end as int);
        }
        let group = parse_group(chars, from, end);
        proof {
            let whole = chars@.subrange(start as int, end as int);
            let left = chars@.subrange(start as int, from as int);
            let right = chars@.subrange(from as int, end as int);
            if from == start {
                assert(whole =~= right);
                assert(left.len() == 0);
                assert(hex_chunks(whole) =~= seq![group] + hex_chunks(left));
            } else {
                assert(whole.skip(whole.len() - 16) =~= right);
                assert(whole.take(whole.len() - 16) =~= left);
            }
            assert(out@ + hex_chunks(whole) =~= out@.push(group) + hex_chunks(left));
        }
        out.push(group);
        end = from;
    }
    proof {
        assert(out@ + Seq::<u64>::empty() =~= out@);
    }
    out
}

} // verus!
