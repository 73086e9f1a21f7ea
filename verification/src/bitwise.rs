//! Limb-wise logic and the two per-limb shifts.

use crate::limbs::{lemma_trim_seq, limb_at, limb_or_zero, trim_seq, trim_vec, LIMB_BITS};
use vstd::prelude::*;

verus! {

/// The longer of two lengths.
pub open spec fn longer(a: Seq<u32>, b: Seq<u32>) -> nat {
    if a.len() >= b.len() {
        a.len()
    } else {
        b.len()
    }
}

/// Every limb complemented; the length stays.
pub open spec fn complement_seq(s: Seq<u32>) -> Seq<u32> {
    Seq::new(s.len(), |i: int| !s[i])
}

/// Limb-wise exclusive or over the longer length, the shorter operand
/// continued with zero limbs.
pub open spec fn xor_seq(a: Seq<u32>, b: Seq<u32>) -> Seq<u32> {
    Seq::new(longer(a, b), |i: int| limb_at(a, i) ^ limb_at(b, i))
}

/// Limb-wise or over the longer length, the shorter operand continued with
/// zero limbs.
pub open spec fn or_seq(a: Seq<u32>, b: Seq<u32>) -> Seq<u32> {
    Seq::new(longer(a, b), |i: int| limb_at(a, i) | limb_at(b, i))
}

/// Limb-wise and over the longer length, the shorter operand continued with
/// zero limbs.
pub open spec fn and_seq(a: Seq<u32>, b: Seq<u32>) -> Seq<u32> {
    Seq::new(longer(a, b), |i: int| limb_at(a, i) & limb_at(b, i))
}

/// A limb moved up by `d` bits.  Moved by the limb width or more, nothing of
/// it is left.
pub open spec fn moved_up(x: u32, d: u32) -> u32 {
    if d < LIMB_BITS {
        x << d
    } else {
        0
    }
}

/// A limb moved down by `d` bits.  Moved by the limb width or more, nothing
/// of it is left.
pub open spec fn moved_down(x: u32, d: u32) -> u32 {
    if d < LIMB_BITS {
        x >> d
    } else {
        0
    }
}

/// What a limb hands to its neighbour in a right shift by `n`: its bits
/// moved up by the rest of the limb width.  Where `n` exceeds the limb width
/// there is no rest, and nothing is handed on.
pub open spec fn spill_up(x: u32, n: u32) -> u32 {
    if n <= LIMB_BITS {
        moved_up(x, (LIMB_BITS - n) as u32)
    } else {
        0
    }
}

/// The counterpart of [`spill_up`] for the left shift: the bits of the limb
/// moved down by the rest of the limb width.
pub open spec fn spill_down(x: u32, n: u32) -> u32 {
    if n <= LIMB_BITS {
        moved_down(x, (LIMB_BITS - n) as u32)
    } else {
        0
    }
}

/// The per-limb right shift before trimming.  Limb `i` is limb `i` of `s`
/// moved right by `n`, joined with what limb `i - 1` spilled; one more limb
/// at the end takes what the last limb spilled.
pub open spec fn shift_r_seq(s: Seq<u32>, n: u32) -> Seq<u32> {
    Seq::new(
        s.len() + 1,
        |i: int|
            moved_down(limb_at(s, i), n) | (if i > 0 {
                spill_up(limb_at(s, i - 1), n)
            } else {
                0
            }),
    )
}

/// The limbs of the per-limb left shift that stand where the limbs of `s`
/// stood: limb `i` of `s` moved left by `n`, joined with what limb `i + 1`
/// spilled.
pub open spec fn shift_l_body(s: Seq<u32>, n: u32) -> Seq<u32> {
    Seq::new(s.len(), |i: int| moved_up(s[i], n) | spill_down(limb_at(s, i + 1), n))
}

/// The per-limb left shift before trimming.  What the lowest limb spilled,
/// if it is not zero, is put in front of the other limbs and moves each of
/// them up by one place.
pub open spec fn shift_l_seq(s: Seq<u32>, n: u32) -> Seq<u32> {
    let spill = spill_down(limb_at(s, 0), n);
    if spill != 0 {
        seq![spill] + shift_l_body(s, n)
    } else {
        shift_l_body(s, n)
    }
}

/// Bit `k` of a limb sequence, counted from the least significant bit of the
/// first limb; bits beyond the last limb are clear.
pub open spec fn bit_at(s: Seq<u32>, k: nat) -> bool {
    (limb_at(s, (k / 32) as int) >> ((k % 32) as u32)) & 1 == 1
}

/// Complementing twice gives back every limb.
pub proof fn lemma_complement_involution(s: Seq<u32>)
    ensures
        complement_seq(complement_seq(s)) == s,
{
    assert forall|i: int| 0 <= i < s.len() implies complement_seq(complement_seq(s))[i] == s[i] by {
        let x = s[i];
        assert(!!x == x) by (bit_vector);
    }
    assert(complement_seq(complement_seq(s)) =~= s);
}

/// Trimming changes no limb: read with zeros beyond the end, a sequence and
/// its trimmed form are the same at every position.
pub proof fn lemma_trim_keeps_limbs(s: Seq<u32>, i: int)
    ensures
        limb_at(trim_seq(s), i) == limb_at(s, i),
{
    lemma_trim_seq(s);
}

/// Every bit of the exclusive or is set exactly when the operands differ in
/// that bit, whatever the two lengths.
pub proof fn lemma_xor_bits(a: Seq<u32>, b: Seq<u32>, k: nat)
    ensures
        bit_at(trim_seq(xor_seq(a, b)), k) == (bit_at(a, k) != bit_at(b, k)),
{
    let i = (k / 32) as int;
    let j = (k % 32) as u32;
    let x = limb_at(a, i);
    let y = limb_at(b, i);
    lemma_trim_keeps_limbs(xor_seq(a, b), i);
    assert(0u32 ^ 0u32 == 0u32) by (bit_vector);
    assert(limb_at(xor_seq(a, b), i) == x ^ y);
    assert((((x ^ y) >> j) & 1 == 1) == (((x >> j) & 1 == 1) != ((y >> j) & 1 == 1)))
        by (bit_vector);
}

/// Every bit of the or is set exactly when it is set in one operand at
/// least, whatever the two lengths.
pub proof fn lemma_or_bits(a: Seq<u32>, b: Seq<u32>, k: nat)
    ensures
        bit_at(trim_seq(or_seq(a, b)), k) == (bit_at(a, k) || bit_at(b, k)),
{
    let i = (k / 32) as int;
    let j = (k % 32) as u32;
    let x = limb_at(a, i);
    let y = limb_at(b, i);
    lemma_trim_keeps_limbs(or_seq(a, b), i);
    assert(0u32 | 0u32 == 0u32) by (bit_vector);
    assert(limb_at(or_seq(a, b), i) == x | y);
    assert((((x | y) >> j) & 1 == 1) == (((x >> j) & 1 == 1) || ((y >> j) & 1 == 1)))
        by (bit_vector);
}

/// Every bit of the and is set exactly when it is set in both operands,
/// whatever the two lengths.
pub proof fn lemma_and_bits(a: Seq<u32>, b: Seq<u32>, k: nat)
    ensures
        bit_at(trim_seq(and_seq(a, b)), k) == (bit_at(a, k) && bit_at(b, k)),
{
    let i = (k / 32) as int;
    let j = (k % 32) as u32;
    let x = limb_at(a, i);
    let y = limb_at(b, i);
    lemma_trim_keeps_limbs(and_seq(a, b), i);
    assert(0u32 & 0u32 == 0u32) by (bit_vector);
    assert(limb_at(and_seq(a, b), i) == x & y);
    assert((((x & y) >> j) & 1 == 1) == (((x >> j) & 1 == 1) && ((y >> j) & 1 == 1)))
        by (bit_vector);
}

/// The complement of every limb of `v`.
pub fn complement_limbs(v: &Vec<u32>) -> (out: Vec<u32>)
    ensures
        out@ == complement_seq(v@),
{
    let mut out: Vec<u32> = Vec::new();
    let mut i: usize = 0;
    while i < v.len()
        invariant
            i <= v.len(),
            out@ == complement_seq(v@).take(i as int),
        decreases v.len() - i,
    {
        out.push(!v[i]);
        assert(out@ =~= complement_seq(v@).take(i as int + 1));
        i = i + 1;
    }
    assert(out@ =~= complement_seq(v@));
    out
}

/// Exclusive or of two limb vectors, trimmed.
pub fn xor_limbs(a: &Vec<u32>, b: &Vec<u32>) -> (out: Vec<u32>)
    ensures
        out@ == trim_seq(xor_seq(a@, b@)),
{
    let n = if a.len() >= b.len() {
        a.len()
    } else {
        b.len()
    };
    let mut out: Vec<u32> = Vec::new();
    let mut i: usize = 0;
    while i < n
        invariant
            i <= n,
            n == longer(a@, b@),
            out@ == xor_seq(a@, b@).take(i as int),
        decreases n - i,
    {
        let x = limb_or_zero(a, i);
        let y = limb_or_zero(b, i);
        out.push(x ^ y);
        assert(out@ =~= xor_seq(a@, b@).take(i as int + 1));
        i = i + 1;
    }
    assert(out@ =~= xor_seq(a@, b@));
    trim_vec(&mut out);
    out
}

/// Or of two limb vectors, trimmed.
pub fn or_limbs(a: &Vec<u32>, b: &Vec<u32>) -> (out: Vec<u32>)
    ensures
        out@ == trim_seq(or_seq(a@, b@)),
{
    let n = if a.len() >= b.len() {
        a.len()
    } else {
        b.len()
    };
    let mut out: Vec<u32> = Vec::new();
    let mut i: usize = 0;
    while i < n
        invariant
            i <= n,
            n == longer(a@, b@),
            out@ == or_seq(a@, b@).take(i as int),
        decreases n - i,
    {
        let x = limb_or_zero(a, i);
        let y = limb_or_zero(b, i);
        out.push(x | y);
        assert(out@ =~= or_seq(a@, b@).take(i as int + 1));
        i = i + 1;
    }
    assert(out@ =~= or_seq(a@, b@));
    trim_vec(&mut out);
    out
}

/// And of two limb vectors, trimmed.
pub fn and_limbs(a: &Vec<u32>, b: &Vec<u32>) -> (out: Vec<u32>)
    ensures
        out@ == trim_seq(and_seq(a@, b@)),
{
    let n = if a.len() >= b.len() {
        a.len()
    } else {
        b.len()
    };
    let mut out: Vec<u32> = Vec::new();
    let mut i: usize = 0;
    while i < n
        invariant
            i <= n,
            n == longer(a@, b@),
            out@ == and_seq(a@, b@).take(i as int),
        decreases n - i,
    {
        let x = limb_or_zero(a, i);
        let y = limb_or_zero(b, i);
        out.push(x & y);
        assert(out@ =~= and_seq(a@, b@).take(i as int + 1));
        i = i + 1;
    }
    assert(out@ =~= and_seq(a@, b@));
    trim_vec(&mut out);
    out
}

/// Zero limbs only trim to the single zero limb.
pub proof fn lemma_trim_zeros(s: Seq<u32>)
    requires
        forall|i: int| 0 <= i < s.len() ==> s[i] == 0,
    ensures
        trim_seq(s) == seq![0u32],
    decreases s.len(),
{
    if s.len() > 0 {
        lemma_trim_zeros(s.drop_last());
    }
}

/// A shift by no bits changes no limb: either shift returns the limbs as
/// they are, trimmed.
pub proof fn lemma_shift_by_zero(s: Seq<u32>)
    ensures
        trim_seq(shift_r_seq(s, 0)) == trim_seq(s),
        trim_seq(shift_l_seq(s, 0)) == trim_seq(s),
{
    assert forall|x: u32| (#[trigger] (x >> 0u32)) | 0u32 == x by {
        assert((x >> 0u32) | 0u32 == x) by (bit_vector);
    }
    assert forall|x: u32| (#[trigger] (x << 0u32)) | 0u32 == x by {
        assert((x << 0u32) | 0u32 == x) by (bit_vector);
    }
    assert(shift_r_seq(s, 0) =~= s.push(0));
    assert(s.push(0).drop_last() =~= s);
    assert(shift_l_body(s, 0) =~= s);
}

/// A shift by more than the limb width leaves zero: no limb keeps a bit and
/// none hands one on.
pub proof fn lemma_shift_beyond_width(s: Seq<u32>, n: u32)
    requires
        n > LIMB_BITS,
    ensures
        trim_seq(shift_r_seq(s, n)) == seq![0u32],
        trim_seq(shift_l_seq(s, n)) == seq![0u32],
{
    assert(0u32 | 0u32 == 0u32) by (bit_vector);
    lemma_trim_zeros(shift_r_seq(s, n));
    lemma_trim_zeros(shift_l_seq(s, n));
}

/// `x` moved up by `d` bits.
pub fn move_up(x: u32, d: u32) -> (y: u32)
    ensures
        y == moved_up(x, d),
{
    if d < LIMB_BITS {
        x << d
    } else {
        0
    }
}

/// `x` moved down by `d` bits.
pub fn move_down(x: u32, d: u32) -> (y: u32)
    ensures
        y == moved_down(x, d),
{
    if d < LIMB_BITS {
        x >> d
    } else {
        0
    }
}

/// The per-limb right shift by `n` bits, trimmed.
pub fn shift_r_limbs(a: &Vec<u32>, n: u32) -> (out: Vec<u32>)
    ensures
        out@ == trim_seq(shift_r_seq(a@, n)),
{
    let mut out: Vec<u32> = Vec::new();
    let mut carry: u32 = 0;
    let mut i: usize = 0;
    while i < a.len()
        invariant
            i <= a.len(),
            out@ == shift_r_seq(a@, n).take(i as int),
            carry == if i > 0 {
                spill_up(a@[i - 1], n)
            } else {
                0
            },
        decreases a.len() - i,
    {
        let x = a[i];
        out.push(move_down(x, n) | carry);
        carry = if n <= LIMB_BITS {
            move_up(x, LIMB_BITS - n)
        } else {
            0
        };
        assert(out@ =~= shift_r_seq(a@, n).take(i as int + 1));
        i = i + 1;
    }
    proof {
        let full = shift_r_seq(a@, n);
        assert((0u32 >> n) | carry == carry) by (bit_vector);
        assert(0u32 | carry == carry) by (bit_vector);
        assert(full =~= out@.push(carry));
        if carry == 0 {
            assert(full.drop_last() =~= out@);
        }
    }
    if carry != 0 {
        out.push(carry);
    }
    trim_vec(&mut out);
    out
}

/// The per-limb left shift by `n` bits, trimmed.  The limbs are taken from
/// the most significant down and each result goes to the front.
pub fn shift_l_limbs(a: &Vec<u32>, n: u32) -> (out: Vec<u32>)
    ensures
        out@ == trim_seq(shift_l_seq(a@, n)),
{
    let mut out: Vec<u32> = Vec::new();
    let mut carry: u32 = 0;
    let mut i: usize = a.len();
    proof {
        assert forall|d: u32| #[trigger] (0u32 >> d) == 0u32 by {
            assert(0u32 >> d == 0u32) by (bit_vector);
        }
        assert(out@ =~= shift_l_body(a@, n).skip(i as int));
    }
    while i > 0
        invariant
            i <= a.len(),
            out@ == shift_l_body(a@, n).skip(i as int),
            carry == spill_down(limb_at(a@, i as int), n),
        decreases i,
    {
        i = i - 1;
        let x = a[i];
        out.insert(0, move_up(x, n) | carry);
        carry = if n <= LIMB_BITS {
            move_down(x, LIMB_BITS - n)
        } else {
            0
        };
        assert(out@ =~= shift_l_body(a@, n).skip(i as int));
    }
    assert(out@ =~= shift_l_body(a@, n));
    if carry != 0 {
        out.insert(0, carry);
        assert(out@ =~= seq![carry] + shift_l_body(a@, n));
    }
    trim_vec(&mut out);
    out
}

} // verus!
