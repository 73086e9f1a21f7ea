//! Arithmetic on magnitudes: limb vectors read as natural numbers.

use crate::limbs::{
    base_pow, limb_base, lemma_base_pow_monotonic, lemma_base_pow_positive, lemma_limbs_of,
    lemma_limbs_of_value, lemma_padded_step, lemma_value_bound, lemma_value_cons,
    lemma_value_padded, lemma_value_push, lemma_value_single, limb_or_zero, limbs_of,
    limbs_value, padded, trim_vec, value_less,
};
use vstd::arithmetic::div_mod::{lemma_fundamental_div_mod_converse, lemma_small_mod};
use vstd::prelude::*;

verus! {

/// The radix as a machine word: one limb's worth of carry.
pub const LIMB_RADIX: u64 = 0x1_0000_0000;

/// The difference of two magnitudes as borrow propagation over the longer of
/// the two lengths leaves it: exact where `a` is at least `b`, and wrapped
/// around that many limbs where it is not.
pub open spec fn wrapped_difference(a: Seq<u32>, b: Seq<u32>) -> nat {
    let n = if a.len() >= b.len() {
        a.len()
    } else {
        b.len()
    };
    ((limbs_value(a) - limbs_value(b)) % (base_pow(n) as int)) as nat
}

proof fn lemma_add_step(
    out: nat,
    carry: nat,
    pa: nat,
    pb: nat,
    x: nat,
    y: nat,
    low: nat,
    carry_out: nat,
    p: nat,
)
    by (nonlinear_arith)
    requires
        out + carry * p == pa + pb,
        low + carry_out * 0x1_0000_0000 == x + y + carry,
    ensures
        (out + low * p) + carry_out * (0x1_0000_0000 * p) == (pa + x * p) + (pb + y * p),
{
}

proof fn lemma_sub_step(
    out: int,
    borrow: int,
    pa: int,
    pb: int,
    x: int,
    y: int,
    low: int,
    borrow_out: int,
    p: int,
)
    by (nonlinear_arith)
    requires
        out - borrow * p == pa - pb,
        low - borrow_out * 0x1_0000_0000 == x - y - borrow,
    ensures
        (out + low * p) - borrow_out * (0x1_0000_0000 * p) == (pa + x * p) - (pb + y * p),
{
}

proof fn lemma_scale_step(out: nat, carry: nat, pb: nat, y: nat, x: nat, low: nat, carry_out: nat, p: nat)
    by (nonlinear_arith)
    requires
        out + carry * p == pb * x,
        low + carry_out * 0x1_0000_0000 == y * x + carry,
    ensures
        (out + low * p) + carry_out * (0x1_0000_0000 * p) == (pb + y * p) * x,
{
}

/// The sum of two magnitudes, in canonical limbs.
pub fn add_limbs(a: &Vec<u32>, b: &Vec<u32>) -> (sum: Vec<u32>)
    ensures
        sum@ == limbs_of(limbs_value(a@) + limbs_value(b@)),
{
    let n = if a.len() >= b.len() {
        a.len()
    } else {
        b.len()
    };
    let mut out: Vec<u32> = Vec::new();
    let mut carry: u32 = 0;
    let mut i: usize = 0;
    while i < n
        invariant
            i <= n,
            out@.len() == i,
            carry <= 1,
            limbs_value(out@) + carry as nat * base_pow(i as nat) == limbs_value(
                padded(a@, i as nat),
            ) + limbs_value(padded(b@, i as nat)),
        decreases n - i,
    {
        let x = limb_or_zero(a, i);
        let y = limb_or_zero(b, i);
        let total: u64 = x as u64 + y as u64 + carry as u64;
        let low: u32 = (total % LIMB_RADIX) as u32;
        let carry_out: u32 = (total / LIMB_RADIX) as u32;
        proof {
            lemma_padded_step(a@, i as nat);
            lemma_padded_step(b@, i as nat);
            lemma_value_push(out@, low);
            lemma_add_step(
                limbs_value(out@),
                carry as nat,
                limbs_value(padded(a@, i as nat)),
                limbs_value(padded(b@, i as nat)),
                x as nat,
                y as nat,
                low as nat,
                carry_out as nat,
                base_pow(i as nat),
            );
        }
        out.push(low);
        carry = carry_out;
        i = i + 1;
    }
    proof {
        lemma_value_padded(a@, n as nat);
        lemma_value_padded(b@, n as nat);
        lemma_value_push(out@, carry);
    }
    if carry > 0 {
        out.push(carry);
    }
    proof {
        lemma_limbs_of_value(out@);
    }
    trim_vec(&mut out);
    out
}

/// The difference of two magnitudes by borrow propagation, in canonical
/// limbs.  A borrow out of the top limb is dropped, so where `a` is below `b`
/// the result wraps around the longer operand's length.
pub fn sub_limbs(a: &Vec<u32>, b: &Vec<u32>) -> (diff: Vec<u32>)
    ensures
        diff@ == limbs_of(wrapped_difference(a@, b@)),
        limbs_value(a@) >= limbs_value(b@) ==> diff@ == limbs_of(
            (limbs_value(a@) - limbs_value(b@)) as nat,
        ),
{
    let n = if a.len() >= b.len() {
        a.len()
    } else {
        b.len()
    };
    let mut out: Vec<u32> = Vec::new();
    let mut borrow: u32 = 0;
    let mut i: usize = 0;
    while i < n
        invariant
            i <= n,
            out@.len() == i,
            borrow <= 1,
            limbs_value(out@) - borrow as int * base_pow(i as nat) == limbs_value(
                padded(a@, i as nat),
            ) - limbs_value(padded(b@, i as nat)),
        decreases n - i,
    {
        let x = limb_or_zero(a, i);
        let y = limb_or_zero(b, i);
        let d: i64 = x as i64 - y as i64 - borrow as i64;
        let borrow_out: u32 = if d < 0 {
            1
        } else {
            0
        };
        let low: u32 = if d < 0 {
            (d + 0x1_0000_0000) as u32
        } else {
            d as u32
        };
        proof {
            lemma_padded_step(a@, i as nat);
            lemma_padded_step(b@, i as nat);
            lemma_value_push(out@, low);
            lemma_sub_step(
                limbs_value(out@) as int,
                borrow as int,
                limbs_value(padded(a@, i as nat)) as int,
                limbs_value(padded(b@, i as nat)) as int,
                x as int,
                y as int,
                low as int,
                borrow_out as int,
                base_pow(i as nat) as int,
            );
        }
        out.push(low);
        borrow = borrow_out;
        i = i + 1;
    }
    proof {
        let va = limbs_value(a@) as int;
        let vb = limbs_value(b@) as int;
        let m = base_pow(n as nat) as int;
        lemma_value_padded(a@, n as nat);
        lemma_value_padded(b@, n as nat);
        lemma_value_bound(out@);
        lemma_base_pow_positive(n as nat);
        assert(va - vb == (-(borrow as int)) * m + limbs_value(out@)) by (nonlinear_arith)
            requires
                limbs_value(out@) - borrow as int * m == va - vb,
        ;
        lemma_fundamental_div_mod_converse(
            va - vb,
            m,
            -(borrow as int),
            limbs_value(out@) as int,
        );
        lemma_limbs_of_value(out@);
        if va >= vb {
            lemma_value_bound(a@);
            lemma_base_pow_monotonic(a@.len(), n as nat);
            lemma_small_mod((va - vb) as nat, m as nat);
        }
    }
    trim_vec(&mut out);
    out
}

/// A magnitude times a single limb, in canonical limbs.
pub fn scale_limbs(b: &Vec<u32>, x: u32) -> (product: Vec<u32>)
    ensures
        product@ == limbs_of(limbs_value(b@) * x as nat),
{
    let mut out: Vec<u32> = Vec::new();
    let mut carry: u32 = 0;
    let mut i: usize = 0;
    proof {
        assert(limbs_value(padded(b@, 0)) == 0);
        assert(0 * x as nat == 0) by (nonlinear_arith);
    }
    while i < b.len()
        invariant
            i <= b.len(),
            out@.len() == i,
            limbs_value(out@) + carry as nat * base_pow(i as nat) == limbs_value(
                padded(b@, i as nat),
            ) * x as nat,
        decreases b.len() - i,
    {
        let y = b[i];
        assert(y as u64 * x as u64 + carry as u64 <= 0xffff_ffff_0000_0000) by (nonlinear_arith)
            requires
                y <= 0xffff_ffff,
                x <= 0xffff_ffff,
                carry <= 0xffff_ffff,
        ;
        let total: u64 = y as u64 * x as u64 + carry as u64;
        let low: u32 = (total % LIMB_RADIX) as u32;
        let carry_out: u32 = (total / LIMB_RADIX) as u32;
        proof {
            lemma_padded_step(b@, i as nat);
            lemma_value_push(out@, low);
            lemma_scale_step(
                limbs_value(out@),
                carry as nat,
                limbs_value(padded(b@, i as nat)),
                y as nat,
                x as nat,
                low as nat,
                carry_out as nat,
                base_pow(i as nat),
            );
        }
        out.push(low);
        carry = carry_out;
        i = i + 1;
    }
    proof {
        lemma_value_padded(b@, b@.len());
        lemma_value_push(out@, carry);
    }
    out.push(carry);
    proof {
        lemma_limbs_of_value(out@);
    }
    trim_vec(&mut out);
    out
}

/// The product of two magnitudes, in canonical limbs: one row per limb of
/// `a`, most significant first, each added to the rows before it moved up by
/// one limb.
pub fn mul_limbs(a: &Vec<u32>, b: &Vec<u32>) -> (product: Vec<u32>)
    ensures
        product@ == limbs_of(limbs_value(a@) * limbs_value(b@)),
{
    let mut acc: Vec<u32> = Vec::new();
    acc.push(0);
    let mut i: usize = a.len();
    proof {
        lemma_value_single(0);
        assert(a@.skip(i as int) =~= Seq::<u32>::empty());
        assert(limbs_value(Seq::<u32>::empty()) == 0);
        assert(0 * limbs_value(b@) == 0) by (nonlinear_arith);
        assert(acc@ =~= seq![0u32]);
        assert(limbs_of(0) == seq![0u32]);
    }
    while i > 0
        invariant
            i <= a.len(),
            acc@ == limbs_of(limbs_value(a@.skip(i as int)) * limbs_value(b@)),
        decreases i,
    {
        i = i - 1;
        let row = scale_limbs(b, a[i]);
        let ghost high = limbs_value(a@.skip(i as int + 1));
        let ghost vb = limbs_value(b@);
        proof {
            lemma_limbs_of(high * vb);
            lemma_limbs_of(vb * a[i as int] as nat);
            lemma_value_cons(0, acc@);
            lemma_value_cons(a[i as int], a@.skip(i as int + 1));
            assert(a@.skip(i as int) =~= seq![a[i as int]] + a@.skip(i as int + 1));
            assert(0x1_0000_0000 * (high * vb) + vb * a[i as int] as nat == (a[i as int] as nat
                + 0x1_0000_0000 * high) * vb) by (nonlinear_arith);
        }
        let ghost before = acc@;
        acc.insert(0, 0);
        assert(acc@ =~= seq![0u32] + before);
        acc = add_limbs(&acc, &row);
    }
    proof {
        assert(a@.skip(0) =~= a@);
    }
    acc
}

/// The largest single limb `x` for which `b` times `x` does not exceed
/// `rem`, found by bisecting the whole range of a limb.
pub fn quotient_limb(rem: &Vec<u32>, b: &Vec<u32>) -> (x: u32)
    requires
        limbs_value(rem@) < limbs_value(b@) * limb_base(),
    ensures
        limbs_value(b@) * x as nat <= limbs_value(rem@) < limbs_value(b@) * (x as nat + 1),
{
    let ghost vb = limbs_value(b@);
    let ghost vr = limbs_value(rem@);
    let mut low: u32 = 0;
    let mut high: u32 = u32::MAX;
    proof {
        assert(vb * 0 == 0) by (nonlinear_arith);
    }
    while low < high
        invariant
            low <= high,
            vb == limbs_value(b@),
            vr == limbs_value(rem@),
            vb * low as nat <= vr < vb * (high as nat + 1),
        decreases high - low,
    {
        let middle: u32 = low + (high - low) / 2 + (high - low) % 2;
        let mut factor: Vec<u32> = Vec::new();
        factor.push(middle);
        let product = mul_limbs(b, &factor);
        proof {
            assert(factor@ =~= seq![middle]);
            lemma_value_single(middle);
            lemma_limbs_of(vb * middle as nat);
        }
        if value_less(rem, &product) {
            high = middle - 1;
        } else {
            low = middle;
        }
    }
    low
}

/// Quotient and remainder of one magnitude by another, in canonical limbs,
/// by long division: the limbs of `a` enter the running remainder from the
/// most significant down, and each step takes out the largest multiple of
/// `b` that fits.
pub fn div_rem_limbs(a: &Vec<u32>, b: &Vec<u32>) -> (result: (Vec<u32>, Vec<u32>))
    requires
        limbs_value(b@) > 0,
    ensures
        result.0@ == limbs_of(limbs_value(a@) / limbs_value(b@)),
        result.1@ == limbs_of(limbs_value(a@) % limbs_value(b@)),
{
    let ghost vb = limbs_value(b@);
    let mut quotient: Vec<u32> = Vec::new();
    let mut rem: Vec<u32> = Vec::new();
    rem.push(0);
    let mut i: usize = a.len();
    proof {
        assert(rem@ =~= seq![0u32]);
        lemma_value_single(0);
        assert(a@.skip(i as int) =~= Seq::<u32>::empty());
        assert(limbs_value(Seq::<u32>::empty()) == 0);
        assert(0 * vb == 0) by (nonlinear_arith);
    }
    while i > 0
        invariant
            i <= a.len(),
            vb == limbs_value(b@),
            vb > 0,
            limbs_value(rem@) < vb,
            limbs_value(a@.skip(i as int)) == limbs_value(quotient@) * vb + limbs_value(rem@),
        decreases i,
    {
        i = i - 1;
        let ghost high = limbs_value(a@.skip(i as int + 1));
        let ghost q0 = limbs_value(quotient@);
        let ghost r0 = limbs_value(rem@);
        let ghost before = rem@;
        let limb = a[i];
        rem.insert(0, limb);
        proof {
            assert(rem@ =~= seq![limb] + before);
            lemma_value_cons(limb, before);
            lemma_value_cons(limb, a@.skip(i as int + 1));
            assert(a@.skip(i as int) =~= seq![limb] + a@.skip(i as int + 1));
            assert(limb as nat + 0x1_0000_0000 * r0 < vb * 0x1_0000_0000) by (nonlinear_arith)
                requires
                    limb < 0x1_0000_0000,
                    r0 + 1 <= vb,
            ;
        }
        let x = quotient_limb(&rem, b);
        let product = scale_limbs(b, x);
        let ghost r1 = limbs_value(rem@);
        proof {
            lemma_limbs_of(vb * x as nat);
        }
        rem = sub_limbs(&rem, &product);
        let ghost earlier = quotient@;
        quotient.insert(0, x);
        proof {
            lemma_limbs_of((r1 - vb * x as nat) as nat);
            assert(quotient@ =~= seq![x] + earlier);
            lemma_value_cons(x, earlier);
            assert(vb * (x as nat + 1) == vb * x as nat + vb) by (nonlinear_arith);
            assert(limb as nat + 0x1_0000_0000 * (q0 * vb + r0) == (x as nat + 0x1_0000_0000 * q0)
                * vb + (limb as nat + 0x1_0000_0000 * r0 - vb * x as nat)) by (nonlinear_arith);
        }
    }
    proof {
        assert(a@.skip(0) =~= a@);
        lemma_fundamental_div_mod_converse(
            limbs_value(a@) as int,
            vb as int,
            limbs_value(quotient@) as int,
            limbs_value(rem@) as int,
        );
        lemma_limbs_of_value(quotient@);
        lemma_limbs_of_value(rem@);
    }
    trim_vec(&mut quotient);
    trim_vec(&mut rem);
    (quotient, rem)
}

} // verus!
