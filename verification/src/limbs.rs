//! The mathematical model of a limb sequence: its value, its canonical
//! (trimmed) form, and the facts that connect the two.

use vstd::prelude::*;

verus! {

/// Width of one limb in bits.
pub const LIMB_BITS: u32 = 32;

/// The radix of the representation: one more than the largest limb.
pub open spec fn limb_base() -> nat {
    0x1_0000_0000
}

/// `limb_base()` raised to the power `n`.
pub open spec fn base_pow(n: nat) -> nat
    decreases n,
{
    if n == 0 {
        1
    } else {
        limb_base() * base_pow((n - 1) as nat)
    }
}

/// The number that the limbs `s` stand for, least-significant limb first.
pub open spec fn limbs_value(s: Seq<u32>) -> nat
    decreases s.len(),
{
    if s.len() == 0 {
        0
    } else {
        limbs_value(s.drop_last()) + s.last() as nat * base_pow((s.len() - 1) as nat)
    }
}

/// Limb `i` of `s`, with every limb beyond the end read as zero.
pub open spec fn limb_at(s: Seq<u32>, i: int) -> u32 {
    if 0 <= i < s.len() {
        s[i]
    } else {
        0
    }
}

/// The first `n` limbs of `s`, padded with zero limbs where `s` is shorter.
pub open spec fn padded(s: Seq<u32>, n: nat) -> Seq<u32> {
    Seq::new(n, |i: int| limb_at(s, i))
}

/// A sequence is trimmed when it has at least one limb and, unless it is the
/// single limb of zero, its most-significant limb is not zero.
pub open spec fn is_trimmed(s: Seq<u32>) -> bool {
    s.len() >= 1 && (s.len() == 1 || s.last() != 0)
}

/// `s` without its most-significant zero limbs, but never shorter than one
/// limb.
pub open spec fn trim_seq(s: Seq<u32>) -> Seq<u32>
    decreases s.len(),
{
    if s.len() == 0 {
        seq![0u32]
    } else if s.last() == 0 {
        trim_seq(s.drop_last())
    } else {
        s
    }
}

/// Every power of the radix is at least one.
pub proof fn lemma_base_pow_positive(n: nat)
    ensures
        base_pow(n) >= 1,
    decreases n,
{
    if n > 0 {
        lemma_base_pow_positive((n - 1) as nat);
    }
}

/// A larger exponent does not give a smaller power.
pub proof fn lemma_base_pow_monotonic(m: nat, n: nat)
    requires
        m <= n,
    ensures
        base_pow(m) <= base_pow(n),
    decreases n,
{
    lemma_base_pow_positive(m);
    if m < n {
        lemma_base_pow_monotonic(m, (n - 1) as nat);
    }
}

/// Appending a limb adds that limb, scaled by its position, to the value.
pub proof fn lemma_value_push(s: Seq<u32>, x: u32)
    ensures
        limbs_value(s.push(x)) == limbs_value(s) + x as nat * base_pow(s.len()),
{
    assert(s.push(x).drop_last() =~= s);
}

/// A single limb stands for itself.
pub proof fn lemma_value_single(x: u32)
    ensures
        limbs_value(seq![x]) == x,
{
    lemma_value_push(Seq::empty(), x);
    assert(Seq::<u32>::empty().push(x) =~= seq![x]);
    assert(limbs_value(Seq::<u32>::empty()) == 0);
    assert(base_pow(0) == 1);
    assert(x as nat * 1 == x as nat);
}

/// Putting a limb in front multiplies the old value by the radix and adds
/// the new limb.
pub proof fn lemma_value_cons(x: u32, s: Seq<u32>)
    ensures
        limbs_value(seq![x] + s) == x as nat + limb_base() * limbs_value(s),
    decreases s.len(),
{
    if s.len() == 0 {
        assert(seq![x] + s =~= seq![x]);
        lemma_value_single(x);
    } else {
        let t = s.drop_last();
        assert((seq![x] + s).drop_last() =~= seq![x] + t);
        lemma_value_cons(x, t);
        let p = base_pow((s.len() - 1) as nat);
        let y = s.last() as nat;
        assert((seq![x] + s).last() == s.last());
        assert(base_pow(s.len()) == limb_base() * p);
        assert(y * (limb_base() * p) == limb_base() * (y * p)) by (nonlinear_arith);
        assert(limb_base() * (limbs_value(t) + y * p) == limb_base() * limbs_value(t) + limb_base()
            * (y * p)) by (nonlinear_arith);
    }
}

/// Zero limbs beyond the end do not change the value.
pub proof fn lemma_value_padded(s: Seq<u32>, n: nat)
    requires
        n >= s.len(),
    ensures
        limbs_value(padded(s, n)) == limbs_value(s),
    decreases n,
{
    if n == s.len() {
        assert(padded(s, n) =~= s);
    } else {
        lemma_value_padded(s, (n - 1) as nat);
        assert(padded(s, n) =~= padded(s, (n - 1) as nat).push(0));
        lemma_value_push(padded(s, (n - 1) as nat), 0);
    }
}

/// One more limb of a padded prefix.
pub proof fn lemma_padded_step(s: Seq<u32>, n: nat)
    ensures
        padded(s, n + 1) == padded(s, n).push(limb_at(s, n as int)),
        limbs_value(padded(s, n + 1)) == limbs_value(padded(s, n)) + limb_at(s, n as int) as nat
            * base_pow(n),
{
    assert(padded(s, n + 1) =~= padded(s, n).push(limb_at(s, n as int)));
    lemma_value_push(padded(s, n), limb_at(s, n as int));
}

/// A value of `n` limbs is below the `n`-th power of the radix.
pub proof fn lemma_value_bound(s: Seq<u32>)
    ensures
        limbs_value(s) < base_pow(s.len()),
    decreases s.len(),
{
    if s.len() > 0 {
        lemma_value_bound(s.drop_last());
        let p = base_pow((s.len() - 1) as nat);
        let x = s.last() as nat;
        assert(x * p <= 0xffff_ffff * p) by (nonlinear_arith)
            requires
                x <= 0xffff_ffff,
                p >= 0,
        ;
    }
}

/// Trimming keeps the value, yields a trimmed sequence, and never lengthens
/// a sequence that had a limb.
pub proof fn lemma_trim_seq(s: Seq<u32>)
    ensures
        is_trimmed(trim_seq(s)),
        limbs_value(trim_seq(s)) == limbs_value(s),
        trim_seq(s).len() <= s.len() || s.len() == 0,
        forall|i: int| 0 <= i < trim_seq(s).len() ==> trim_seq(s)[i] == limb_at(s, i),
        forall|i: int| trim_seq(s).len() <= i ==> limb_at(s, i) == 0,
    decreases s.len(),
{
    if s.len() == 0 {
        lemma_value_single(0);
    } else if s.last() == 0 {
        lemma_trim_seq(s.drop_last());
        assert(forall|i: int| limb_at(s.drop_last(), i) == limb_at(s, i));
    }
}

/// A trimmed sequence of two or more limbs reaches the power of the radix
/// that belongs to its last position.
pub proof fn lemma_trimmed_lower_bound(s: Seq<u32>)
    requires
        is_trimmed(s),
        s.len() >= 2,
    ensures
        limbs_value(s) >= base_pow((s.len() - 1) as nat),
{
    let p = base_pow((s.len() - 1) as nat);
    let x = s.last() as nat;
    assert(x * p >= p) by (nonlinear_arith)
        requires
            x >= 1,
            p >= 0,
    ;
}

/// Two sequences of one length with one value are the same sequence.
pub proof fn lemma_same_length_unique(a: Seq<u32>, b: Seq<u32>)
    requires
        a.len() == b.len(),
        limbs_value(a) == limbs_value(b),
    ensures
        a == b,
    decreases a.len(),
{
    if a.len() == 0 {
        assert(a =~= b);
    } else {
        let p = base_pow((a.len() - 1) as nat);
        let x = a.last() as nat;
        let y = b.last() as nat;
        let u = limbs_value(a.drop_last());
        let v = limbs_value(b.drop_last());
        lemma_value_bound(a.drop_last());
        lemma_value_bound(b.drop_last());
        assert(x == y) by (nonlinear_arith)
            requires
                x * p + u == y * p + v,
                u < p,
                v < p,
        ;
        lemma_same_length_unique(a.drop_last(), b.drop_last());
        assert(a =~= a.drop_last().push(a.last()));
        assert(b =~= b.drop_last().push(b.last()));
    }
}

/// The trimmed form of a number is unique: two trimmed sequences with one
/// value are the same sequence.
pub proof fn lemma_trimmed_unique(a: Seq<u32>, b: Seq<u32>)
    requires
        is_trimmed(a),
        is_trimmed(b),
        limbs_value(a) == limbs_value(b),
    ensures
        a == b,
{
    lemma_value_bound(a);
    lemma_value_bound(b);
    if a.len() < b.len() {
        lemma_trimmed_lower_bound(b);
        lemma_base_pow_monotonic(a.len(), (b.len() - 1) as nat);
    } else if b.len() < a.len() {
        lemma_trimmed_lower_bound(a);
        lemma_base_pow_monotonic(b.len(), (a.len() - 1) as nat);
    } else {
        lemma_same_length_unique(a, b);
    }
}

/// The canonical limbs of a number: its digits in the radix, least
/// significant first, with a single zero limb for zero.
pub open spec fn limbs_of(n: nat) -> Seq<u32>
    decreases n,
{
    if n < limb_base() {
        seq![n as u32]
    } else {
        seq![(n % limb_base()) as u32] + limbs_of(n / limb_base())
    }
}

/// The canonical limbs of `n` are trimmed and stand for `n`.
pub proof fn lemma_limbs_of(n: nat)
    ensures
        is_trimmed(limbs_of(n)),
        limbs_value(limbs_of(n)) == n,
    decreases n,
{
    if n < limb_base() {
        lemma_value_single(n as u32);
    } else {
        let rest = limbs_of(n / limb_base());
        lemma_limbs_of(n / limb_base());
        lemma_value_cons((n % limb_base()) as u32, rest);
        if rest.len() == 1 {
            lemma_value_single(rest[0]);
            assert(rest =~= seq![rest[0]]);
        }
    }
}

/// The canonical limbs of the value of `s` are `s` trimmed.
pub proof fn lemma_limbs_of_value(s: Seq<u32>)
    ensures
        limbs_of(limbs_value(s)) == trim_seq(s),
        is_trimmed(s) ==> limbs_of(limbs_value(s)) == s,
{
    lemma_trim_seq(s);
    lemma_limbs_of(limbs_value(s));
    lemma_trimmed_unique(limbs_of(limbs_value(s)), trim_seq(s));
    lemma_trim_fixed_point(s);
}

/// Trimming leaves a trimmed sequence as it is.
pub proof fn lemma_trim_fixed_point(s: Seq<u32>)
    ensures
        is_trimmed(s) ==> trim_seq(s) == s,
{
    if is_trimmed(s) && s.len() == 1 && s[0] == 0 {
        assert(s.drop_last() =~= Seq::<u32>::empty());
        assert(trim_seq(s.drop_last()) == seq![0u32]);
        assert(s =~= seq![0u32]);
    }
}

/// Trimming is idempotent, and what it returns always has a limb.
pub proof fn lemma_trim_idempotent(s: Seq<u32>)
    ensures
        trim_seq(trim_seq(s)) == trim_seq(s),
        trim_seq(s).len() >= 1,
{
    lemma_trim_seq(s);
    lemma_trim_fixed_point(trim_seq(s));
}

/// Removes the most-significant zero limbs of `v`, keeping at least one limb.
pub fn trim_vec(v: &mut Vec<u32>)
    ensures
        final(v)@ == trim_seq(old(v)@),
{
    while v.len() > 0 && v[v.len() - 1] == 0
        invariant
            trim_seq(v@) == trim_seq(old(v)@),
        decreases v.len(),
    {
        v.pop();
    }
    if v.len() == 0 {
        v.push(0);
    }
}

/// Limb `i` of `v`, or zero beyond its end.
pub fn limb_or_zero(v: &Vec<u32>, i: usize) -> (x: u32)
    ensures
        x == limb_at(v@, i as int),
{
    if i < v.len() {
        v[i]
    } else {
        0
    }
}

/// Whether two limb vectors hold the same limbs.
pub fn same_limbs(a: &Vec<u32>, b: &Vec<u32>) -> (same: bool)
    ensures
        same == (a@ == b@),
{
    if a.len() != b.len() {
        return false;
    }
    let mut i: usize = 0;
    while i < a.len()
        invariant
            i <= a.len(),
            a.len() == b.len(),
            forall|j: int| 0 <= j < i ==> a@[j] == b@[j],
        decreases a.len() - i,
    {
        if a[i] != b[i] {
            return false;
        }
        i = i + 1;
    }
    assert(a@ =~= b@);
    true
}

/// If two sequences of one length agree above position `i` and differ at
/// `i`, the one with the smaller limb there has the smaller value.
pub proof fn lemma_first_difference_decides(a: Seq<u32>, b: Seq<u32>, i: int)
    requires
        a.len() == b.len(),
        0 <= i < a.len(),
        a[i] < b[i],
        forall|j: int| i < j < a.len() ==> a[j] == b[j],
    ensures
        limbs_value(a) < limbs_value(b),
    decreases a.len(),
{
    let p = base_pow((a.len() - 1) as nat);
    if i == a.len() - 1 {
        lemma_value_bound(a.drop_last());
        let x = a.last() as nat;
        let y = b.last() as nat;
        assert(x * p + p <= y * p) by (nonlinear_arith)
            requires
                x + 1 <= y,
                p >= 0,
        ;
    } else {
        lemma_first_difference_decides(a.drop_last(), b.drop_last(), i);
    }
}

/// Whether the value of `a` is below the value of `b`.  The limbs are
/// compared from the most significant position down, a missing limb counting
/// as zero, so the answer does not depend on how either operand is trimmed.
pub fn value_less(a: &Vec<u32>, b: &Vec<u32>) -> (less: bool)
    ensures
        less == (limbs_value(a@) < limbs_value(b@)),
{
    let n = if a.len() > b.len() { a.len() } else { b.len() };
    let mut i: usize = n;
    proof {
        lemma_value_padded(a@, n as nat);
        lemma_value_padded(b@, n as nat);
    }
    while i > 0
        invariant
            i <= n,
            n >= a.len(),
            n >= b.len(),
            limbs_value(padded(a@, n as nat)) == limbs_value(a@),
            limbs_value(padded(b@, n as nat)) == limbs_value(b@),
            forall|j: int| i <= j < n ==> limb_at(a@, j) == limb_at(b@, j),
        decreases i,
    {
        i = i - 1;
        let x = limb_or_zero(a, i);
        let y = limb_or_zero(b, i);
        if x != y {
            proof {
                if x < y {
                    lemma_first_difference_decides(
                        padded(a@, n as nat),
                        padded(b@, n as nat),
                        i as int,
                    );
                } else {
                    lemma_first_difference_decides(
                        padded(b@, n as nat),
                        padded(a@, n as nat),
                        i as int,
                    );
                }
            }
            return x < y;
        }
    }
    proof {
        assert(padded(a@, n as nat) =~= padded(b@, n as nat));
    }
    false
}

} // verus!
