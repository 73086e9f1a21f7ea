//! The signed integer: a sign, a magnitude in 32-bit limbs, and the
//! hexadecimal companion.

use crate::arith::{add_limbs, div_rem_limbs, mul_limbs, sub_limbs, wrapped_difference};
use crate::bignumber::{blank_form, hex_form, BigNumber, HexForm};
use crate::bitwise::{
    and_limbs, and_seq, complement_limbs, complement_seq, lemma_shift_beyond_width,
    lemma_shift_by_zero, or_limbs, or_seq, shift_l_limbs, shift_l_seq, shift_r_limbs,
    shift_r_seq, xor_limbs, xor_seq,
};
use crate::hex::{has_minus, hex_digits, hex_limbs, hex_value, is_signed_hex, sign_length, text_chars};
use crate::limbs::{
    is_trimmed, lemma_limbs_of, lemma_trim_seq, limbs_of, limbs_value, same_limbs, trim_seq,
    trim_vec, value_less, LIMB_BITS,
};
use vstd::prelude::*;
use vstd::std_specs::cmp::PartialEqSpecImpl;

verus! {

/// The sign of a number.  Zero carries a sign like any other magnitude.
#[derive(Clone, Copy, Debug, PartialEq, Eq, Structural)]
pub enum Sign {
    Positive,
    Negative,
}

impl Sign {
    /// The other sign.
    pub open spec fn flipped(self) -> Sign {
        match self {
            Sign::Positive => Sign::Negative,
            Sign::Negative => Sign::Positive,
        }
    }

    /// The other sign.
    pub fn swap(self) -> (other: Sign)
        ensures
            other == self.flipped(),
    {
        match self {
            Sign::Positive => Sign::Negative,
            Sign::Negative => Sign::Positive,
        }
    }
}

/// What a [`MyBigInt`] holds: its sign, its limbs with the least significant
/// first, and its hexadecimal companion.
pub struct BigIntView {
    pub sign: Sign,
    pub limbs: Seq<u32>,
    pub hex: HexForm,
}

impl BigIntView {
    /// The magnitude: the value of the limbs.
    pub open spec fn magnitude(self) -> nat {
        limbs_value(self.limbs)
    }
}

/// A number of the given sign and limbs with a blank companion: the shape of
/// everything that an operation returns.
pub open spec fn bare(sign: Sign, limbs: Seq<u32>) -> BigIntView {
    BigIntView { sign, limbs, hex: blank_form() }
}

/// What loading the text `s` leaves: a minus sign in front makes the number
/// negative, the limbs are the canonical limbs of the number that the digits
/// denote, and the companion keeps the text.
pub open spec fn parsed(s: Seq<char>) -> BigIntView {
    BigIntView {
        sign: if has_minus(s) {
            Sign::Negative
        } else {
            Sign::Positive
        },
        limbs: limbs_of(hex_value(hex_digits(s))),
        hex: hex_form(s),
    }
}

/// Loading a text keeps it: what is read back after loading `s` is `s`.
pub proof fn lemma_parsed_keeps_text(s: Seq<char>)
    ensures
        parsed(s).hex.text == s,
{
}

/// The sign of a sum: the common sign where the operands agree, else the
/// sign of the operand with the larger magnitude, and that of `b` where the
/// magnitudes are equal.
pub open spec fn sum_sign(a: BigIntView, b: BigIntView) -> Sign {
    if a.sign == b.sign {
        a.sign
    } else if a.magnitude() > b.magnitude() {
        a.sign
    } else {
        b.sign
    }
}

/// The sign of a difference.  Where the operands differ in sign it is that
/// of `a`.  Where they agree it is that of `a` if the magnitude of `a` is at
/// least that of `b`, else the other one.
pub open spec fn difference_sign(a: BigIntView, b: BigIntView) -> Sign {
    if a.sign != b.sign || a.magnitude() >= b.magnitude() {
        a.sign
    } else {
        a.sign.flipped()
    }
}

/// The limbs of a difference.  Where the operands differ in sign, taking
/// `b` away moves `a` further from zero: the magnitudes are added.  Where
/// they agree, the magnitude of `b` is taken from that of `a` by borrow
/// propagation, which wraps around where `a` is the smaller.
pub open spec fn difference_limbs(a: BigIntView, b: BigIntView) -> Seq<u32> {
    if a.sign != b.sign {
        limbs_of(a.magnitude() + b.magnitude())
    } else {
        limbs_of(wrapped_difference(a.limbs, b.limbs))
    }
}

/// The sign of a product or of a remainder: positive where the operands
/// agree in sign, else negative.
pub open spec fn combined_sign(a: Sign, b: Sign) -> Sign {
    if a == b {
        Sign::Positive
    } else {
        Sign::Negative
    }
}

/// An arbitrary-precision signed integer in sign-magnitude form.
#[derive(Debug)]
pub struct MyBigInt {
    sign: Sign,
    digits: Vec<u32>,
    other: BigNumber,
}

impl View for MyBigInt {
    type V = BigIntView;

    closed spec fn view(&self) -> BigIntView {
        BigIntView { sign: self.sign, limbs: self.digits@, hex: self.other@ }
    }
}

impl Clone for MyBigInt {
    fn clone(&self) -> (copy: Self)
        ensures
            copy@ == self@,
    {
        proof {
            use_type_invariant(self);
        }
        MyBigInt { sign: self.sign, digits: self.digits.clone(), other: self.other.clone() }
    }
}

impl Default for MyBigInt {
    /// Positive zero with a blank companion.
    fn default() -> (zero: Self)
        ensures
            zero@ == bare(Sign::Positive, seq![0u32]),
    {
        MyBigInt::new()
    }
}

/// Two numbers are equal when they agree in sign and in every limb.  The
/// companion is no part of the number and is not compared.
impl PartialEq for MyBigInt {
    fn eq(&self, other: &MyBigInt) -> (equal: bool) {
        self.sign == other.sign && same_limbs(&self.digits, &other.digits)
    }
}

impl PartialEqSpecImpl for MyBigInt {
    open spec fn obeys_eq_spec() -> bool {
        true
    }

    open spec fn eq_spec(&self, other: &MyBigInt) -> bool {
        self@.sign == other@.sign && self@.limbs == other@.limbs
    }
}

impl MyBigInt {
    /// A number always has a limb.
    #[verifier::type_invariant]
    spec fn has_limb(self) -> bool {
        self.digits@.len() >= 1
    }

    /// Positive zero with a blank companion.
    pub fn new() -> (zero: MyBigInt)
        ensures
            zero@ == bare(Sign::Positive, seq![0u32]),
    {
        let mut digits: Vec<u32> = Vec::new();
        digits.push(0);
        assert(digits@ =~= seq![0u32]);
        MyBigInt { sign: Sign::Positive, digits, other: BigNumber::blank() }
    }

    /// A positive number with the given limbs, least significant first, kept
    /// as they are; no limbs at all stand for zero and become one zero limb.
    pub fn from_digits(digits: Vec<u32>) -> (number: MyBigInt)
        ensures
            number@ == bare(
                Sign::Positive,
                if digits@.len() == 0 {
                    seq![0u32]
                } else {
                    digits@
                },
            ),
    {
        let mut digits = digits;
        if digits.len() == 0 {
            digits.push(0);
            assert(digits@ =~= seq![0u32]);
        }
        MyBigInt { sign: Sign::Positive, digits, other: BigNumber::blank() }
    }

    /// The limbs, least significant first.
    pub fn digits(&self) -> (limbs: &Vec<u32>)
        ensures
            limbs@ == self@.limbs,
            limbs@.len() >= 1,
    {
        proof {
            use_type_invariant(self);
        }
        &self.digits
    }

    /// The sign.
    pub fn sign(&self) -> (sign: Sign)
        ensures
            sign == self@.sign,
    {
        self.sign
    }

    /// The hexadecimal companion.
    pub fn companion(&self) -> (companion: &BigNumber)
        ensures
            companion@ == self@.hex,
    {
        &self.other
    }

    /// Whether the magnitude is zero.
    pub fn is_zero(&self) -> (zero: bool)
        ensures
            zero == (self@.magnitude() == 0),
    {
        let nothing: Vec<u32> = Vec::new();
        assert(limbs_value(nothing@) == 0);
        !value_less(&nothing, &self.digits)
    }

    /// Loads the number that `hex` denotes and keeps the text.  The text must
    /// be hexadecimal digits, with or without a minus sign in front;
    /// [`is_valid_hex`](crate::hex::is_valid_hex) tells whether it is.
    pub fn set_hex(&mut self, hex: &str)
        requires
            is_signed_hex(hex@),
        ensures
            final(self)@ == parsed(hex@),
            final(self)@.magnitude() == hex_value(hex_digits(hex@)),
            is_trimmed(final(self)@.limbs),
    {
        let chars = text_chars(hex);
        let start = sign_length(&chars);
        let digits = hex_limbs(&chars, start);
        let mut other = BigNumber::blank();
        other.set_hex(hex);
        proof {
            lemma_limbs_of(hex_value(hex_digits(hex@)));
        }
        let sign = if start == 1 {
            Sign::Negative
        } else {
            Sign::Positive
        };
        *self = MyBigInt { sign, digits, other };
    }

    /// The text that was loaded last, as it was given.
    pub fn get_hex(&self) -> (text: String)
        ensures
            text@ == self@.hex.text,
    {
        self.other.get_hex()
    }

    /// Removes the most significant zero limbs, keeping at least one limb.
    pub fn trim(&mut self)
        ensures
            final(self)@ == (BigIntView { limbs: trim_seq(old(self)@.limbs), ..old(self)@ }),
            final(self)@.magnitude() == old(self)@.magnitude(),
            is_trimmed(final(self)@.limbs),
    {
        let mut digits: Vec<u32> = Vec::new();
        digits.push(0);
        std::mem::swap(&mut digits, &mut self.digits);
        proof {
            lemma_trim_seq(digits@);
        }
        trim_vec(&mut digits);
        self.digits = digits;
    }

    /// Complements every limb in place.  Nothing is trimmed afterwards and
    /// the sign stays.
    pub fn inv(&mut self)
        ensures
            final(self)@ == (BigIntView { limbs: complement_seq(old(self)@.limbs), ..old(self)@ }),
    {
        proof {
            use_type_invariant(&*self);
        }
        let digits = complement_limbs(&self.digits);
        self.digits = digits;
    }

    /// Limb-wise exclusive or, trimmed; the result is positive.
    pub fn xor(&self, other: &MyBigInt) -> (result: MyBigInt)
        ensures
            result@ == bare(Sign::Positive, trim_seq(xor_seq(self@.limbs, other@.limbs))),
            is_trimmed(result@.limbs),
    {
        let digits = xor_limbs(&self.digits, &other.digits);
        proof {
            lemma_trim_seq(xor_seq(self@.limbs, other@.limbs));
        }
        MyBigInt { sign: Sign::Positive, digits, other: BigNumber::blank() }
    }

    /// Limb-wise or, trimmed; the result is positive.
    pub fn or(&self, other: &MyBigInt) -> (result: MyBigInt)
        ensures
            result@ == bare(Sign::Positive, trim_seq(or_seq(self@.limbs, other@.limbs))),
            is_trimmed(result@.limbs),
    {
        let digits = or_limbs(&self.digits, &other.digits);
        proof {
            lemma_trim_seq(or_seq(self@.limbs, other@.limbs));
        }
        MyBigInt { sign: Sign::Positive, digits, other: BigNumber::blank() }
    }

    /// Limb-wise and, trimmed; the result is positive.
    pub fn and(&self, other: &MyBigInt) -> (result: MyBigInt)
        ensures
            result@ == bare(Sign::Positive, trim_seq(and_seq(self@.limbs, other@.limbs))),
            is_trimmed(result@.limbs),
    {
        let digits = and_limbs(&self.digits, &other.digits);
        proof {
            lemma_trim_seq(and_seq(self@.limbs, other@.limbs));
        }
        MyBigInt { sign: Sign::Positive, digits, other: BigNumber::blank() }
    }

    /// The per-limb right shift by `n` bits, trimmed; the result is positive.
    /// Every `n` is taken: a shift by no bits returns the limbs as they are,
    /// trimmed, and a shift by more than the limb width returns zero.
    pub fn shift_r(&self, n: u32) -> (result: MyBigInt)
        ensures
            result@ == bare(Sign::Positive, trim_seq(shift_r_seq(self@.limbs, n))),
            is_trimmed(result@.limbs),
            n == 0 ==> result@.limbs == trim_seq(self@.limbs),
            n > LIMB_BITS ==> result@.limbs == seq![0u32],
    {
        let digits = shift_r_limbs(&self.digits, n);
        proof {
            lemma_trim_seq(shift_r_seq(self@.limbs, n));
            lemma_shift_by_zero(self@.limbs);
            if n > LIMB_BITS {
                lemma_shift_beyond_width(self@.limbs, n);
            }
        }
        MyBigInt { sign: Sign::Positive, digits, other: BigNumber::blank() }
    }

    /// The per-limb left shift by `n` bits, trimmed; the result is positive.
    /// Every `n` is taken: a shift by no bits returns the limbs as they are,
    /// trimmed, and a shift by more than the limb width returns zero.
    pub fn shift_l(&self, n: u32) -> (result: MyBigInt)
        ensures
            result@ == bare(Sign::Positive, trim_seq(shift_l_seq(self@.limbs, n))),
            is_trimmed(result@.limbs),
            n == 0 ==> result@.limbs == trim_seq(self@.limbs),
            n > LIMB_BITS ==> result@.limbs == seq![0u32],
    {
        let digits = shift_l_limbs(&self.digits, n);
        proof {
            lemma_trim_seq(shift_l_seq(self@.limbs, n));
            lemma_shift_by_zero(self@.limbs);
            if n > LIMB_BITS {
                lemma_shift_beyond_width(self@.limbs, n);
            }
        }
        MyBigInt { sign: Sign::Positive, digits, other: BigNumber::blank() }
    }

    /// The magnitudes added, under the sign that [`sum_sign`] gives.
    pub fn add(&self, other: &MyBigInt) -> (sum: MyBigInt)
        ensures
            sum@ == bare(
                sum_sign(self@, other@),
                limbs_of(self@.magnitude() + other@.magnitude()),
            ),
            sum@.magnitude() == self@.magnitude() + other@.magnitude(),
            is_trimmed(sum@.limbs),
    {
        let digits = add_limbs(&self.digits, &other.digits);
        proof {
            lemma_limbs_of(self@.magnitude() + other@.magnitude());
        }
        let sign = if self.sign == other.sign {
            self.sign
        } else if value_less(&other.digits, &self.digits) {
            self.sign
        } else {
            other.sign
        };
        MyBigInt { sign, digits, other: BigNumber::blank() }
    }

    /// Signed subtraction in sign and magnitude.  Where the signs differ the
    /// magnitudes are added under the sign of `self`.  Where they agree the
    /// magnitude of `other` is taken from that of `self` by borrow
    /// propagation, under the sign of `self` if its magnitude is at least
    /// that of `other` and under the other sign if not; in that last case
    /// the limbs wrap around.
    pub fn sub(&self, other: &MyBigInt) -> (difference: MyBigInt)
        ensures
            difference@ == bare(difference_sign(self@, other@), difference_limbs(self@, other@)),
            self@.sign != other@.sign ==> difference@.magnitude() == self@.magnitude()
                + other@.magnitude(),
            self@.sign == other@.sign && self@.magnitude() >= other@.magnitude()
                ==> difference@.limbs == limbs_of(
                (self@.magnitude() - other@.magnitude()) as nat,
            ) && difference@.magnitude() == self@.magnitude() - other@.magnitude(),
            is_trimmed(difference@.limbs),
    {
        if self.sign != other.sign {
            let digits = add_limbs(&self.digits, &other.digits);
            proof {
                lemma_limbs_of(self@.magnitude() + other@.magnitude());
            }
            return MyBigInt { sign: self.sign, digits, other: BigNumber::blank() };
        }
        let digits = sub_limbs(&self.digits, &other.digits);
        proof {
            lemma_limbs_of(wrapped_difference(self@.limbs, other@.limbs));
            if self@.magnitude() >= other@.magnitude() {
                lemma_limbs_of((self@.magnitude() - other@.magnitude()) as nat);
            }
        }
        let sign = if value_less(&self.digits, &other.digits) {
            self.sign.swap()
        } else {
            self.sign
        };
        MyBigInt { sign, digits, other: BigNumber::blank() }
    }

    /// The product of the magnitudes, positive where the signs agree and
    /// negative where they do not.
    pub fn mul(&self, other: &MyBigInt) -> (product: MyBigInt)
        ensures
            product@ == bare(
                combined_sign(self@.sign, other@.sign),
                limbs_of(self@.magnitude() * other@.magnitude()),
            ),
            product@.magnitude() == self@.magnitude() * other@.magnitude(),
            is_trimmed(product@.limbs),
    {
        let digits = mul_limbs(&self.digits, &other.digits);
        proof {
            lemma_limbs_of(self@.magnitude() * other@.magnitude());
        }
        let sign = if self.sign == other.sign {
            Sign::Positive
        } else {
            Sign::Negative
        };
        MyBigInt { sign, digits, other: BigNumber::blank() }
    }

    /// The remainder of the magnitude of `self` by that of `other`, positive
    /// where the signs agree and negative where they do not.  The divisor
    /// must not be zero.
    pub fn modulus(&self, other: &MyBigInt) -> (remainder: MyBigInt)
        requires
            other@.magnitude() > 0,
        ensures
            remainder@ == bare(
                combined_sign(self@.sign, other@.sign),
                limbs_of(self@.magnitude() % other@.magnitude()),
            ),
            remainder@.magnitude() == self@.magnitude() % other@.magnitude(),
            is_trimmed(remainder@.limbs),
    {
        let (_, digits) = div_rem_limbs(&self.digits, &other.digits);
        proof {
            lemma_limbs_of(self@.magnitude() % other@.magnitude());
        }
        let sign = if self.sign == other.sign {
            Sign::Positive
        } else {
            Sign::Negative
        };
        MyBigInt { sign, digits, other: BigNumber::blank() }
    }
}

} // verus!
