use mybigint::{MyBigInt, Sign};

fn number(text: &str) -> MyBigInt {
    let mut n = MyBigInt::new();
    n.set_hex(text);
    n
}

#[test]
fn test_add_positive() {
    let mut a = MyBigInt::new();
    a.set_hex("64");
    let mut b = MyBigInt::new();
    b.set_hex("C8");
    let mut expected = MyBigInt::new();
    expected.set_hex("12C");
    assert_eq!(a.add(&b), expected);
}

#[test]
fn test_add_negative() {
    let mut a = MyBigInt::new();
    a.set_hex("-64");
    let mut b = MyBigInt::new();
    b.set_hex("-C8");
    let mut expected = MyBigInt::new();
    expected.set_hex("-12C");
    assert_eq!(a.add(&b), expected);
}

#[test]
fn test_add_mixed_signs() {
    let mut a = MyBigInt::new();
    a.set_hex("64");
    let mut b = MyBigInt::new();
    b.set_hex("-C8");
    let mut expected = MyBigInt::new();
    expected.set_hex("-12C");
    assert_eq!(a.add(&b), expected);
}

#[test]
fn test_sub_positive() {
    let mut a = MyBigInt::new();
    a.set_hex("12C");
    let mut b = MyBigInt::new();
    b.set_hex("C8");
    let mut expected = MyBigInt::new();
    expected.set_hex("64");
    assert_eq!(a.sub(&b), expected);
}

#[test]
fn test_sub_negative() {
    let mut a = MyBigInt::new();
    a.set_hex("-12C");
    let mut b = MyBigInt::new();
    b.set_hex("-C8");
    let mut expected = MyBigInt::new();
    expected.set_hex("-64");
    assert_eq!(a.sub(&b), expected);
}

#[test]
fn test_sub_mixed_signs() {
    let mut a = MyBigInt::new();
    a.set_hex("64");
    let mut b = MyBigInt::new();
    b.set_hex("-C8");
    let mut expected = MyBigInt::new();
    expected.set_hex("12C");
    assert_eq!(a.sub(&b), expected);
}

#[test]
fn test_modulus_positive() {
    let mut a = MyBigInt::new();
    a.set_hex("7");
    let mut b = MyBigInt::new();
    b.set_hex("3");
    let mut expected = MyBigInt::new();
    expected.set_hex("1");
    assert_eq!(a.modulus(&b), expected);
}

#[test]
fn test_modulus_negative() {
    let mut a = MyBigInt::new();
    a.set_hex("-7");
    let mut b = MyBigInt::new();
    b.set_hex("3");
    let mut expected = MyBigInt::new();
    expected.set_hex("-1");
    assert_eq!(a.modulus(&b), expected);
}

#[test]
fn test_modulus_mixed_signs() {
    let mut a = MyBigInt::new();
    a.set_hex("-7");
    let mut b = MyBigInt::new();
    b.set_hex("-3");
    let mut expected = MyBigInt::new();
    expected.set_hex("1");
    assert_eq!(a.modulus(&b), expected);
}

#[test]
fn add_carries_across_limbs() {
    let a = number("ffffffffffffffff");
    let b = number("1");
    assert_eq!(a.add(&b).digits(), &vec![0, 0, 1]);
    assert_eq!(b.add(&a).digits(), &vec![0, 0, 1]);

    let c = number("ffffffff");
    assert_eq!(c.add(&c).digits(), &vec![0xfffffffe, 1]);
}

#[test]
fn add_of_different_lengths() {
    let a = number("123456789abcdef000000001");
    let b = number("ffffffff");
    assert_eq!(a.add(&b), number("123456789abcdef100000000"));
}

#[test]
fn add_with_zero() {
    let a = number("123456789");
    let zero = MyBigInt::new();
    assert_eq!(a.add(&zero), a);
    assert_eq!(zero.add(&a), a);
    assert_eq!(zero.add(&zero).digits(), &vec![0]);
}

#[test]
fn add_reads_untrimmed_operands_by_value() {
    let a = MyBigInt::from_digits(vec![5, 0, 0]);
    let b = MyBigInt::from_digits(vec![7]);
    assert_eq!(a.add(&b).digits(), &vec![12]);
}

#[test]
fn add_of_mixed_signs_adds_magnitudes_under_the_larger_operands_sign() {
    let sum = number("64").add(&number("-C8"));
    assert_eq!(sum.digits(), &vec![0x12C]);
    assert_eq!(sum.sign(), Sign::Negative);

    let sum = number("-64").add(&number("C8"));
    assert_eq!(sum.digits(), &vec![0x12C]);
    assert_eq!(sum.sign(), Sign::Positive);

    let sum = number("C8").add(&number("-64"));
    assert_eq!(sum.sign(), Sign::Positive);

    let sum = number("-C8").add(&number("64"));
    assert_eq!(sum.sign(), Sign::Negative);
}

#[test]
fn add_of_mixed_signs_and_equal_magnitudes_takes_the_second_sign() {
    let sum = number("5").add(&number("-5"));
    assert_eq!(sum.sign(), Sign::Negative);
    assert_eq!(sum.digits(), &vec![0xA]);

    let sum = number("-5").add(&number("5"));
    assert_eq!(sum.sign(), Sign::Positive);
}

#[test]
fn add_result_has_a_blank_companion() {
    let sum = number("64").add(&number("C8"));
    assert_eq!(sum.get_hex(), String::new());
    assert_eq!(sum.companion().data(), &Vec::<u64>::new());
}

#[test]
fn sub_borrows_across_limbs() {
    let a = number("10000000000000000");
    let b = number("1");
    assert_eq!(a.sub(&b).digits(), &vec![0xffffffff, 0xffffffff]);

    let c = number("100000000");
    let d = number("ffffffff");
    assert_eq!(c.sub(&d).digits(), &vec![1]);
}

#[test]
fn sub_of_equal_numbers_is_zero_with_the_sign_of_the_first() {
    let a = number("123456789abcdef");
    let zero = a.sub(&a);
    assert_eq!(zero.digits(), &vec![0]);
    assert_eq!(zero.sign(), Sign::Positive);

    let b = number("-42");
    let zero = b.sub(&b);
    assert_eq!(zero.digits(), &vec![0]);
    assert_eq!(zero.sign(), Sign::Negative);
}

#[test]
fn sub_of_mixed_signs_adds_magnitudes_under_the_first_sign() {
    let d = number("12C").sub(&number("-C8"));
    assert_eq!(d, number("1F4"));

    let d = number("-12C").sub(&number("C8"));
    assert_eq!(d, number("-1F4"));

    let d = number("-64").sub(&number("C8"));
    assert_eq!(d, number("-12C"));

    let d = number("1").sub(&number("-ffffffffffffffff"));
    assert_eq!(d.digits(), &vec![0, 0, 1]);
    assert_eq!(d.sign(), Sign::Positive);

    let d = number("5").sub(&number("-5"));
    assert_eq!(d, number("A"));
    let d = number("-5").sub(&number("5"));
    assert_eq!(d, number("-A"));
}

#[test]
fn sub_of_zero_with_the_other_sign_keeps_the_number() {
    let d = number("-42").sub(&number("0"));
    assert_eq!(d, number("-42"));
    let d = number("42").sub(&number("-0"));
    assert_eq!(d, number("42"));
}

#[test]
fn sub_of_equal_signs_takes_the_first_sign_when_it_is_larger() {
    let d = number("12C").sub(&number("C8"));
    assert_eq!(d.digits(), &vec![0x64]);
    assert_eq!(d.sign(), Sign::Positive);

    let d = number("-12C").sub(&number("-C8"));
    assert_eq!(d.digits(), &vec![0x64]);
    assert_eq!(d.sign(), Sign::Negative);
}

#[test]
fn sub_of_a_larger_magnitude_of_the_same_sign_wraps_and_flips_the_sign() {
    let d = number("64").sub(&number("C8"));
    assert_eq!(d.digits(), &vec![0xffffff9c]);
    assert_eq!(d.sign(), Sign::Negative);

    let d = number("-64").sub(&number("-C8"));
    assert_eq!(d.digits(), &vec![0xffffff9c]);
    assert_eq!(d.sign(), Sign::Positive);

    let d = number("1").sub(&number("100000000"));
    assert_eq!(d.digits(), &vec![1, 0xffffffff]);
    assert_eq!(d.sign(), Sign::Negative);
}

#[test]
fn sub_wraps_around_the_longer_length_as_given() {
    let a = MyBigInt::from_digits(vec![1, 0, 0]);
    let b = MyBigInt::from_digits(vec![2]);
    assert_eq!(a.sub(&b).digits(), &vec![0xffffffff, 0xffffffff, 0xffffffff]);
}

#[test]
fn mul_small_numbers() {
    assert_eq!(number("7").mul(&number("3")), number("15"));
    assert_eq!(number("ffffffff").mul(&number("ffffffff")), number("fffffffe00000001"));
}

#[test]
fn mul_long_numbers() {
    let a = number("123456789abcdef0123456789abcdef");
    let b = number("fedcba9876543210");
    assert_eq!(a.mul(&b), number("121fa00ad77d7422358d29092d964322236d88fe5618cf0"));
    assert_eq!(b.mul(&a), a.mul(&b));
}

#[test]
fn mul_by_zero_and_one() {
    let a = number("-123456789abcdef01");
    let zero = MyBigInt::new();
    let product = a.mul(&zero);
    assert_eq!(product.digits(), &vec![0]);
    assert_eq!(product.sign(), Sign::Negative);
    assert_eq!(zero.mul(&zero).sign(), Sign::Positive);
    assert_eq!(a.mul(&number("-1")).digits(), a.digits());
}

#[test]
fn mul_sign_is_positive_when_signs_agree() {
    assert_eq!(number("-7").mul(&number("-3")), number("15"));
    assert_eq!(number("-7").mul(&number("3")), number("-15"));
    assert_eq!(number("7").mul(&number("-3")), number("-15"));
}

#[test]
fn modulus_of_long_numbers() {
    let a = number("121fa00ad77d7422358d29092d964322236d88fe5618cf0");
    let b = number("fedcba9876543210");
    assert_eq!(a.modulus(&b).digits(), &vec![0]);

    let c = number("121fa00ad77d7422358d29092d964322236d88fe5618cf7");
    assert_eq!(c.modulus(&b), number("7"));

    let d = number("123456789abcdef0123456789abcdef");
    let e = number("100000000");
    assert_eq!(d.modulus(&e), number("89abcdef"));
    let f = number("ffffffffffffffffffffffff");
    let g = number("10000000000000001");
    assert_eq!(f.modulus(&g), number("ffffffff00000000"));
}

#[test]
fn modulus_of_a_smaller_number_by_a_larger() {
    assert_eq!(number("3").modulus(&number("7")), number("3"));
    assert_eq!(number("0").modulus(&number("7")).digits(), &vec![0]);
    assert_eq!(number("ffffffff").modulus(&number("100000000")), number("ffffffff"));
}

#[test]
fn modulus_by_one_and_by_itself() {
    let a = number("123456789abcdef0123");
    assert_eq!(a.modulus(&number("1")).digits(), &vec![0]);
    assert_eq!(a.modulus(&a).digits(), &vec![0]);
}

#[test]
fn modulus_by_the_largest_limb() {
    let a = number("ffffffffffffffff");
    let b = number("ffffffff");
    assert_eq!(a.modulus(&b).digits(), &vec![0]);
    let c = number("fffffffffffffffe");
    assert_eq!(c.modulus(&b), number("fffffffe"));
}

#[test]
fn modulus_sign_is_negative_exactly_when_signs_differ() {
    let r = number("-7").modulus(&number("3"));
    assert_eq!(r.digits(), &vec![1]);
    assert_eq!(r.sign(), Sign::Negative);

    let r = number("7").modulus(&number("-3"));
    assert_eq!(r.digits(), &vec![1]);
    assert_eq!(r.sign(), Sign::Negative);

    let r = number("-7").modulus(&number("-3"));
    assert_eq!(r.digits(), &vec![1]);
    assert_eq!(r.sign(), Sign::Positive);

    let r = number("-6").modulus(&number("3"));
    assert_eq!(r.digits(), &vec![0]);
    assert_eq!(r.sign(), Sign::Negative);
}

#[test]
fn modulus_reads_untrimmed_operands_by_value() {
    let a = MyBigInt::from_digits(vec![7, 0, 0]);
    let b = MyBigInt::from_digits(vec![3, 0]);
    assert_eq!(a.modulus(&b).digits(), &vec![1]);
}

#[test]
fn quotient_and_remainder_rebuild_the_dividend() {
    let a = number("123456789abcdef0123456789abcdef");
    let b = number("fedcba987");
    let r = a.modulus(&b);
    assert_eq!(r.sign(), Sign::Positive);
    let q_times_b = a.sub(&r);
    assert_eq!(q_times_b.modulus(&b).digits(), &vec![0]);
    assert!(!b.sub(&r).is_zero());
    assert_eq!(b.sub(&r).sign(), Sign::Positive);
}
