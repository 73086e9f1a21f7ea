use mybigint::arith::{add_limbs, div_rem_limbs, mul_limbs, quotient_limb, scale_limbs, sub_limbs};
use mybigint::bitwise::{
    and_limbs, complement_limbs, move_down, move_up, or_limbs, shift_l_limbs, shift_r_limbs,
    xor_limbs,
};
use mybigint::hex::{
    all_hex_from, digit_value, hex_chunks_of, hex_digit, hex_limbs, parse_group, sign_length,
    text_chars,
};
use mybigint::limbs::{limb_or_zero, same_limbs, trim_vec, value_less};
use mybigint::{Sign, LIMB_BITS};

#[test]
fn limb_width_is_thirty_two_bits() {
    assert_eq!(LIMB_BITS, 32);
    assert_eq!(LIMB_BITS, u32::BITS);
}

#[test]
fn trim_vec_on_plain_vectors() {
    let mut v = vec![1, 0, 2, 0, 0];
    trim_vec(&mut v);
    assert_eq!(v, vec![1, 0, 2]);

    let mut zeros = vec![0, 0];
    trim_vec(&mut zeros);
    assert_eq!(zeros, vec![0]);

    let mut none: Vec<u32> = Vec::new();
    trim_vec(&mut none);
    assert_eq!(none, vec![0]);

    let mut one = vec![0];
    trim_vec(&mut one);
    assert_eq!(one, vec![0]);
}

#[test]
fn limb_or_zero_beyond_the_end() {
    let v = vec![7, 8];
    assert_eq!(limb_or_zero(&v, 0), 7);
    assert_eq!(limb_or_zero(&v, 1), 8);
    assert_eq!(limb_or_zero(&v, 2), 0);
    assert_eq!(limb_or_zero(&v, usize::MAX), 0);
}

#[test]
fn value_less_compares_values_not_lengths() {
    assert!(value_less(&vec![5], &vec![6]));
    assert!(!value_less(&vec![6], &vec![5]));
    assert!(!value_less(&vec![5], &vec![5]));
    assert!(value_less(&vec![0xffffffff], &vec![0, 1]));
    assert!(!value_less(&vec![0, 1], &vec![0xffffffff]));
    assert!(value_less(&vec![9, 1], &vec![0, 2]));
    assert!(value_less(&vec![1, 2, 3], &vec![2, 2, 3]));
    assert!(!value_less(&vec![2, 2, 3], &vec![1, 2, 3]));
    assert!(!value_less(&vec![5, 0, 0], &vec![5]));
    assert!(!value_less(&vec![5], &vec![5, 0, 0]));
    assert!(value_less(&vec![5, 0, 0], &vec![6]));
    assert!(!value_less(&Vec::new(), &vec![0]));
    assert!(value_less(&Vec::new(), &vec![0, 1]));
}

#[test]
fn same_limbs_compares_limb_by_limb() {
    assert!(same_limbs(&vec![1, 2], &vec![1, 2]));
    assert!(!same_limbs(&vec![1, 2], &vec![1, 3]));
    assert!(!same_limbs(&vec![1, 2], &vec![1, 2, 0]));
    assert!(same_limbs(&Vec::new(), &Vec::new()));
}

#[test]
fn add_limbs_exact_values() {
    assert_eq!(add_limbs(&vec![0xffffffff, 0xffffffff], &vec![1]), vec![0, 0, 1]);
    assert_eq!(add_limbs(&Vec::new(), &Vec::new()), vec![0]);
    assert_eq!(add_limbs(&vec![0, 0], &vec![0]), vec![0]);
    assert_eq!(add_limbs(&vec![0x80000000], &vec![0x80000000, 0xffffffff]), vec![0, 0, 1]);
}

#[test]
fn sub_limbs_exact_values() {
    assert_eq!(sub_limbs(&vec![0, 0, 1], &vec![1]), vec![0xffffffff, 0xffffffff]);
    assert_eq!(sub_limbs(&vec![5], &vec![5]), vec![0]);
    assert_eq!(sub_limbs(&vec![0], &vec![1]), vec![0xffffffff]);
    assert_eq!(sub_limbs(&Vec::new(), &Vec::new()), vec![0]);
}

#[test]
fn scale_limbs_exact_values() {
    assert_eq!(
        scale_limbs(&vec![0x76543210, 0xfedcba98], 0xffffffff),
        vec![0x89abcdf0, 0x77777777, 0xfedcba97]
    );
    assert_eq!(scale_limbs(&vec![1, 2, 3], 0), vec![0]);
    assert_eq!(scale_limbs(&vec![1, 2, 3], 1), vec![1, 2, 3]);
    assert_eq!(scale_limbs(&Vec::new(), 9), vec![0]);
}

#[test]
fn mul_limbs_exact_values() {
    assert_eq!(
        mul_limbs(&vec![0xffffffff], &vec![0x76543210, 0xfedcba98]),
        vec![0x89abcdf0, 0x77777777, 0xfedcba97]
    );
    assert_eq!(mul_limbs(&vec![0, 1], &vec![0, 1]), vec![0, 0, 1]);
    assert_eq!(mul_limbs(&Vec::new(), &vec![5]), vec![0]);
    assert_eq!(mul_limbs(&vec![3, 0, 0], &vec![5, 0]), vec![15]);
}

#[test]
fn quotient_limb_is_the_largest_that_fits() {
    assert_eq!(quotient_limb(&vec![5, 7], &vec![9]), 0xc71c71c7);
    assert_eq!(quotient_limb(&vec![0x11111111, 0x9abcdef0, 0x12345678], &vec![1, 0x12345679]), 0xfffffffa);
    assert_eq!(quotient_limb(&vec![0], &vec![3]), 0);
    assert_eq!(quotient_limb(&vec![2], &vec![3]), 0);
    assert_eq!(quotient_limb(&vec![3], &vec![3]), 1);
    assert_eq!(quotient_limb(&vec![0xffffffff], &vec![1]), 0xffffffff);
    assert_eq!(quotient_limb(&vec![0xfffffffe], &vec![1]), 0xfffffffe);
}

#[test]
fn div_rem_limbs_gives_quotient_and_remainder() {
    let a = vec![0x89abcdef, 0x1234567, 0x89abcdef, 0x1234567];
    let b = vec![0xedcba987, 0xf];
    let (q, r) = div_rem_limbs(&a, &b);
    assert_eq!(q, vec![0xe9a1f870, 0x924998d0, 0x124924]);
    assert_eq!(r, vec![0xb76fdadf]);

    let (q, r) = div_rem_limbs(&vec![0xffffffff; 4], &vec![1, 1]);
    assert_eq!(q, vec![0xffffffff, 0x0, 0xffffffff]);
    assert_eq!(r, vec![0]);

    let (q, r) = div_rem_limbs(&vec![7], &vec![3]);
    assert_eq!(q, vec![2]);
    assert_eq!(r, vec![1]);

    let (q, r) = div_rem_limbs(&vec![3], &vec![7, 1]);
    assert_eq!(q, vec![0]);
    assert_eq!(r, vec![3]);

    let (q, r) = div_rem_limbs(&Vec::new(), &vec![7]);
    assert_eq!(q, vec![0]);
    assert_eq!(r, vec![0]);
}

#[test]
fn logic_on_plain_vectors() {
    assert_eq!(complement_limbs(&vec![0, 0xffffffff, 0xf0f0f0f0]), vec![0xffffffff, 0, 0x0f0f0f0f]);
    assert_eq!(complement_limbs(&Vec::new()), Vec::<u32>::new());
    assert_eq!(xor_limbs(&vec![0b1010], &vec![0b1100, 1]), vec![0b0110, 1]);
    assert_eq!(or_limbs(&vec![0b1010], &vec![0b1100, 1]), vec![0b1110, 1]);
    assert_eq!(and_limbs(&vec![0b1010], &vec![0b1100, 1]), vec![0b1000]);
    assert_eq!(xor_limbs(&Vec::new(), &Vec::new()), vec![0]);
}

#[test]
fn shifts_on_plain_vectors() {
    assert_eq!(shift_r_limbs(&vec![0x12345678, 0x9abcdef0], 8), vec![0x00123456, 0x789abcde, 0xf0000000]);
    assert_eq!(shift_r_limbs(&Vec::new(), 8), vec![0]);
    assert_eq!(shift_l_limbs(&vec![0x80000001, 0x3], 4), vec![0x8, 0x10, 0x30]);
    assert_eq!(shift_l_limbs(&Vec::new(), 8), vec![0]);
}

#[test]
fn shifts_on_plain_vectors_take_every_distance() {
    assert_eq!(shift_r_limbs(&vec![5, 0, 6, 0], 0), vec![5, 0, 6]);
    assert_eq!(shift_l_limbs(&vec![5, 0, 6, 0], 0), vec![5, 0, 6]);
    assert_eq!(shift_r_limbs(&vec![5, 6], 32), vec![0, 5, 6]);
    assert_eq!(shift_l_limbs(&vec![5, 6], 32), vec![5, 6]);
    assert_eq!(shift_l_limbs(&vec![0, 6], 32), vec![6]);
    assert_eq!(shift_r_limbs(&vec![5, 6], 33), vec![0]);
    assert_eq!(shift_l_limbs(&vec![5, 6], 33), vec![0]);
    assert_eq!(shift_r_limbs(&Vec::new(), 0), vec![0]);
    assert_eq!(shift_l_limbs(&Vec::new(), u32::MAX), vec![0]);
}

#[test]
fn limbs_moved_by_the_width_or_more_are_zero() {
    assert_eq!(move_up(0x80000001, 0), 0x80000001);
    assert_eq!(move_up(0x80000001, 4), 0x00000010);
    assert_eq!(move_up(0x80000001, 31), 0x80000000);
    assert_eq!(move_up(0x80000001, 32), 0);
    assert_eq!(move_up(0x80000001, u32::MAX), 0);
    assert_eq!(move_down(0x80000001, 0), 0x80000001);
    assert_eq!(move_down(0x80000001, 4), 0x08000000);
    assert_eq!(move_down(0x80000001, 31), 1);
    assert_eq!(move_down(0x80000001, 32), 0);
    assert_eq!(move_down(0x80000001, u32::MAX), 0);
}

#[test]
fn digit_value_of_every_hex_digit() {
    let digits = "0123456789abcdef";
    for (value, c) in digits.chars().enumerate() {
        assert_eq!(digit_value(c) as usize, value);
        assert_eq!(digit_value(c.to_ascii_uppercase()) as usize, value);
    }
}

#[test]
fn hex_digit_values() {
    assert_eq!(hex_digit('0'), Some(0));
    assert_eq!(hex_digit('9'), Some(9));
    assert_eq!(hex_digit('a'), Some(10));
    assert_eq!(hex_digit('f'), Some(15));
    assert_eq!(hex_digit('A'), Some(10));
    assert_eq!(hex_digit('F'), Some(15));
    assert_eq!(hex_digit('g'), None);
    assert_eq!(hex_digit('G'), None);
    assert_eq!(hex_digit('-'), None);
    assert_eq!(hex_digit('/'), None);
    assert_eq!(hex_digit(':'), None);
    assert_eq!(hex_digit('@'), None);
    assert_eq!(hex_digit('`'), None);
    assert_eq!(hex_digit('\u{ff10}'), None);
}

#[test]
fn text_chars_gives_every_character() {
    assert_eq!(text_chars("-1aF"), vec!['-', '1', 'a', 'F']);
    assert_eq!(text_chars(""), Vec::<char>::new());
    assert_eq!(text_chars("\u{e9}1"), vec!['\u{e9}', '1']);
}

#[test]
fn sign_length_is_one_for_a_minus_sign() {
    assert_eq!(sign_length(&vec!['-', '1']), 1);
    assert_eq!(sign_length(&vec!['1', '-']), 0);
    assert_eq!(sign_length(&Vec::new()), 0);
    assert_eq!(sign_length(&vec!['-']), 1);
}

#[test]
fn all_hex_from_a_position() {
    let chars = vec!['x', '1', 'f'];
    assert!(!all_hex_from(&chars, 0));
    assert!(all_hex_from(&chars, 1));
    assert!(all_hex_from(&chars, 3));
}

#[test]
fn parse_group_reads_most_significant_digit_first() {
    let chars = text_chars("xx12345");
    assert_eq!(parse_group(&chars, 2, 7), 74565);
    assert_eq!(parse_group(&chars, 2, 2), 0);
    assert_eq!(parse_group(&chars, 3, 5), 0x23);
    let wide = text_chars("ffffffffffffffff");
    assert_eq!(parse_group(&wide, 0, 16), u64::MAX);
}

#[test]
fn hex_limbs_and_chunks_of_one_text() {
    let chars = text_chars("-123456789abcdef0fedcba9876543210");
    assert_eq!(hex_limbs(&chars, 1), vec![0x76543210, 0xfedcba98, 0x9abcdef0, 0x12345678]);
    assert_eq!(hex_chunks_of(&chars, 1), vec![0xfedcba9876543210u64, 0x123456789abcdef0u64]);
    assert_eq!(hex_limbs(&chars, chars.len()), vec![0]);
    assert_eq!(hex_chunks_of(&chars, chars.len()), Vec::<u64>::new());
}

#[test]
fn sign_swaps_to_the_other_one() {
    assert_eq!(Sign::Positive.swap(), Sign::Negative);
    assert_eq!(Sign::Negative.swap(), Sign::Positive);
}
