use uiua::element::ArrayValue;
use uiua::num::{pow2_u128, Complex, Num};
use uiua::order::{compare_ints, Order};

fn n(x: f64) -> Num {
    Num::from_bits(x.to_bits())
}

fn f(x: Num) -> f64 {
    f64::from_bits(x.to_bits())
}

#[test]
fn from_usize_is_the_same_number() {
    for k in [0usize, 1, 2, 3, 5, 7, 8, 255, 256, 1000, 65535, 1 << 20, 123456789] {
        assert_eq!(f(Num::from_usize(k)), k as f64, "{k}");
    }
}

#[test]
fn from_u128_rounds_to_nearest_even() {
    let cases: [u128; 12] = [
        (1 << 53) - 1,
        1 << 53,
        (1 << 53) + 1,
        (1 << 53) + 2,
        (1 << 53) + 3,
        (1 << 54) + 2,
        (1 << 54) + 6,
        u64::MAX as u128,
        (1 << 100) + 1,
        (1 << 127) + (1 << 74),
        u128::MAX,
        u128::MAX - 1,
    ];
    for k in cases {
        assert_eq!(f(Num::from_u128(k)), k as f64, "{k}");
    }
}

#[test]
fn powers_of_two() {
    assert_eq!(pow2_u128(0), 1);
    assert_eq!(pow2_u128(10), 1024);
    assert_eq!(pow2_u128(127), 1u128 << 127);
}

#[test]
fn fields_of_a_number() {
    let one = n(1.0);
    assert_eq!(one.exponent_field(), 1023);
    assert_eq!(one.fraction_field(), 0);
    assert!(!one.is_negative());
    assert!(n(-2.5).is_negative());
    assert!(n(f64::NAN).is_nan());
    assert!(!n(f64::INFINITY).is_nan());
    assert!(n(0.0).is_zero());
    assert!(n(-0.0).is_zero());
    assert!(!n(1e-320).is_zero());
}

#[test]
fn whole_numbers_are_told_from_others() {
    for x in [0.0, -0.0, 1.0, 2.0, 3.0, -7.0, 4503599627370496.0, 1e300, 9007199254740993.0] {
        assert!(n(x).is_integral(), "{x}");
    }
    for x in [0.5, -0.25, 1.5, 1e-320, f64::NAN, f64::INFINITY, f64::NEG_INFINITY, 4503599627370495.5] {
        assert!(!n(x).is_integral(), "{x}");
    }
}

#[test]
fn as_nat_gives_naturals_only() {
    assert_eq!(n(0.0).as_nat(), Some(0));
    assert_eq!(n(-0.0).as_nat(), Some(0));
    assert_eq!(n(3.0).as_nat(), Some(3));
    assert_eq!(n(1048576.0).as_nat(), Some(1048576));
    assert_eq!(n(9007199254740992.0).as_nat(), Some(1 << 53));
    assert_eq!(n(0.5).as_nat(), None);
    assert_eq!(n(-1.0).as_nat(), None);
    assert_eq!(n(f64::NAN).as_nat(), None);
    assert_eq!(n(f64::INFINITY).as_nat(), None);
    assert_eq!(n(1e300).as_nat(), None);
}

#[test]
fn to_u128_of_whole_numbers() {
    assert_eq!(n(5.0).to_u128(), 5);
    assert_eq!(n(-5.0).to_u128(), 0);
    assert_eq!(n(0.0).to_u128(), 0);
    assert_eq!(n(1e300).to_u128(), u128::MAX);
    assert_eq!(n(18446744073709551616.0).to_u128(), 1u128 << 64);
    assert_eq!(n(4503599627370497.0).to_u128(), (1u128 << 52) + 1);
}

#[test]
fn numbers_are_ordered_by_value() {
    let sorted = [
        f64::NEG_INFINITY,
        -1e300,
        -2.0,
        -1.5,
        -1e-320,
        0.0,
        1e-320,
        0.5,
        1.0,
        1.0000000000000002,
        2.0,
        1e300,
        f64::INFINITY,
        f64::NAN,
    ];
    for i in 0..sorted.len() {
        for j in 0..sorted.len() {
            let o = n(sorted[i]).compare(&n(sorted[j]));
            let want = if i < j {
                Order::Less
            } else if i > j {
                Order::Greater
            } else {
                Order::Equal
            };
            assert_eq!(o, want, "{} {}", sorted[i], sorted[j]);
        }
    }
}

#[test]
fn the_two_zeros_are_equal_and_so_is_what_is_not_a_number() {
    assert_eq!(n(0.0).compare(&n(-0.0)), Order::Equal);
    assert_eq!(n(-0.0).order_key(), 0);
    assert_eq!(n(f64::NAN).compare(&n(-f64::NAN)), Order::Equal);
}

#[test]
fn bytes_and_characters_are_ordered_by_value() {
    assert_eq!(3u8.compare(&7u8), Order::Less);
    assert_eq!(7u8.compare(&7u8), Order::Equal);
    assert_eq!('b'.compare(&'a'), Order::Greater);
    assert_eq!(Order::Less.reverse(), Order::Greater);
    assert_eq!(Order::Equal.reverse(), Order::Equal);
}

#[test]
fn complex_numbers_are_ordered_by_real_part_first() {
    let a = Complex { re: n(1.0), im: n(5.0) };
    let b = Complex { re: n(2.0), im: n(0.0) };
    let c = Complex { re: n(1.0), im: n(6.0) };
    assert_eq!(a.compare(&b), Order::Less);
    assert_eq!(a.compare(&c), Order::Less);
    assert_eq!(c.compare(&a), Order::Greater);
    assert_eq!(a.compare(&a), Order::Equal);
}

#[test]
fn lists_of_integers_are_compared_place_by_place() {
    assert_eq!(compare_ints(&vec![1, 2, 3], &vec![1, 2, 4]), Order::Less);
    assert_eq!(compare_ints(&vec![1, 2], &vec![1, 2, 0]), Order::Less);
    assert_eq!(compare_ints(&vec![2], &vec![1, 9]), Order::Greater);
    assert_eq!(compare_ints(&vec![], &vec![]), Order::Equal);
}
