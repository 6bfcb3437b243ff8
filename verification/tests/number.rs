use gwas_viewer::number::Number;

fn n(value: f64) -> Number {
    Number::from_bits(value.to_bits())
}

#[test]
fn bits_round_trip() {
    let x = Number::from_bits(0x4059_0000_0000_0000);
    assert_eq!(x.to_bits(), 0x4059_0000_0000_0000);
    assert_eq!(f64::from_bits(x.to_bits()), 100.0);
}

#[test]
fn whole_numbers_are_indices() {
    assert_eq!(n(0.0).as_index(), Some(0));
    assert_eq!(n(-0.0).as_index(), Some(0));
    assert_eq!(n(1.0).as_index(), Some(1));
    assert_eq!(n(2.0).as_index(), Some(2));
    assert_eq!(n(3.0).as_index(), Some(3));
    assert_eq!(n(1000.0).as_index(), Some(1000));
    assert_eq!(n(248_956_422.0).as_index(), Some(248_956_422));
    assert_eq!(n(4_294_967_295.0).as_index(), Some(4_294_967_295));
    assert_eq!(n(9_007_199_254_740_991.0).as_index(), Some(9_007_199_254_740_991));
    assert_eq!(n(9_007_199_254_740_992.0).as_index(), Some(9_007_199_254_740_992));
    assert_eq!(n(9_223_372_036_854_775_808.0).as_index(), Some(1usize << 63));
    assert_eq!(
        n(18_446_744_073_709_549_568.0).as_index(),
        Some(18_446_744_073_709_549_568)
    );
}

#[test]
fn other_numbers_are_no_indices() {
    assert_eq!(n(0.5).as_index(), None);
    assert_eq!(n(1.5).as_index(), None);
    assert_eq!(n(1000.000001).as_index(), None);
    assert_eq!(n(0.9999999999999999).as_index(), None);
    assert_eq!(n(4503599627370495.5).as_index(), None);
    assert_eq!(n(-1.0).as_index(), None);
    assert_eq!(n(-1000.0).as_index(), None);
    assert_eq!(n(5e-324).as_index(), None);
    assert_eq!(n(-5e-324).as_index(), None);
    assert_eq!(n(f64::MIN_POSITIVE).as_index(), None);
    assert_eq!(n(18_446_744_073_709_551_616.0).as_index(), None);
    assert_eq!(n(1e300).as_index(), None);
    assert_eq!(n(f64::MAX).as_index(), None);
    assert_eq!(n(f64::INFINITY).as_index(), None);
    assert_eq!(n(f64::NEG_INFINITY).as_index(), None);
    assert_eq!(n(f64::NAN).as_index(), None);
}

#[test]
fn as_index_agrees_with_the_cast_on_many_values() {
    let mut x: u64 = 0x9E37_79B9_7F4A_7C15;
    for _ in 0..20_000 {
        x ^= x << 13;
        x ^= x >> 7;
        x ^= x << 17;
        let value = f64::from_bits(x);
        let expected = if value >= 0.0 && value.fract() == 0.0 && value < 18_446_744_073_709_551_616.0
        {
            Some(value as usize)
        } else {
            None
        };
        assert_eq!(Number::from_bits(x).as_index(), expected);
        let small = (x % 5000) as f64 / 4.0;
        let expected = if small.fract() == 0.0 { Some(small as usize) } else { None };
        assert_eq!(n(small).as_index(), expected);
    }
}

#[test]
fn nan_is_told_apart() {
    assert!(n(f64::NAN).is_nan());
    assert!(Number::from_bits(0x7ff0_0000_0000_0001).is_nan());
    assert!(Number::from_bits(0xfff8_0000_0000_0000).is_nan());
    assert!(!n(f64::INFINITY).is_nan());
    assert!(!n(f64::NEG_INFINITY).is_nan());
    assert!(!n(0.0).is_nan());
    assert!(!n(f64::MAX).is_nan());
}

#[test]
fn le_orders_as_the_numbers_do() {
    assert!(n(1.0).le(&n(2.0)));
    assert!(!n(2.0).le(&n(1.0)));
    assert!(n(2.0).le(&n(2.0)));
    assert!(n(-2.0).le(&n(-1.0)));
    assert!(!n(-1.0).le(&n(-2.0)));
    assert!(n(-1.0).le(&n(1.0)));
    assert!(!n(1.0).le(&n(-1.0)));
    assert!(n(0.0).le(&n(-0.0)));
    assert!(n(-0.0).le(&n(0.0)));
    assert!(n(5e-324).le(&n(f64::MIN_POSITIVE)));
    assert!(!n(5e-324).le(&n(0.0)));
    assert!(!n(0.0).le(&n(-5e-324)));
    assert!(n(1e-8).le(&n(0.05)));
    assert!(n(f64::MAX).le(&n(f64::INFINITY)));
    assert!(n(f64::NEG_INFINITY).le(&n(f64::MIN)));
    assert!(!n(f64::NAN).le(&n(1.0)));
    assert!(!n(1.0).le(&n(f64::NAN)));
    assert!(!n(f64::NAN).le(&n(f64::NAN)));
}

#[test]
fn le_agrees_with_the_comparison_on_many_values() {
    let mut x: u64 = 0x2545_F491_4F6C_DD1D;
    let mut previous = 0.0f64;
    for _ in 0..20_000 {
        x ^= x << 13;
        x ^= x >> 7;
        x ^= x << 17;
        let value = f64::from_bits(x);
        assert_eq!(n(value).le(&n(previous)), value <= previous);
        assert_eq!(n(previous).le(&n(value)), previous <= value);
        previous = value;
    }
}
