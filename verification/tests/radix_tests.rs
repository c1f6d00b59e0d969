use radix_calc::conversions::calculate_radix_multiple_for_pv;
use radix_calc::conversions::decimal_to_radix;
use radix_calc::conversions::decimal_to_radix_string;
use radix_calc::conversions::integer_to_radix_char;
use radix_calc::conversions::integer_to_radix_string;
use radix_calc::conversions::radix_be_to_decimal;
use radix_calc::conversions::radix_to_decimal;
use radix_calc::conversions::RadixValue;
use radix_calc::convert_radix_fraction_to_radix;
use radix_calc::decimal_to_radix_pv;
use radix_calc::float_to_fraction_parts;
use radix_calc::frac_expr_to_big_rational;
use radix_calc::fraction_to_unit;
use radix_calc::fractions::fraction_string_to_big_rational;
use radix_calc::fractions::RationalNumberSet;
use radix_calc::radix_to_decimal_pv;
use radix_calc::ConvError;
use radix_calc::Rational;
use radix_calc::RationalNumber;

/// The exact rational a finite float denotes.
fn rat(x: f64) -> Rational {
    let mut v = x;
    let mut den: i64 = 1;
    while v != v.trunc() && den < (1i64 << 60) {
        v *= 2.0;
        den *= 2;
    }
    Rational { num: v as i128, den: den as i128 }
}

fn encode(x: f64, base: u32) -> String {
    decimal_to_radix_pv(&rat(x), base).unwrap()
}

fn decode(s: &str, base: u32) -> f64 {
    let q = radix_to_decimal_pv(s.to_string(), base).unwrap();
    q.num as f64 / q.den as f64
}

fn expr_to_f64(expr: &str) -> f64 {
    let parsed: meval::Expr = expr.parse().unwrap();
    parsed.eval().unwrap()
}

fn expr_to_radix(expr: &str, base: u32) -> String {
    encode(expr_to_f64(expr), base)
}

#[test]
fn base_2_fraction() {
    assert_eq!(encode(1.5, 2), "1.1".to_string());
}

#[test]
fn base_6_fraction() {
    assert_eq!(encode(2.166666666, 6), "2.1".to_string());
}

#[test]
fn base_12_fraction() {
    assert_eq!(encode(0.5, 12), "0.6".to_string());
}

#[test]
fn base_12_float_fraction() {
    assert_eq!(encode(0.33333333333 as f64, 12), "0.4".to_string());
}

#[test]
fn base_12_float_fraction_approx() {
    // 0.111111111 snaps to 1/9, which re-quantization at 15 decimal
    // digits (rounding up) nudges to 111111111111112/10^15; the last
    // window digit shows that.
    assert_eq!(encode(0.111111111 as f64, 12), "0.14000000000001".to_string());
}

#[test]
fn base_16_fraction() {
    assert_eq!(encode(0.125, 16), "0.2".to_string());
}

#[test]
fn base_20_fraction() {
    assert_eq!(encode(26.75, 20), "16.f".to_string());
}

#[test]
fn base_36_fraction() {
    assert_eq!(encode(67.333333333333, 36), "1v.c".to_string());
}

#[test]
fn base_36_float_fraction() {
    assert_eq!(encode(4.0 / 23.0, 36).starts_with("0.69e34p"), true);
}

#[test]
fn base_60_fraction() {
    assert_eq!(encode(62.5, 60), "01:02.30".to_string());
}

#[test]
fn base_12_negative() {
    assert_eq!(encode(-0.75, 12), "-0.9".to_string());
}

#[test]
fn base_10_negative_rational_fraction() {
    assert_eq!(
        float_to_fraction_parts(&rat(-1.75), 4096).unwrap(),
        (-7, 4, Rational { num: 0, den: 4 })
    );
}

#[test]
fn text_expr_to_f64() {
    assert_eq!(expr_to_f64("(24 / 2) + 5 * 7"), 47f64);
}

#[test]
fn text_expr_to_f64_frac() {
    assert_eq!(expr_to_f64("1 / 7"), 1f64 / 7f64);
}

#[test]
fn text_expr_to_f64_with_power() {
    assert_eq!(expr_to_f64("4 ^ 0.5"), 2f64);
}

#[test]
fn text_expr_to_radix_with_power_12() {
    assert_eq!(expr_to_radix("12 ^ 8", 12), "100000000");
}

#[test]
fn text_expr_to_f64_with_decimal() {
    assert_eq!(expr_to_f64("4 + 0.5"), 4.5f64);
}

#[test]
fn text_expr_to_rational_number() {
    assert_eq!(
        frac_expr_to_big_rational("3 / 2".to_string()).unwrap(),
        RationalNumber::new_from_frac(3, 2).unwrap()
    );
}

#[test]
fn text_expr_to_radix() {
    assert_eq!(expr_to_radix("1 / 3", 12), "0.4".to_string());
}

#[test]
fn text_expr_to_radix_2() {
    let result = expr_to_radix("1 / 7", 12);
    println!("{}", result);
    assert_eq!(result.starts_with("0.186a35186a35"), true);
}

#[test]
fn round_trip_tested_bases() {
    for &b in &[2u32, 6, 10, 12, 16, 20, 36, 60] {
        for &v in &[0.5f64, 1.5, 26.75, 62.5, 0.125, 3.0] {
            let s = encode(v, b);
            let back = decode(&s, b);
            assert!((back - v).abs() < 1e-9, "base {} value {} gave {}", b, v, back);
        }
    }
}

#[test]
fn sign_prefix_all_bases() {
    for &b in &[2u32, 6, 10, 12, 16, 20, 36, 60] {
        for &v in &[0.75f64, 1.5, 26.75] {
            let pos = encode(v, b);
            let neg = encode(-v, b);
            assert_eq!(neg, format!("-{}", pos));
        }
    }
}

#[test]
fn grouped_base_two_digit_tokens() {
    let s = encode(3599.98, 60);
    for seg in s.split('.') {
        for tok in seg.split(':') {
            assert_eq!(tok.len(), 2, "token {} in {}", tok, s);
            assert!(tok.chars().all(|c| c.is_ascii_digit()));
        }
    }
    assert!(!s.ends_with(":00"));
}

#[test]
fn residual_error_is_bounded() {
    for &v in &[0.3f64, 0.123456, 2.7, -1.9] {
        for &p in &[10i32, 100, 512, 4096] {
            let (_, _, e) = float_to_fraction_parts(&rat(v), p).unwrap();
            // e < 1/(p+1)  <=>  e.num * (p+1) < e.den  (allowing equality at the boundary)
            assert!(e.num * ((p as i128) + 1) <= e.den);
        }
    }
}

#[test]
fn approximate_exact_small_fraction() {
    let fifth = Rational { num: 1, den: 5 };
    let (n, d, e) = float_to_fraction_parts(&fifth, 512).unwrap();
    assert_eq!((n, d), (1, 5));
    assert_eq!(e.num, 0);
}

#[test]
fn mixed_units_whole_and_remainder() {
    assert_eq!(fraction_to_unit(3, 2, 10).unwrap(), "1 1/2");
    assert_eq!(fraction_to_unit(4, 2, 10).unwrap(), "2");
    assert_eq!(fraction_to_unit(1, 2, 10).unwrap(), "1/2");
    assert_eq!(fraction_to_unit(7, 4, 12).unwrap(), "1 3/4");
    assert_eq!(fraction_to_unit(0, 2, 10).unwrap(), "");
}

#[test]
fn mixed_units_never_starts_with_space() {
    for n in -9i32..10 {
        for d in 1i32..7 {
            let s = fraction_to_unit(n, d, 10).unwrap();
            assert!(!s.starts_with(' '), "{}/{} gave {:?}", n, d, s);
        }
    }
}

#[test]
fn integer_round_trip() {
    for &b in &[2u32, 10, 36, 60, 100] {
        for &n in &[0i128, 1, 59, 61, 3599, 123456] {
            let s = integer_to_radix_string(n, b, false);
            let back = radix_to_decimal(s.clone(), b).unwrap();
            assert_eq!(back as i128, n, "base {} text {}", b, s);
        }
    }
}

#[test]
fn grouped_integer_decode() {
    assert_eq!(radix_be_to_decimal("01:02".to_string(), 60).unwrap(), 62);
    assert_eq!(radix_be_to_decimal("-01:02".to_string(), 60).unwrap(), -62);
}

#[test]
fn decode_with_fraction() {
    assert_eq!(decode("16.f", 20), 26.75);
    assert_eq!(decode("01:02.30", 60), 62.5);
    assert_eq!(decode("-0.9", 12), -0.75);
    assert_eq!(decode("1.000", 10), 1.0);
}

#[test]
fn radix_char_letters() {
    assert_eq!(integer_to_radix_char(15, 20), "f");
    assert_eq!(integer_to_radix_char(9, 20), "9");
    assert_eq!(integer_to_radix_char(7, 60), "07");
    assert_eq!(integer_to_radix_char(42, 60), "42");
}

#[test]
fn fragment_trims_zero_tail() {
    assert_eq!(decimal_to_radix_string(120, 10), "12");
    assert_eq!(decimal_to_radix_string(0, 10), "");
    assert_eq!(decimal_to_radix_string(-1200, 10), "-12");
}

#[test]
fn radix_fraction_to_radix_same_base() {
    let (q, s) = convert_radix_fraction_to_radix("1/3".to_string(), 12).unwrap();
    assert_eq!((q.num, q.den), (1, 3));
    assert_eq!(s, "0.4");
}

#[test]
fn reduced_fraction_parsing() {
    assert_eq!(fraction_string_to_big_rational("6/4".to_string()).unwrap(), (3, 2));
    assert_eq!(fraction_string_to_big_rational("-6/4".to_string()).unwrap(), (-3, 2));
    assert_eq!(
        fraction_string_to_big_rational("1/0".to_string()),
        Err(ConvError::DivisionByZero)
    );
}

#[test]
fn error_kinds() {
    assert_eq!(decimal_to_radix_pv(&rat(1.0), 1), Err(ConvError::InvalidBase));
    assert_eq!(
        radix_to_decimal("xyz".to_string(), 10),
        Err(ConvError::MalformedRadixString)
    );
    assert_eq!(
        radix_to_decimal("999999999999".to_string(), 10),
        Err(ConvError::PrecisionOverflow)
    );
    assert_eq!(fraction_to_unit(1, 0, 10), Err(ConvError::DivisionByZero));
    assert_eq!(
        radix_to_decimal_pv("1.2.3".to_string(), 10),
        Err(ConvError::MalformedRadixString)
    );
}

#[test]
fn radix_value_record() {
    let rv = RadixValue::new("0.5".to_string(), rat(0.5), 10, "r".to_string()).unwrap();
    assert_eq!(rv.mode, "to");
    assert_eq!(rv.frac, "1/2");
    let rv2 = RadixValue::new("0.5".to_string(), rat(0.5), 10, "x".to_string()).unwrap();
    assert_eq!(rv2.mode, "from");
}

#[test]
fn rational_number_set_status() {
    let set = RationalNumberSet::new(RationalNumber::new_from_frac(3, 2).unwrap());
    assert_eq!(set.code, 200);
    assert_eq!(set.msg, "OK");
}

#[test]
fn extract_decimals_snaps_noise() {
    // snapped to 1/3, then re-quantized upward at 15 decimal digits
    let snapped = radix_calc::conversions::extract_decimals(&rat(0.33333333333));
    assert_eq!(
        snapped,
        Rational { num: 333_333_333_333_334, den: 1_000_000_000_000_000 }
    );
    let half = radix_calc::conversions::extract_decimals(&rat(2.5));
    assert_eq!(
        half,
        Rational { num: 500_000_000_000_000, den: 1_000_000_000_000_000 }
    );
    let whole = radix_calc::conversions::extract_decimals(&rat(-3.0));
    assert_eq!(whole, Rational { num: 0, den: 1 });
}

#[test]
fn scale_factor_policy() {
    assert_eq!(calculate_radix_multiple_for_pv(10).unwrap(), 1_000_000_000_000_000u128);
    assert_eq!(calculate_radix_multiple_for_pv(60).unwrap(), 12_960_000u128);
    assert_eq!(calculate_radix_multiple_for_pv(12).unwrap(), 12u128.pow(14));
}

#[test]
fn is_divisable_probe() {
    let tol = Rational { num: 1, den: 513 };
    let third = rat(1.0 / 3.0);
    assert!(radix_calc::fractions::is_divisable(&third, 2, &tol).is_none());
    let hit = radix_calc::fractions::is_divisable(&third, 3, &tol).unwrap();
    assert_eq!(hit.0, 3);
    assert!(hit.1.num * 513 <= hit.1.den);
}

#[test]
fn negative_integer_rendering() {
    assert_eq!(integer_to_radix_string(255, 16, true), "-ff");
    assert_eq!(decimal_to_radix(255, 16, true), "-ff");
    assert_eq!(radix_to_decimal("-ff".to_string(), 16).unwrap(), -255);
}

#[test]
fn requantized_third_in_base_ten() {
    let third = Rational { num: 1, den: 3 };
    assert_eq!(decimal_to_radix_pv(&third, 10).unwrap(), "0.333333333333334");
}

#[test]
fn decode_integer_segment_language() {
    // the decode path accepts the same integer strings as radix_to_decimal
    assert_eq!(radix_to_decimal("+5".to_string(), 10).unwrap(), 5);
    let plus = radix_to_decimal_pv("+5".to_string(), 10).unwrap();
    assert_eq!(plus, Rational { num: 5, den: 1 });
    assert_eq!(
        radix_to_decimal("-2147483648".to_string(), 10).unwrap(),
        i32::MIN
    );
    let min = radix_to_decimal_pv("-2147483648".to_string(), 10).unwrap();
    assert_eq!(min, Rational { num: -2147483648, den: 1 });
}

#[test]
fn fraction_parsers_owe_success() {
    assert_eq!(
        fraction_string_to_big_rational("2147483647/1".to_string()).unwrap(),
        (2147483647, 1)
    );
    assert_eq!(
        fraction_string_to_big_rational("2147483648/2".to_string()),
        Err(ConvError::PrecisionOverflow)
    );
    assert_eq!(
        frac_expr_to_big_rational("1 / 0".to_string()),
        Err(ConvError::DivisionByZero)
    );
    assert_eq!(
        frac_expr_to_big_rational("x / 2".to_string()),
        Err(ConvError::MalformedRadixString)
    );
    let q = frac_expr_to_big_rational("-3 / 2".to_string()).unwrap();
    assert_eq!((q.numer, q.denom), (-3, 2));
    assert_eq!((q.value.num, q.value.den), (-3, 2));
}
