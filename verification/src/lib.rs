//! Conversion of exact rational values between decimal and arbitrary
//! positional numeral systems (bases 2 and up), including fractional
//! parts, together with a bounded-depth rational approximator that snaps
//! a noisy value to a nearby small-denominator fraction.
//!
//! Every finite decimal (floating) input is an exact rational number,
//! so the boundary hands values in as numerator/denominator pairs
//! (`Rational`) and the whole engine computes with integers only.
use vstd::prelude::*;

pub mod conversions;
pub mod fractions;
pub mod rational;

pub use conversions::convert_radix_fraction_to_radix;
pub use conversions::decimal_to_radix_pv;
pub use conversions::fraction_to_units;
pub use conversions::radix_to_decimal_pv;
pub use fractions::float_to_fraction_parts;
pub use fractions::RationalNumber;
pub use rational::ConvError;
pub use rational::Rational;

verus! {

/// Renders `numer/denom` as a mixed number in `base` (the whole part,
/// then ` ` and `remainder/denominator` when a remainder is left); see
/// `conversions::fraction_to_units`.
pub fn fraction_to_unit(numer: i32, denom: i32, base: u32) -> (r: Result<String, ConvError>)
    ensures
        r is Ok <==> (denom != 0 && base >= 2),
        r matches Ok(s) ==> s@ == fractions::spec_mixed(numer as int, denom as int, base as int),
        base < 2 ==> r == Err::<String, ConvError>(ConvError::InvalidBase),
        base >= 2 && denom == 0 ==> r == Err::<String, ConvError>(ConvError::DivisionByZero),
{
    conversions::fraction_to_units(numer, denom, base)
}

/// Parses a decimal fraction expression `N / D` (spaces allowed around
/// each side) into an approximation record for the exact fraction.
/// `MalformedRadixString` without exactly one `/` or with an
/// ill-formed side; `DivisionByZero` for a zero denominator;
/// `PrecisionOverflow` when a side leaves `i32`.
pub fn frac_expr_to_big_rational(expr: String) -> (r: Result<RationalNumber, ConvError>)
    ensures
        ({
            let k = conversions::find_char_at(expr@, '/');
            let k2 = conversions::find_char_at(expr@.skip(k + 1), '/');
            let a = fractions::spec_part_val(expr@.take(k));
            let c = fractions::spec_part_val(expr@.skip(k + 1));
            &&& ((k < 0 || k2 >= 0 || a is None || c is None) <==> r == Err::<
                RationalNumber,
                ConvError,
            >(ConvError::MalformedRadixString))
            &&& (r matches Ok(q) ==> ({
                let av = a->Some_0;
                let cv = c->Some_0;
                &&& cv != 0
                &&& q.numer == av
                &&& q.denom == cv
                &&& q.precision == 0
                &&& q.difference == (Rational { num: 0, den: 1 })
                &&& q.display@ == fractions::spec_mixed(av, cv, 10)
                &&& q.value.den >= 1
                &&& fractions::rat_eq_frac(q.value, av, cv)
            }))
            &&& (r is Err && r != Err::<RationalNumber, ConvError>(
                ConvError::MalformedRadixString,
            ) && r != Err::<RationalNumber, ConvError>(ConvError::DivisionByZero) ==> r == Err::<
                RationalNumber,
                ConvError,
            >(ConvError::PrecisionOverflow))
            &&& (k >= 0 && k2 < 0 && a is Some && c is Some && -0x8000_0000 <= a->Some_0
                <= 0x7fff_ffff && -0x8000_0000 <= c->Some_0 <= 0x7fff_ffff && c->Some_0 == 0
                ==> r == Err::<RationalNumber, ConvError>(ConvError::DivisionByZero))
            &&& (r is Ok <==> (k >= 0 && k2 < 0 && a is Some && c is Some && -0x8000_0000
                <= a->Some_0 <= 0x7fff_ffff && -0x8000_0000 <= c->Some_0 <= 0x7fff_ffff
                && c->Some_0 != 0))
        }),
{
    let v = conversions::str_chars(expr.as_str());
    let n = v.len();
    proof {
        assert(v@.subrange(0int, n as int) =~= expr@);
    }
    let k = match conversions::find_char_range(&v, 0, n, '/') {
        Some(k) => k,
        None => {
            return Err(ConvError::MalformedRadixString);
        },
    };
    proof {
        assert(v@.subrange(0int, k as int) =~= expr@.take(k as int));
        assert(v@.subrange(k + 1int, n as int) =~= expr@.skip(k + 1int));
    }
    match conversions::find_char_range(&v, k + 1, n, '/') {
        Some(_) => {
            return Err(ConvError::MalformedRadixString);
        },
        None => {
        },
    }
    let ar = fractions::parse_part_i32(&v, 0, k);
    let cr = fractions::parse_part_i32(&v, k + 1, n);
    if matches!(ar, Err(ConvError::MalformedRadixString)) || matches!(
        cr,
        Err(ConvError::MalformedRadixString),
    ) {
        return Err(ConvError::MalformedRadixString);
    }
    let av = match ar {
        Ok(x) => x,
        Err(_) => {
            return Err(ConvError::PrecisionOverflow);
        },
    };
    let cv = match cr {
        Ok(x) => x,
        Err(_) => {
            return Err(ConvError::PrecisionOverflow);
        },
    };
    match RationalNumber::new_from_frac(av, cv) {
        Ok(q) => Ok(q),
        Err(e) => Err(e),
    }
}

} // verus!
