//! The exact rational value type that every conversion works on, and the
//! error kinds shared by the whole crate.
//!
//! A finite decimal (floating) input is always an exact rational number,
//! so the conversion engine takes its values as a numerator/denominator
//! pair and computes with integers only.
use vstd::prelude::*;

verus! {

/// Largest magnitude allowed in a `Rational` numerator or denominator.
pub const RAT_CAP: i128 = 1298074214633706907132624082305024;

/// Largest magnitude accepted for values fed into the approximator and
/// the encoder; chosen so that every intermediate product fits in `i128`.
pub const VAL_CAP: i128 = 9223372036854775808;

/// An exact rational number `num / den` with `den >= 1`.
#[derive(Clone, Copy, Debug, PartialEq, Eq, Structural)]
pub struct Rational {
    pub num: i128,
    pub den: i128,
}

impl Rational {
    /// Well-formed: positive denominator, both parts within `RAT_CAP`.
    pub open spec fn wf(self) -> bool {
        1 <= self.den <= RAT_CAP && -RAT_CAP <= self.num <= RAT_CAP
    }

    /// Bounded tightly enough for the approximator and the encoder.
    pub open spec fn small(self) -> bool {
        self.wf() && self.den <= VAL_CAP && -VAL_CAP <= self.num <= VAL_CAP
    }
}

/// Error kinds, applied uniformly: every operation that can meet a bad
/// input reports one of these instead of falling back to a silent zero.
#[derive(Clone, Copy, Debug, PartialEq, Eq, Structural)]
pub enum ConvError {
    /// A digit character outside the base's alphabet, or ill-formed
    /// group separators.
    MalformedRadixString,
    /// A base below 2.
    InvalidBase,
    /// A zero denominator handed to fraction construction or rendering.
    DivisionByZero,
    /// A magnitude beyond the integer range the engine computes in.
    PrecisionOverflow,
}

} // verus!
