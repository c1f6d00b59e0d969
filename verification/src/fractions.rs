//! The rational approximator: a bounded search for a small-denominator
//! fraction near a given value, together with mixed-number rendering in
//! base 10 and the `RationalNumber` record built from a search result.
use vstd::prelude::*;
use vstd::arithmetic::div_mod::lemma_fundamental_div_mod;
use vstd::arithmetic::div_mod::lemma_fundamental_div_mod_converse;
use vstd::arithmetic::div_mod::lemma_mod_bound;
use vstd::math::abs;

use crate::conversions::spec_int_radix_str;
use crate::conversions::decimal_to_radix;
use crate::rational::ConvError;
use crate::rational::Rational;
use crate::rational::VAL_CAP;

verus! {

// ------------------------------------------------------------------
// The acceptance test of the denominator search
// ------------------------------------------------------------------

/// Denominator `i` is accepted for value `vn/vd` under tolerance
/// `tn/td`: the fractional part of `i * vn/vd` lies within the
/// tolerance of an integer, on either side.
pub open spec fn accepts_tol(vn: int, vd: int, i: int, tn: int, td: int) -> bool {
    let r = (vn * i) % vd;
    r * td <= tn * vd || (vd - r) * td <= tn * vd
}

/// The residual numerator (over denominator `vd`) for an accepted `i`:
/// the distance to the integer multiple on whichever side triggered.
pub open spec fn residual_tol(vn: int, vd: int, i: int, tn: int, td: int) -> int {
    let r = (vn * i) % vd;
    if r * td <= tn * vd {
        r
    } else {
        vd - r
    }
}

/// Acceptance for a search of depth `p` (tolerance `1/(p+1)`).
pub open spec fn approx_accepts(vn: int, vd: int, p: int, i: int) -> bool {
    accepts_tol(vn, vd, i, 1, p + 1)
}

/// The first accepted denominator at or after `i`; `0` when none up to
/// `p` is accepted.
pub open spec fn first_accept_from(vn: int, vd: int, p: int, i: int) -> int
    decreases p - i + 1,
{
    if i > p || i < 1 {
        0
    } else if approx_accepts(vn, vd, p, i) {
        i
    } else {
        first_accept_from(vn, vd, p, i + 1)
    }
}

/// The smallest accepted denominator in `1..=p`, or `0` when none is.
pub open spec fn first_accept(vn: int, vd: int, p: int) -> int {
    first_accept_from(vn, vd, p, 1)
}

/// The quotient `a / d` rounded to the nearest integer, halves away
/// from zero.
pub open spec fn round_div(a: int, d: int) -> int {
    let m = abs(a) as int;
    let mag = if 2 * (m % d) < d {
        m / d
    } else {
        m / d + 1
    };
    if a >= 0 {
        mag
    } else {
        -mag
    }
}

/// The quotient `a / d` truncated toward zero.
pub open spec fn trunc_div(a: int, d: int) -> int {
    if a >= 0 {
        a / d
    } else {
        -((-a) / d)
    }
}

/// The numerator the search returns for `vn/vd` at depth `p`.
pub open spec fn approx_numer(vn: int, vd: int, p: int) -> int {
    let fa = first_accept(vn, vd, p);
    if fa == 0 {
        trunc_div(vn, vd)
    } else {
        round_div(vn * fa, vd)
    }
}

/// The denominator the search returns.
pub open spec fn approx_denom(vn: int, vd: int, p: int) -> int {
    let fa = first_accept(vn, vd, p);
    if fa == 0 {
        1
    } else {
        fa
    }
}

/// The residual-error numerator (over denominator `vd`) the search
/// returns.
pub open spec fn approx_err_num(vn: int, vd: int, p: int) -> int {
    let fa = first_accept(vn, vd, p);
    if fa == 0 {
        0
    } else {
        residual_tol(vn, vd, fa, 1, p + 1)
    }
}

/// The first accepted denominator from `lo` lies in `{0} + [lo, p]`,
/// and a nonzero result is accepted.
pub proof fn lemma_first_accept_range(vn: int, vd: int, p: int, lo: int)
    requires
        1 <= lo,
    ensures
        first_accept_from(vn, vd, p, lo) == 0 || (lo <= first_accept_from(vn, vd, p, lo) <= p
            && approx_accepts(vn, vd, p, first_accept_from(vn, vd, p, lo))),
    decreases p - lo + 1,
{
    if lo <= p && !approx_accepts(vn, vd, p, lo) {
        lemma_first_accept_range(vn, vd, p, lo + 1);
    }
}

proof fn lemma_first_from(vn: int, vd: int, p: int, lo: int, i: int)
    requires
        1 <= lo <= i <= p,
        approx_accepts(vn, vd, p, i),
        forall|j: int| lo <= j < i ==> !approx_accepts(vn, vd, p, j),
    ensures
        first_accept_from(vn, vd, p, lo) == i,
    decreases i - lo,
{
    if lo < i {
        lemma_first_from(vn, vd, p, lo + 1, i);
    }
}

proof fn lemma_none_from(vn: int, vd: int, p: int, lo: int)
    requires
        1 <= lo,
        forall|j: int| lo <= j <= p ==> !approx_accepts(vn, vd, p, j),
    ensures
        first_accept_from(vn, vd, p, lo) == 0,
    decreases p - lo + 1,
{
    if lo <= p {
        lemma_none_from(vn, vd, p, lo + 1);
    }
}

// ------------------------------------------------------------------
// The search itself
// ------------------------------------------------------------------

/// Euclidean remainder of `vn * i` by `vd`, in `[0, vd)`.
fn mul_mod(vn: i128, vd: i128, i: i32) -> (r: i128)
    requires
        1 <= vd <= VAL_CAP,
        -VAL_CAP <= vn <= VAL_CAP,
        1 <= i <= 0x4000_0000,
    ensures
        r == (vn as int * i as int) % (vd as int),
        0 <= r < vd,
{
    let m: i128 = if vn < 0 {
        -vn
    } else {
        vn
    };
    proof {
        assert(0 <= m * (i as i128) <= VAL_CAP * 0x4000_0000) by (nonlinear_arith)
            requires
                0 <= m <= VAL_CAP,
                1 <= i <= 0x4000_0000,
        ;
    }
    let am: i128 = m * (i as i128);
    let t: i128 = am % vd;
    proof {
        lemma_mod_bound(am as int, vd as int);
        lemma_fundamental_div_mod(am as int, vd as int);
    }
    if vn >= 0 {
        t
    } else {
        proof {
            let aam = am as int;
            let dd = vd as int;
            let qq = aam / dd;
            let tt = aam % dd;
            assert(vn as int * i as int == -aam) by (nonlinear_arith)
                requires
                    vn < 0,
                    m == -(vn as int),
                    am as int == m as int * i as int,
                    aam == am as int,
            ;
            if t == 0 {
                assert((-qq) * dd + 0 == -aam) by (nonlinear_arith)
                    requires
                        aam == dd * qq + tt,
                        tt == 0,
                ;
                lemma_fundamental_div_mod_converse(-aam, dd, -qq, 0);
            } else {
                assert((-qq - 1) * dd + (dd - tt) == -aam) by (nonlinear_arith)
                    requires
                        aam == dd * qq + tt,
                ;
                lemma_fundamental_div_mod_converse(-aam, dd, -qq - 1, dd - tt);
            }
        }
        if t == 0 {
            0
        } else {
            vd - t
        }
    }
}

/// One probe of the search: is `i` an acceptable denominator for `num`
/// under `tolerance`?  Returns the denominator with the residual
/// distance when it is.
pub fn is_divisable(num: &Rational, i: i32, tolerance: &Rational) -> (r: Option<(i32, Rational)>)
    requires
        num.small(),
        tolerance.small(),
        0 <= tolerance.num,
        1 <= i <= 0x4000_0000,
    ensures
        r is Some <==> accepts_tol(
            num.num as int,
            num.den as int,
            i as int,
            tolerance.num as int,
            tolerance.den as int,
        ),
        r matches Some((ri, e)) ==> ri == i && e.den == num.den && e.num == residual_tol(
            num.num as int,
            num.den as int,
            i as int,
            tolerance.num as int,
            tolerance.den as int,
        ) && e.wf() && 0 <= e.num < e.den,
{
    let vn = num.num;
    let vd = num.den;
    let rm = mul_mod(vn, vd, i);
    proof {
        assert(0 <= rm * tolerance.den <= VAL_CAP * VAL_CAP && 0 <= tolerance.num * vd <= VAL_CAP
            * VAL_CAP && 0 <= (vd - rm) * tolerance.den <= VAL_CAP * VAL_CAP) by (nonlinear_arith)
            requires
                0 <= rm < vd,
                1 <= vd <= VAL_CAP,
                0 <= tolerance.num <= VAL_CAP,
                1 <= tolerance.den <= VAL_CAP,
        ;
    }
    if rm * tolerance.den <= tolerance.num * vd {
        let e = Rational { num: rm, den: vd };
        assert(e.wf());
        assert(e.num == residual_tol(
            num.num as int,
            num.den as int,
            i as int,
            tolerance.num as int,
            tolerance.den as int,
        ));
        Some((i, e))
    } else if (vd - rm) * tolerance.den <= tolerance.num * vd {
        let e = Rational { num: vd - rm, den: vd };
        assert(rm != 0) by (nonlinear_arith)
            requires
                !(rm * tolerance.den <= tolerance.num * vd),
                0 <= tolerance.num,
                1 <= vd,
                1 <= tolerance.den,
        ;
        assert(e.wf());
        assert(e.num == residual_tol(
            num.num as int,
            num.den as int,
            i as int,
            tolerance.num as int,
            tolerance.den as int,
        ));
        Some((i, e))
    } else {
        None
    }
}

/// Bounded denominator search: tries `i = 1 ..= precision` in order and
/// takes the first `i` whose multiple of the value is within
/// `1/(precision+1)` of an integer; numerator is the rounded multiple.
/// Falls back to the truncated value over 1.  The residual error is
/// returned exactly, over the value's own denominator.  Fails with
/// `PrecisionOverflow` exactly when the numerator would not fit `i32`.
pub fn float_to_fraction(num: &Rational, precision: i32) -> (r: Result<
    (i32, i32, Rational),
    ConvError,
>)
    requires
        num.small(),
        0 <= precision <= 0x3fff_ffff,
    ensures
        ({
            let vn = num.num as int;
            let vd = num.den as int;
            let p = precision as int;
            &&& (r is Ok <==> -0x8000_0000 <= approx_numer(vn, vd, p) <= 0x7fff_ffff)
            &&& (r matches Ok((n, d, e)) ==> n == approx_numer(vn, vd, p) && d == approx_denom(
                vn,
                vd,
                p,
            ) && e.num == approx_err_num(vn, vd, p) && e.den == vd && e.wf())
            &&& (r is Err ==> r == Err::<(i32, i32, Rational), ConvError>(
                ConvError::PrecisionOverflow,
            ))
        }),
{
    let vn = num.num;
    let vd = num.den;
    let ghost p = precision as int;
    let max: i32 = precision + 1;
    let tol = Rational { num: 1, den: max as i128 };
    let mut i: i32 = 1;
    let mut hit: Option<(i32, Rational)> = None;
    while i < max && hit.is_none()
        invariant
            num.small(),
            vn == num.num,
            vd == num.den,
            max == p + 1,
            0 <= p <= 0x3fff_ffff,
            tol.num == 1,
            tol.den == max as int,
            1 <= i <= max,
            hit is None ==> forall|j: int| 1 <= j < i ==> !approx_accepts(
                vn as int,
                vd as int,
                p,
                j,
            ),
            hit matches Some((ii, e)) ==> {
                &&& 1 <= ii <= p
                &&& ii == first_accept(vn as int, vd as int, p)
                &&& e.den == vd
                &&& e.num == residual_tol(vn as int, vd as int, ii as int, 1, p + 1)
                &&& e.wf()
            },
        decreases max - i + (if hit is None { 1int } else { 0int }),
    {
        let probe = is_divisable(num, i, &tol);
        match probe {
            Some(pr) => {
                proof {
                    lemma_first_from(vn as int, vd as int, p, 1, i as int);
                }
                hit = Some(pr);
            },
            None => {
                i = i + 1;
            },
        }
    }
    match hit {
        Some((den_i, err)) => {
            let m: i128 = if vn < 0 {
                -vn
            } else {
                vn
            };
            proof {
                assert(0 <= m * (den_i as i128) <= VAL_CAP * 0x4000_0000) by (nonlinear_arith)
                    requires
                        0 <= m <= VAL_CAP,
                        1 <= den_i <= 0x4000_0000,
                ;
            }
            let am: i128 = m * (den_i as i128);
            let q: i128 = am / vd;
            let rr: i128 = am % vd;
            proof {
                lemma_mod_bound(am as int, vd as int);
                lemma_fundamental_div_mod(am as int, vd as int);
                assert(0 <= q <= am) by (nonlinear_arith)
                    requires
                        am as int == vd as int * q as int + rr as int,
                        0 <= rr < vd,
                        1 <= vd,
                        0 <= am,
                ;
                assert(abs(vn as int * den_i as int) == am as int) by (nonlinear_arith)
                    requires
                        m == abs(vn as int),
                        am as int == m as int * den_i as int,
                        den_i >= 1,
                ;
                assert({
                    let prod = vn as int * den_i as int;
                    (vn as int >= 0 ==> prod >= 0) && ((vn as int) < 0 ==> prod < 0)
                }) by (nonlinear_arith)
                    requires
                        den_i >= 1,
                ;
            }
            let magr: i128 = if 2 * rr < vd {
                q
            } else {
                q + 1
            };
            let numer_i: i128 = if vn >= 0 {
                magr
            } else {
                -magr
            };
            assert(numer_i == round_div(vn as int * den_i as int, vd as int));
            assert(approx_numer(vn as int, vd as int, p) == numer_i);
            if -0x8000_0000i128 <= numer_i && numer_i <= 0x7fff_ffffi128 {
                Ok((numer_i as i32, den_i, err))
            } else {
                Err(ConvError::PrecisionOverflow)
            }
        },
        None => {
            proof {
                lemma_none_from(vn as int, vd as int, p, 1);
            }
            let t: i128 = if vn >= 0 {
                vn / vd
            } else {
                -((-vn) / vd)
            };
            assert(t == trunc_div(vn as int, vd as int));
            if -0x8000_0000i128 <= t && t <= 0x7fff_ffffi128 {
                Ok((t as i32, 1, Rational { num: 0, den: vd }))
            } else {
                Err(ConvError::PrecisionOverflow)
            }
        },
    }
}

/// The boundary form of the search: numerator, denominator and exact
/// residual error.
pub fn float_to_fraction_parts(num: &Rational, precision: i32) -> (r: Result<
    (i32, i32, Rational),
    ConvError,
>)
    requires
        num.small(),
        0 <= precision <= 0x3fff_ffff,
    ensures
        ({
            let vn = num.num as int;
            let vd = num.den as int;
            let p = precision as int;
            &&& (r is Ok <==> -0x8000_0000 <= approx_numer(vn, vd, p) <= 0x7fff_ffff)
            &&& (r matches Ok((n, d, e)) ==> n == approx_numer(vn, vd, p) && d == approx_denom(
                vn,
                vd,
                p,
            ) && e.num == approx_err_num(vn, vd, p) && e.den == vd && e.wf())
            &&& (r is Err ==> r == Err::<(i32, i32, Rational), ConvError>(
                ConvError::PrecisionOverflow,
            ))
        }),
{
    float_to_fraction(num, precision)
}

// ------------------------------------------------------------------
// Mixed-number rendering, base 10
// ------------------------------------------------------------------

/// Mixed-number text of `numer/denom` with both parts rendered in base
/// `b`: whole part when nonzero, then ` ` and `remainder/denominator`
/// when the remainder is nonzero.  The numerator's sign marks both the
/// whole part and the remainder; the denominator is unsigned.
pub open spec fn spec_mixed(numer: int, denom: int, b: int) -> Seq<char> {
    let m = abs(numer) as int;
    let d = abs(denom) as int;
    let u = m / d;
    let rm = m % d;
    let neg = numer < 0;
    (if u > 0 {
        spec_int_radix_str(u, b, neg)
    } else {
        Seq::<char>::empty()
    }) + (if rm > 0 {
        (if u > 0 {
            seq![' ']
        } else {
            Seq::<char>::empty()
        }) + spec_int_radix_str(rm, b, neg) + seq!['/'] + spec_int_radix_str(d, b, false)
    } else {
        Seq::<char>::empty()
    })
}

/// Renders `numer/denom` as a base-10 mixed number; fails with
/// `DivisionByZero` exactly when `denom` is zero.
pub fn fraction_to_units(numer: i32, denom: i32) -> (r: Result<String, ConvError>)
    ensures
        r is Ok <==> denom != 0,
        r matches Ok(s) ==> s@ == spec_mixed(numer as int, denom as int, 10),
        r is Err ==> r == Err::<String, ConvError>(ConvError::DivisionByZero),
{
    crate::conversions::fraction_to_units(numer, denom, 10)
}

// ------------------------------------------------------------------
// The approximation record
// ------------------------------------------------------------------

/// One rational approximation: the fraction, its base-10 mixed-number
/// text, the value it approximates, the search depth and the residual
/// error.
#[derive(Debug)]
pub struct RationalNumber {
    pub display: String,
    pub numer: i32,
    pub denom: i32,
    pub value: Rational,
    pub precision: i32,
    pub difference: Rational,
}

impl PartialEq for RationalNumber {
    fn eq(&self, other: &RationalNumber) -> (r: bool) {
        self.display == other.display && self.numer == other.numer && self.denom == other.denom
            && self.value == other.value && self.precision == other.precision && self.difference
            == other.difference
    }
}

impl vstd::std_specs::cmp::PartialEqSpecImpl for RationalNumber {
    open spec fn obeys_eq_spec() -> bool {
        true
    }

    open spec fn eq_spec(&self, other: &RationalNumber) -> bool {
        self.display@ == other.display@ && self.numer == other.numer && self.denom == other.denom
            && self.value == other.value && self.precision == other.precision && self.difference
            == other.difference
    }
}

impl RationalNumber {
    /// Builds the record from already-found parts; fails with
    /// `DivisionByZero` exactly when `denom` is zero.
    pub fn new(numer: i32, denom: i32, value: Rational, precision: i32, difference: Rational) -> (r:
        Result<RationalNumber, ConvError>)
        ensures
            r is Ok <==> denom != 0,
            r matches Ok(q) ==> q.numer == numer && q.denom == denom && q.value == value
                && q.precision == precision && q.difference == difference && q.display@
                == spec_mixed(numer as int, denom as int, 10),
            r is Err ==> r == Err::<RationalNumber, ConvError>(ConvError::DivisionByZero),
    {
        match fraction_to_units(numer, denom) {
            Ok(display) => Ok(
                RationalNumber { display, numer, denom, value, precision, difference },
            ),
            Err(e) => Err(e),
        }
    }

    /// Builds the record for the exact fraction `numer/denom`: value is
    /// the fraction itself, depth and residual are zero.  Fails with
    /// `DivisionByZero` exactly when `denom` is zero.
    pub fn new_from_frac(numer: i32, denom: i32) -> (r: Result<RationalNumber, ConvError>)
        ensures
            r is Ok <==> denom != 0,
            r matches Ok(q) ==> q.numer == numer && q.denom == denom && q.precision == 0
                && q.difference == (Rational { num: 0, den: 1 }) && q.display@ == spec_mixed(
                numer as int,
                denom as int,
                10,
            ) && q.value.den >= 1 && rat_eq_frac(q.value, numer as int, denom as int),
            r is Err ==> r == Err::<RationalNumber, ConvError>(ConvError::DivisionByZero),
    {
        if denom == 0 {
            return Err(ConvError::DivisionByZero);
        }
        let value = if denom < 0 {
            Rational { num: -(numer as i128), den: -(denom as i128) }
        } else {
            Rational { num: numer as i128, den: denom as i128 }
        };
        assert(rat_eq_frac(value, numer as int, denom as int)) by (nonlinear_arith)
            requires
                denom != 0,
                value.den == abs(denom as int),
                (denom < 0 ==> value.num == -(numer as int)) && (denom >= 0 ==> value.num
                    == numer as int),
        ;
        RationalNumber::new(numer, denom, value, 0, Rational { num: 0, den: 1 })
    }
}


// ------------------------------------------------------------------
// Parsing decimal fraction expressions
// ------------------------------------------------------------------

/// Greatest common divisor.
pub open spec fn spec_gcd(a: nat, b: nat) -> nat
    decreases b,
{
    if b == 0 {
        a
    } else {
        spec_gcd(b, a % b)
    }
}

/// Computes the greatest common divisor of two nonnegative numbers.
fn gcd_u64(a: u64, b: u64) -> (r: u64)
    ensures
        r == spec_gcd(a as nat, b as nat),
    decreases b,
{
    if b == 0 {
        a
    } else {
        gcd_u64(b, a % b)
    }
}

/// Leading spaces removed.
pub open spec fn trim_sp_start(s: Seq<char>) -> Seq<char>
    decreases s.len(),
{
    if s.len() > 0 && s[0] == ' ' {
        trim_sp_start(s.drop_first())
    } else {
        s
    }
}

/// Trailing spaces removed.
pub open spec fn trim_sp_end(s: Seq<char>) -> Seq<char>
    decreases s.len(),
{
    if s.len() > 0 && s.last() == ' ' {
        trim_sp_end(s.drop_last())
    } else {
        s
    }
}

/// Surrounding spaces removed.
pub open spec fn trim_sp(s: Seq<char>) -> Seq<char> {
    trim_sp_end(trim_sp_start(s))
}

/// Shrinks `[lo, hi)` past surrounding spaces.
fn trim_range(v: &Vec<char>, lo: usize, hi: usize) -> (r: (usize, usize))
    requires
        lo <= hi <= v@.len(),
    ensures
        lo <= r.0 <= r.1 <= hi,
        v@.subrange(r.0 as int, r.1 as int) == trim_sp(v@.subrange(lo as int, hi as int)),
{
    let ghost orig = v@.subrange(lo as int, hi as int);
    let mut a = lo;
    while a < hi && v[a] == ' '
        invariant
            lo <= a <= hi <= v@.len(),
            trim_sp_start(v@.subrange(a as int, hi as int)) == trim_sp_start(orig),
            orig == v@.subrange(lo as int, hi as int),
        decreases hi - a,
    {
        proof {
            let cur = v@.subrange(a as int, hi as int);
            assert(cur[0] == v@[a as int]);
            assert(cur.drop_first() =~= v@.subrange(a + 1int, hi as int));
        }
        a = a + 1;
    }
    proof {
        let cur = v@.subrange(a as int, hi as int);
        if cur.len() > 0 {
            assert(cur[0] == v@[a as int]);
        }
        assert(trim_sp_start(cur) == cur);
    }
    let ghost mid = v@.subrange(a as int, hi as int);
    let mut z = hi;
    while z > a && v[z - 1] == ' '
        invariant
            a <= z <= hi <= v@.len(),
            trim_sp_end(v@.subrange(a as int, z as int)) == trim_sp_end(mid),
            mid == v@.subrange(a as int, hi as int),
        decreases z,
    {
        proof {
            let cur = v@.subrange(a as int, z as int);
            assert(cur.last() == v@[z - 1int]);
            assert(cur.drop_last() =~= v@.subrange(a as int, z - 1int));
        }
        z = z - 1;
    }
    proof {
        let cur = v@.subrange(a as int, z as int);
        if cur.len() > 0 {
            assert(cur.last() == v@[z - 1int]);
        }
        assert(trim_sp_end(cur) == cur);
    }
    (a, z)
}

/// The value a decimal segment denotes after trimming spaces, per the
/// single-character parse.
pub open spec fn spec_part_val(p: Seq<char>) -> Option<int> {
    crate::conversions::spec_parse_int36(trim_sp(p), 10)
}

/// Parses the trimmed decimal segment `v[lo..hi]` as an `i32`.
pub(crate) fn parse_part_i32(v: &Vec<char>, lo: usize, hi: usize) -> (r: Result<i32, ConvError>)
    requires
        lo <= hi <= v@.len(),
    ensures
        ({
            let pv = spec_part_val(v@.subrange(lo as int, hi as int));
            &&& (pv is None <==> r == Err::<i32, ConvError>(ConvError::MalformedRadixString))
            &&& (pv matches Some(x) ==> (r is Ok <==> -0x8000_0000 <= x <= 0x7fff_ffff) && (
            r matches Ok(q) ==> q == x) && (r is Err ==> r == Err::<i32, ConvError>(
                ConvError::PrecisionOverflow,
            )))
        }),
{
    let (a, z) = trim_range(v, lo, hi);
    let s = crate::conversions::vec_slice_string(v, a, z);
    crate::conversions::radix_to_decimal(s, 10)
}

// ------------------------------------------------------------------
// Decimal "N/D" parsing with reduction
// ------------------------------------------------------------------

/// Parses `N/D` (decimal, no spaces) and reduces the fraction: the
/// result denominator is `|D| / g` and the numerator carries the
/// fraction's sign, where `g` is the gcd of the magnitudes.
/// `MalformedRadixString` without exactly one `/` or with an
/// ill-formed side; `DivisionByZero` for a zero denominator;
/// `PrecisionOverflow` when a side leaves `i32`.
pub fn fraction_string_to_big_rational(number: String) -> (r: Result<(i32, i32), ConvError>)
    ensures
        ({
            let k = crate::conversions::find_char_at(number@, '/');
            let k2 = crate::conversions::find_char_at(number@.skip(k + 1), '/');
            let a = crate::conversions::spec_parse_int36(number@.take(k), 10);
            let c = crate::conversions::spec_parse_int36(number@.skip(k + 1), 10);
            &&& ((k < 0 || k2 >= 0 || a is None || c is None) <==> r == Err::<(i32, i32), ConvError>(
                ConvError::MalformedRadixString,
            ))
            &&& (r matches Ok((x, y)) ==> ({
                let av = a->Some_0;
                let cv = c->Some_0;
                let g = spec_gcd(abs(av), abs(cv)) as int;
                &&& cv != 0
                &&& y == abs(cv) as int / g
                &&& x == (if (av < 0) != (cv < 0) {
                    -(abs(av) as int / g)
                } else {
                    abs(av) as int / g
                })
            }))
            &&& (r is Err && r != Err::<(i32, i32), ConvError>(ConvError::MalformedRadixString)
                && r != Err::<(i32, i32), ConvError>(ConvError::DivisionByZero) ==> r == Err::<
                (i32, i32),
                ConvError,
            >(ConvError::PrecisionOverflow))
            &&& (k >= 0 && k2 < 0 && a is Some && c is Some && -0x8000_0000 <= a->Some_0
                <= 0x7fff_ffff && -0x8000_0000 <= c->Some_0 <= 0x7fff_ffff && c->Some_0 == 0 ==> r
                == Err::<(i32, i32), ConvError>(ConvError::DivisionByZero))
            &&& (r is Ok <==> (k >= 0 && k2 < 0 && a is Some && c is Some && -0x8000_0000
                <= a->Some_0 <= 0x7fff_ffff && -0x8000_0000 <= c->Some_0 <= 0x7fff_ffff
                && c->Some_0 != 0 && ({
                let av = a->Some_0;
                let cv = c->Some_0;
                let g = spec_gcd(abs(av), abs(cv)) as int;
                &&& abs(cv) as int / g <= 0x7fff_ffff
                &&& (if (av < 0) != (cv < 0) {
                    abs(av) as int / g <= 0x8000_0000
                } else {
                    abs(av) as int / g <= 0x7fff_ffff
                })
            })))
        }),
{
    let v = crate::conversions::str_chars(number.as_str());
    let n = v.len();
    proof {
        assert(v@.subrange(0int, n as int) =~= number@);
    }
    let k = match crate::conversions::find_char_range(&v, 0, n, '/') {
        Some(k) => k,
        None => {
            return Err(ConvError::MalformedRadixString);
        },
    };
    proof {
        assert(v@.subrange(0int, k as int) =~= number@.take(k as int));
        assert(v@.subrange(k + 1int, n as int) =~= number@.skip(k + 1int));
    }
    match crate::conversions::find_char_range(&v, k + 1, n, '/') {
        Some(_) => {
            return Err(ConvError::MalformedRadixString);
        },
        None => {
        },
    }
    let s1 = crate::conversions::vec_slice_string(&v, 0, k);
    let s2 = crate::conversions::vec_slice_string(&v, k + 1, n);
    let ar = crate::conversions::radix_to_decimal(s1, 10);
    let cr = crate::conversions::radix_to_decimal(s2, 10);
    if matches!(ar, Err(ConvError::MalformedRadixString)) || matches!(
        cr,
        Err(ConvError::MalformedRadixString),
    ) {
        return Err(ConvError::MalformedRadixString);
    }
    let av = match ar {
        Ok(x) => x,
        Err(_) => {
            return Err(ConvError::PrecisionOverflow);
        },
    };
    let cv = match cr {
        Ok(x) => x,
        Err(_) => {
            return Err(ConvError::PrecisionOverflow);
        },
    };
    if cv == 0 {
        return Err(ConvError::DivisionByZero);
    }
    let am: u64 = if av < 0 {
        (-(av as i64)) as u64
    } else {
        av as u64
    };
    let cm: u64 = if cv < 0 {
        (-(cv as i64)) as u64
    } else {
        cv as u64
    };
    proof {
        assert(am as nat == abs(av as int));
        assert(cm as nat == abs(cv as int));
        lemma_gcd_pos(am as nat, cm as nat);
        lemma_gcd_le(am as nat, cm as nat);
    }
    let g = gcd_u64(am, cm);
    proof {
        lemma_fundamental_div_mod(cm as int, g as int);
        lemma_mod_bound(cm as int, g as int);
        lemma_fundamental_div_mod(am as int, g as int);
        lemma_mod_bound(am as int, g as int);
        assert(cm as int / (g as int) <= cm) by (nonlinear_arith)
            requires
                cm as int == g as int * (cm as int / (g as int)) + cm as int % (g as int),
                0 <= cm as int % (g as int) < g,
                1 <= g,
        ;
        assert(am as int / (g as int) <= am) by (nonlinear_arith)
            requires
                am as int == g as int * (am as int / (g as int)) + am as int % (g as int),
                0 <= am as int % (g as int) < g,
                1 <= g,
        ;
    }
    let y64: u64 = cm / g;
    let x64: u64 = am / g;
    if y64 > 0x7fff_ffff || x64 > 0x8000_0000 {
        return Err(ConvError::PrecisionOverflow);
    }
    let neg = (av < 0) != (cv < 0);
    if x64 == 0x8000_0000 && !neg {
        return Err(ConvError::PrecisionOverflow);
    }
    let x: i32 = if neg {
        (-(x64 as i64)) as i32
    } else {
        x64 as i32
    };
    Ok((x, (y64 as i32)))
}

/// The gcd of a pair with a nonzero side is positive.
proof fn lemma_gcd_pos(a: nat, b: nat)
    requires
        a > 0 || b > 0,
    ensures
        spec_gcd(a, b) > 0,
    decreases b,
{
    if b > 0 {
        lemma_gcd_pos(b, a % b);
    }
}

/// The gcd never exceeds a nonzero argument's magnitude bound.
proof fn lemma_gcd_le(a: nat, b: nat)
    ensures
        spec_gcd(a, b) <= a || spec_gcd(a, b) <= b,
        a > 0 || b > 0 ==> spec_gcd(a, b) <= a + b,
    decreases b,
{
    if b > 0 {
        lemma_gcd_le(b, a % b);
    }
}

/// A status-wrapped approximation record, as handed to the boundary.
#[derive(Debug)]
pub struct RationalNumberSet {
    pub ratnum: RationalNumber,
    pub code: u16,
    pub msg: String,
}

impl RationalNumberSet {
    /// Wraps a record with the success status.
    pub fn new(ratnum: RationalNumber) -> (r: RationalNumberSet)
        ensures
            r.ratnum == ratnum,
            r.code == 200,
            r.msg@ =~= seq!['O', 'K'],
    {
        proof {
            reveal_strlit("OK");
        }
        RationalNumberSet { ratnum, code: 200, msg: String::from_str("OK") }
    }
}

/// `q` denotes the fraction `n / d` (cross multiplication; `d` may be
/// negative).
pub open spec fn rat_eq_frac(q: Rational, n: int, d: int) -> bool {
    q.num * d == n * q.den
}

} // verus!
