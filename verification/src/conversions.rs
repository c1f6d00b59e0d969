//! The radix converter: rendering integer and fractional magnitudes as
//! positional strings in an arbitrary base, and parsing them back.
//!
//! Bases up to 36 use the single-character alphabet `0`-`9`, `a`-`z`.
//! Bases above 36 use a grouped notation: each digit value is written as
//! a two-character decimal token (with a leading hundreds part for digit
//! values of 100 and more), tokens joined by `:`.
use vstd::prelude::*;
use vstd::arithmetic::div_mod::lemma_div_decreases;
use vstd::arithmetic::div_mod::lemma_fundamental_div_mod;
use vstd::arithmetic::div_mod::lemma_mod_bound;
use vstd::math::abs;
use crate::rational::ConvError;
use crate::rational::Rational;

verus! {

// ------------------------------------------------------------------
// Digit sequences
// ------------------------------------------------------------------

/// Big-endian digits of `n` in base `b` (canonical: no leading zero,
/// `0` itself is the single digit `0`).
pub open spec fn spec_digits_be(n: int, b: int) -> Seq<u32>
    decreases n, via spec_digits_be_dec
{
    if n < b || b < 2 || n < 0 {
        seq![n as u32]
    } else {
        spec_digits_be(n / b, b).push((n % b) as u32)
    }
}

#[via_fn]
proof fn spec_digits_be_dec(n: int, b: int) {
    if !(n < b || b < 2 || n < 0) {
        lemma_div_decreases(n, b);
    }
}

/// The value a big-endian digit sequence denotes in base `b`.
pub open spec fn fold_be(s: Seq<u32>, b: int) -> int
    decreases s.len(),
{
    if s.len() == 0 {
        0
    } else {
        fold_be(s.drop_last(), b) * b + s.last()
    }
}

/// Every digit lies in `[0, b)`.
pub open spec fn digits_ok(s: Seq<u32>, b: int) -> bool {
    forall|k: int| 0 <= k < s.len() ==> 0 <= #[trigger] s[k] < b
}

/// The canonical digits of `n` are in range, denote `n`, and carry no
/// leading zero.
pub proof fn lemma_digits_be_props(n: int, b: int)
    requires
        0 <= n,
        2 <= b <= 0x1_0000_0000,
    ensures
        spec_digits_be(n, b).len() >= 1,
        digits_ok(spec_digits_be(n, b), b),
        fold_be(spec_digits_be(n, b), b) == n,
        spec_digits_be(n, b).len() > 1 ==> spec_digits_be(n, b)[0] != 0,
        n < b ==> spec_digits_be(n, b).len() == 1,
        n >= b ==> spec_digits_be(n, b).len() > 1,
    decreases n,
{
    if n < b {
        let s = spec_digits_be(n, b);
        assert(s =~= seq![n as u32]);
        assert(s.drop_last() =~= Seq::<u32>::empty());
        assert(fold_be(Seq::<u32>::empty(), b) == 0);
        assert(fold_be(s, b) == fold_be(s.drop_last(), b) * b + s.last());
        assert(s.last() == n as u32);
        assert((n as u32) as int == n);
        assert(fold_be(s, b) == n);
    } else {
        lemma_div_decreases(n, b);
        vstd::arithmetic::div_mod::lemma_div_pos_is_pos(n, b);
        vstd::arithmetic::div_mod::lemma_div_non_zero(n, b);
        lemma_digits_be_props(n / b, b);
        let s = spec_digits_be(n, b);
        let h = spec_digits_be(n / b, b);
        assert(s == h.push((n % b) as u32));
        assert(s.drop_last() =~= h);
        lemma_fundamental_div_mod(n, b);
        assert(0 <= n % b < b) by {
            vstd::arithmetic::div_mod::lemma_mod_bound(n, b);
        }
        assert(s[0] == h[0]);
        if h.len() == 1 {
            assert(h[0] == h.last());
            assert(h.drop_last() =~= Seq::<u32>::empty());
            assert(fold_be(Seq::<u32>::empty(), b) == 0);
            assert(fold_be(h, b) == fold_be(h.drop_last(), b) * b + h.last());
        }
        assert(s.last() == (n % b) as u32);
        assert(((n % b) as u32) as int == n % b);
        assert(fold_be(s, b) == fold_be(s.drop_last(), b) * b + s.last());
        assert(fold_be(s, b) == (n / b) * b + n % b);
        assert(fold_be(s, b) == n);
    }
}

/// Canonical big-endian digits of `n` in base `b`.
fn digits_be_u128(n: u128, b: u32) -> (r: Vec<u32>)
    requires
        2 <= b,
    ensures
        r@ == spec_digits_be(n as int, b as int),
    decreases n,
{
    let bb = b as u128;
    if n < bb {
        let mut v: Vec<u32> = Vec::new();
        v.push(n as u32);
        assert(v@ =~= spec_digits_be(n as int, b as int));
        v
    } else {
        proof {
            lemma_div_decreases(n as int, b as int);
        }
        let mut v = digits_be_u128(n / bb, b);
        v.push((n % bb) as u32);
        assert(v@ =~= spec_digits_be(n as int, b as int));
        v
    }
}

// ------------------------------------------------------------------
// Rendering digits as text
// ------------------------------------------------------------------

/// The single character for a digit value below 36.
pub open spec fn nibble_char(d: u32) -> char {
    if d < 10 {
        ((d + 48) as u8) as char
    } else {
        ((d + 87) as u8) as char
    }
}

/// Decimal text of `n`.
pub open spec fn spec_dec_chars(n: u32) -> Seq<char>
    decreases n, via spec_dec_chars_dec
{
    if n < 10 {
        seq![nibble_char(n)]
    } else {
        spec_dec_chars((n / 10) as u32).push(nibble_char((n % 10) as u32))
    }
}

#[via_fn]
proof fn spec_dec_chars_dec(n: u32) {
    if n >= 10 {
        lemma_div_decreases(n as int, 10);
    }
}

/// Grouped-notation token for one digit value: two zero-padded decimal
/// characters, with the plain decimal text for values of 100 and more.
pub open spec fn group_chars(d: u32) -> Seq<char> {
    if d < 100 {
        seq![nibble_char((d / 10) as u32), nibble_char((d % 10) as u32)]
    } else {
        spec_dec_chars(d)
    }
}

/// Text of one digit value in base `b`.
pub open spec fn spec_digit_text(d: u32, b: int) -> Seq<char> {
    if b <= 36 {
        seq![nibble_char(d)]
    } else {
        group_chars(d)
    }
}

/// The separator between digit tokens: `:` for grouped bases only.
pub open spec fn spec_sep(b: int) -> Seq<char> {
    if b > 36 {
        seq![':']
    } else {
        Seq::<char>::empty()
    }
}

/// Text of a whole digit sequence in base `b`, tokens joined by the
/// base's separator.
pub open spec fn spec_render_digits(ds: Seq<u32>, b: int) -> Seq<char>
    decreases ds.len(),
{
    if ds.len() == 0 {
        Seq::<char>::empty()
    } else if ds.len() == 1 {
        spec_digit_text(ds[0], b)
    } else {
        spec_digit_text(ds[0], b) + spec_sep(b) + spec_render_digits(ds.drop_first(), b)
    }
}

/// Appending a digit appends a separator (if anything precedes) and the
/// digit's text.
pub proof fn lemma_render_push(s: Seq<u32>, b: int)
    requires
        s.len() >= 1,
    ensures
        spec_render_digits(s, b) == spec_render_digits(s.drop_last(), b) + (if s.len() > 1 {
            spec_sep(b)
        } else {
            Seq::<char>::empty()
        }) + spec_digit_text(s.last(), b),
    decreases s.len(),
{
    if s.len() == 1 {
        assert(spec_render_digits(s.drop_last(), b) + Seq::<char>::empty() + spec_digit_text(
            s.last(),
            b,
        ) =~= spec_digit_text(s[0], b));
    } else {
        let t = s.drop_first();
        lemma_render_push(t, b);
        assert(s.drop_last().drop_first() =~= t.drop_last());
        assert(s.drop_last()[0] == s[0]);
        if s.len() == 2 {
            assert(s.drop_last() =~= seq![s[0]]);
            assert(spec_render_digits(s.drop_last(), b) == spec_digit_text(s[0], b));
            assert(spec_render_digits(s, b) =~= spec_render_digits(s.drop_last(), b) + spec_sep(b)
                + spec_digit_text(s.last(), b));
        } else {
            assert(spec_render_digits(s, b) == spec_digit_text(s[0], b) + spec_sep(b)
                + spec_render_digits(t, b));
            assert(spec_render_digits(s.drop_last(), b) == spec_digit_text(s[0], b) + spec_sep(b)
                + spec_render_digits(t.drop_last(), b));
            assert(spec_render_digits(s, b) =~= spec_render_digits(s.drop_last(), b) + spec_sep(b)
                + spec_digit_text(s.last(), b));
        }
    }
}

/// Pushes the decimal text of `n` onto `out`.
fn push_dec_chars(out: &mut Vec<char>, n: u32)
    ensures
        final(out)@ == old(out)@ + spec_dec_chars(n),
    decreases n,
{
    if n < 10 {
        out.push(((n + 48) as u8) as char);
        assert(out@ =~= old(out)@ + spec_dec_chars(n));
    } else {
        proof {
            lemma_div_decreases(n as int, 10);
        }
        push_dec_chars(out, n / 10);
        let d = n % 10;
        out.push(((d + 48) as u8) as char);
        assert(out@ =~= old(out)@ + spec_dec_chars(n));
    }
}

/// Pushes the text of one digit value in base `b` onto `out`.
fn push_digit_text(out: &mut Vec<char>, d: u32, b: u32)
    requires
        2 <= b,
        d < b || d < 10,
    ensures
        final(out)@ == old(out)@ + spec_digit_text(d, b as int),
{
    if b <= 36 {
        if d < 10 {
            out.push(((d + 48) as u8) as char);
        } else {
            out.push(((d + 87) as u8) as char);
        }
        assert(out@ =~= old(out)@ + spec_digit_text(d, b as int));
    } else {
        if d < 100 {
            out.push((((d / 10) + 48) as u8) as char);
            out.push((((d % 10) + 48) as u8) as char);
            assert(out@ =~= old(out)@ + spec_digit_text(d, b as int));
        } else {
            push_dec_chars(out, d);
        }
    }
}

/// Pushes the joined text of a digit sequence in base `b` onto `out`.
fn push_digits_text(out: &mut Vec<char>, ds: &Vec<u32>, b: u32)
    requires
        2 <= b,
        digits_ok(ds@, b as int),
    ensures
        final(out)@ == old(out)@ + spec_render_digits(ds@, b as int),
{
    let n = ds.len();
    assert(out@ =~= old(out)@ + spec_render_digits(ds@.take(0int), b as int));
    for i in 0..n
        invariant
            2 <= b,
            n == ds@.len(),
            digits_ok(ds@, b as int),
            out@ == old(out)@ + spec_render_digits(ds@.take(i as int), b as int),
    {
        let ghost pre = out@;
        let ghost mid: Seq<char> = if i > 0 { spec_sep(b as int) } else { Seq::<char>::empty() };
        if i > 0 && b > 36 {
            out.push(':');
        }
        assert(out@ =~= pre + mid);
        assert(0 <= ds@[i as int] < b);
        push_digit_text(out, ds[i], b);
        assert(out@ == pre + mid + spec_digit_text(ds@[i as int], b as int));
        proof {
            let p = ds@.take(i + 1int);
            assert(p.drop_last() =~= ds@.take(i as int));
            assert(p.last() == ds@[i as int]);
            lemma_render_push(p, b as int);
            assert(spec_render_digits(p, b as int) == spec_render_digits(
                ds@.take(i as int),
                b as int,
            ) + mid + spec_digit_text(ds@[i as int], b as int));
            assert(pre + mid + spec_digit_text(ds@[i as int], b as int) =~= old(out)@
                + spec_render_digits(p, b as int));
            assert(out@ == old(out)@ + spec_render_digits(ds@.take(i + 1int), b as int));
        }
    }
    proof {
        assert(ds@.take(n as int) =~= ds@);
    }
}


// ------------------------------------------------------------------
// Integer magnitudes as radix strings
// ------------------------------------------------------------------

/// Text of the magnitude `mag` in base `b`, with a single leading `-`
/// when `neg` holds.
pub open spec fn spec_int_radix_str(mag: int, b: int, neg: bool) -> Seq<char> {
    (if neg {
        seq!['-']
    } else {
        Seq::<char>::empty()
    }) + spec_render_digits(spec_digits_be(mag, b), b)
}

/// The magnitude of `num` as a `u128`.
fn mag_u128(num: i128) -> (r: u128)
    ensures
        r as int == abs(num as int) as int,
{
    if num < 0 {
        ((-(num + 1)) as u128) + 1
    } else {
        num as u128
    }
}

/// Renders `|num|` in base `radix`, big-endian, prefixing one `-` when
/// `is_negative` holds; grouped notation above base 36.
pub fn integer_to_radix_string(num: i128, radix: u32, is_negative: bool) -> (r: String)
    requires
        2 <= radix,
    ensures
        r@ == spec_int_radix_str(abs(num as int) as int, radix as int, is_negative),
{
    let mag = mag_u128(num);
    let ds = digits_be_u128(mag, radix);
    let mut out: Vec<char> = Vec::new();
    if is_negative {
        out.push('-');
    }
    assert(out@ =~= if is_negative { seq!['-'] } else { Seq::<char>::empty() });
    proof {
        lemma_digits_be_props(mag as int, radix as int);
    }
    push_digits_text(&mut out, &ds, radix);
    chars_to_string(&out)
}

/// Same rendering as `integer_to_radix_string`.
pub fn decimal_to_radix(num: i128, radix: u32, is_negative: bool) -> (r: String)
    requires
        2 <= radix,
    ensures
        r@ == spec_int_radix_str(abs(num as int) as int, radix as int, is_negative),
{
    integer_to_radix_string(num, radix, is_negative)
}

/// Text of the single digit value `num` in base `radix`.
pub fn integer_to_radix_char(num: u32, radix: u32) -> (r: String)
    requires
        2 <= radix,
        num < radix,
    ensures
        r@ == spec_digit_text(num, radix as int),
{
    let mut out: Vec<char> = Vec::new();
    push_digit_text(&mut out, num, radix);
    assert(out@ =~= spec_digit_text(num, radix as int));
    chars_to_string(&out)
}

// ------------------------------------------------------------------
// Fractional-segment post-processing
// ------------------------------------------------------------------

/// Digits with the trailing zero digits removed.
pub open spec fn trim_zeros(s: Seq<u32>) -> Seq<u32>
    decreases s.len(),
{
    if s.len() > 0 && s.last() == 0 {
        trim_zeros(s.drop_last())
    } else {
        s
    }
}

/// At most eight digit groups are kept in a grouped fractional segment.
pub open spec fn cap_groups(s: Seq<u32>) -> Seq<u32> {
    if s.len() > 8 {
        s.take(8)
    } else {
        s
    }
}

/// The fractional-segment text for the scaled magnitude `v` in base
/// `b`: trailing zero digits dropped, and for grouped bases a
/// multi-group segment is first capped at eight groups.
pub open spec fn spec_fragment_digits(v: int, b: int) -> Seq<u32> {
    let ds = spec_digits_be(abs(v) as int, b);
    if b <= 36 {
        trim_zeros(ds)
    } else if ds.len() > 1 {
        trim_zeros(cap_groups(ds))
    } else {
        ds
    }
}

pub open spec fn spec_radix_fragment(v: int, b: int) -> Seq<char> {
    (if v < 0 {
        seq!['-']
    } else {
        Seq::<char>::empty()
    }) + spec_render_digits(spec_fragment_digits(v, b), b)
}

/// Removes trailing zero digits.
fn trim_zero_digits(ds: &mut Vec<u32>)
    ensures
        final(ds)@ == trim_zeros(old(ds)@),
{
    while ds.len() > 0 && ds[ds.len() - 1] == 0
        invariant
            trim_zeros(ds@) == trim_zeros(old(ds)@),
        decreases ds@.len(),
    {
        let ghost before = ds@;
        ds.pop();
        assert(ds@ =~= before.drop_last());
    }
    assert(trim_zeros(ds@) == ds@);
}

/// Renders the scaled fractional magnitude `large` in `base` and strips
/// the redundant tail: trailing `0` digits for single-character bases,
/// trailing `:00` groups (after capping at eight groups) for grouped
/// bases.
pub fn decimal_to_radix_string(large: i128, base: u32) -> (r: String)
    requires
        2 <= base,
    ensures
        r@ == spec_radix_fragment(large as int, base as int),
{
    let mag = mag_u128(large);
    let mut ds = digits_be_u128(mag, base);
    if base <= 36 {
        trim_zero_digits(&mut ds);
    } else if ds.len() > 1 {
        if ds.len() > 8 {
            ds.truncate(8);
            assert(ds@ =~= cap_groups(spec_digits_be(mag as int, base as int)));
        }
        assert(ds@ == cap_groups(spec_digits_be(mag as int, base as int)));
        trim_zero_digits(&mut ds);
    }
    proof {
        lemma_digits_be_props(mag as int, base as int);
        lemma_trim_zeros_ok(spec_digits_be(mag as int, base as int), base as int);
        lemma_trim_zeros_ok(cap_groups(spec_digits_be(mag as int, base as int)), base as int);
        lemma_cap_groups_ok(spec_digits_be(mag as int, base as int), base as int);
    }
    let mut out: Vec<char> = Vec::new();
    if large < 0 {
        out.push('-');
    }
    assert(out@ =~= if large < 0 { seq!['-'] } else { Seq::<char>::empty() });
    push_digits_text(&mut out, &ds, base);
    chars_to_string(&out)
}

/// Trimming keeps digits in range.
pub proof fn lemma_trim_zeros_ok(s: Seq<u32>, b: int)
    requires
        digits_ok(s, b),
    ensures
        digits_ok(trim_zeros(s), b),
        trim_zeros(s).len() <= s.len(),
        forall|k: int| 0 <= k < trim_zeros(s).len() ==> trim_zeros(s)[k] == s[k],
    decreases s.len(),
{
    if s.len() > 0 && s.last() == 0 {
        lemma_trim_zeros_ok(s.drop_last(), b);
        assert forall|k: int| 0 <= k < trim_zeros(s).len() implies trim_zeros(s)[k] == s[k] by {
            assert(trim_zeros(s) == trim_zeros(s.drop_last()));
            assert(trim_zeros(s.drop_last())[k] == s.drop_last()[k]);
            assert(s.drop_last()[k] == s[k]);
        }
    }
}

/// Capping keeps digits in range.
pub proof fn lemma_cap_groups_ok(s: Seq<u32>, b: int)
    requires
        digits_ok(s, b),
    ensures
        digits_ok(cap_groups(s), b),
{
}


// ------------------------------------------------------------------
// Mixed-number rendering in an arbitrary base
// ------------------------------------------------------------------

/// Renders `numer/denom` as a mixed number in base `radix`: whole part
/// when nonzero, then ` ` and `remainder/denominator` when the
/// remainder is nonzero; the numerator's sign marks both parts, the
/// denominator stays unsigned.  Fails with `InvalidBase` for a base
/// below 2 and `DivisionByZero` for a zero denominator.
pub fn fraction_to_units(numer: i32, denom: i32, radix: u32) -> (r: Result<String, ConvError>)
    ensures
        r is Ok <==> (denom != 0 && radix >= 2),
        r matches Ok(s) ==> s@ == crate::fractions::spec_mixed(
            numer as int,
            denom as int,
            radix as int,
        ),
        radix < 2 ==> r == Err::<String, ConvError>(ConvError::InvalidBase),
        radix >= 2 && denom == 0 ==> r == Err::<String, ConvError>(ConvError::DivisionByZero),
{
    if radix < 2 {
        return Err(ConvError::InvalidBase);
    }
    if denom == 0 {
        return Err(ConvError::DivisionByZero);
    }
    let neg = numer < 0;
    let m: i128 = if numer < 0 {
        -(numer as i128)
    } else {
        numer as i128
    };
    let d: i128 = if denom < 0 {
        -(denom as i128)
    } else {
        denom as i128
    };
    let u: i128 = m / d;
    let rm: i128 = m % d;
    proof {
        lemma_fundamental_div_mod(m as int, d as int);
        vstd::arithmetic::div_mod::lemma_mod_bound(m as int, d as int);
        reveal_strlit(" ");
        reveal_strlit("/");
    }
    let mut out = String::new();
    if u > 0 {
        let units = decimal_to_radix(u, radix, neg);
        out.append(units.as_str());
    }
    if rm > 0 {
        if u > 0 {
            out.append(" ");
        }
        let rs = decimal_to_radix(rm, radix, neg);
        out.append(rs.as_str());
        out.append("/");
        let dstr = decimal_to_radix(d, radix, false);
        out.append(dstr.as_str());
    }
    assert(out@ =~= crate::fractions::spec_mixed(numer as int, denom as int, radix as int));
    Ok(out)
}


// ------------------------------------------------------------------
// Encoding a value: fractional-part policy
// ------------------------------------------------------------------

/// One quadrillion: the 15-decimal-digit re-quantization grid.
pub const QUANT: i128 = 1000000000000000;

/// The fractional digit budget for base `b`: a policy table, not a
/// derivation.  Small bases (< 25) anchor at 20; mid-size bases use
/// two thirds of the base, large bases four sevenths; half the base is
/// subtracted to control magnitude growth.
pub open spec fn spec_dec_len(b: int) -> int {
    (if b < 25 {
        20
    } else if b < 40 {
        b * 2 / 3
    } else {
        b * 4 / 7
    }) - b / 2
}

/// The digit budget, computed.
pub fn calculate_digit_budget(base: u32) -> (r: u32)
    requires
        2 <= base,
    ensures
        r == spec_dec_len(base as int),
        1 <= r,
{
    let b = base as u64;
    proof {
        lemma_fundamental_div_mod(2 * (b as int), 3);
        lemma_mod_bound(2 * (b as int), 3);
        lemma_fundamental_div_mod(4 * (b as int), 7);
        lemma_mod_bound(4 * (b as int), 7);
        lemma_fundamental_div_mod(b as int, 2);
        lemma_mod_bound(b as int, 2);
        assert(b as int * 2 == 2 * (b as int));
        assert(b as int * 4 == 4 * (b as int));
    }
    let start: u64 = if base < 25 {
        20
    } else if base < 40 {
        b * 2 / 3
    } else {
        b * 4 / 7
    };
    (start - b / 2) as u32
}

/// The scale factor for the fractional part in `base`: the base
/// raised to its digit budget.  Fails with `PrecisionOverflow` exactly
/// when the factor leaves the value cap.
pub fn calculate_radix_multiple_for_pv(base: u32) -> (r: Result<u128, ConvError>)
    requires
        2 <= base,
    ensures
        ({
            let p = vstd::arithmetic::power::pow(base as int, spec_dec_len(base as int) as nat);
            &&& (r is Ok <==> p <= crate::rational::VAL_CAP)
            &&& (r matches Ok(x) ==> x == p)
            &&& (r is Err ==> r == Err::<u128, ConvError>(ConvError::PrecisionOverflow))
        }),
{
    let budget = calculate_digit_budget(base);
    match pow_capped(base, budget as usize) {
        Ok(x) => Ok(x as u128),
        Err(e) => Err(e),
    }
}

/// Ceiling of `f * QUANT / fd`: the fraction snapped up to the
/// 15-decimal-digit grid.
pub open spec fn spec_quant_num(f: int, fd: int) -> int {
    (f * 1000000000000000 + fd - 1) / fd
}

/// The cleaned fractional remainder `(num, den)` of `f / fd`: first
/// the noise cleanup (when the depth-512 search finds a denominator
/// strictly between 2 and 256 with residual below `1/512` and a
/// proper positive numerator, the remainder is replaced by that
/// fraction), then, in every case, re-quantization at 15 decimal
/// digits, rounding up.
pub open spec fn spec_clean_frac(f: int, fd: int) -> (int, int) {
    let fa = crate::fractions::first_accept(f, fd, 512);
    let sn = crate::fractions::round_div(f * fa, fd);
    let en = crate::fractions::approx_err_num(f, fd, 512);
    if fa != 0 && 2 < fa && fa < 256 && en * 512 < fd && 0 < sn && sn < fa {
        (spec_quant_num(sn, fa), 1000000000000000)
    } else {
        (spec_quant_num(f, fd), 1000000000000000)
    }
}

/// The cleaned fraction of `|vn| / vd`, as a pair; `(0, 1)` for a
/// whole value.
pub open spec fn spec_extract(vn: int, vd: int) -> (int, int) {
    let f = abs(vn) as int % vd;
    if f == 0 {
        (0, 1)
    } else {
        spec_clean_frac(f, vd)
    }
}

/// Cleans the fractional remainder of `dec_num` per the policy above
/// and returns it as an exact rational (`0/1` for a whole value).  The
/// result numerator may equal the denominator when re-quantization
/// rounds a near-integer fraction all the way up.
pub fn extract_decimals(dec_num: &Rational) -> (r: Rational)
    requires
        dec_num.small(),
    ensures
        r.num == spec_extract(dec_num.num as int, dec_num.den as int).0,
        r.den == spec_extract(dec_num.num as int, dec_num.den as int).1,
        0 <= r.num <= r.den,
        1 <= r.den <= 1000000000000000,
        r.num == 0 <==> abs(dec_num.num as int) as int % (dec_num.den as int) == 0,
{
    let vd = dec_num.den;
    let m: i128 = if dec_num.num < 0 {
        -dec_num.num
    } else {
        dec_num.num
    };
    let f = m % vd;
    proof {
        lemma_mod_bound(m as int, vd as int);
    }
    if f == 0 {
        return Rational { num: 0, den: 1 };
    }
    let frac = Rational { num: f, den: vd };
    proof {
        lemma_approx_frac_small(f as int, vd as int);
    }
    let sr = crate::fractions::float_to_fraction(&frac, 512);
    match sr {
        Ok((sn, sd, e)) => {
            if sd > 2 && sd < 256 && e.num * 512 < vd && 0 < sn && (sn as i128) < (sd as i128) {
                assert(e.num * 512 < vd);
                quantize_frac(sn as i128, sd as i128)
            } else {
                quantize_frac(f, vd)
            }
        },
        Err(_) => {
            proof {
                assert(false);
            }
            Rational { num: 0, den: 1 }
        },
    }
}

/// `ceil(f * QUANT / fd) / QUANT`, exactly.
fn quantize_frac(f: i128, fd: i128) -> (r: Rational)
    requires
        1 <= f <= fd,
        fd <= crate::rational::VAL_CAP,
    ensures
        r.num == spec_quant_num(f as int, fd as int),
        r.den == 1000000000000000,
        1 <= r.num <= r.den,
{
    proof {
        assert(0 <= f * 1000000000000000 <= fd * 1000000000000000 && fd * 1000000000000000
            <= crate::rational::VAL_CAP * 1000000000000000) by (nonlinear_arith)
            requires
                1 <= f <= fd,
                fd <= crate::rational::VAL_CAP,
        ;
    }
    let t: i128 = f * 1000000000000000 + fd - 1;
    let q: i128 = t / fd;
    proof {
        lemma_fundamental_div_mod(t as int, fd as int);
        lemma_mod_bound(t as int, fd as int);
        let qq = t as int / fd as int;
        assert(1 <= qq <= 1000000000000000) by (nonlinear_arith)
            requires
                t as int == fd as int * qq + t as int % (fd as int),
                0 <= t as int % (fd as int) < fd as int,
                1 <= f <= fd,
                t as int == f as int * 1000000000000000 + fd - 1,
        ;
    }
    Rational { num: q, den: 1000000000000000 }
}

/// The depth-512 search on a proper fraction stays within `i32`.
proof fn lemma_approx_frac_small(f: int, fd: int)
    requires
        1 <= f < fd,
    ensures
        0 <= crate::fractions::approx_numer(f, fd, 512) <= 513,
        ({
            let fa = crate::fractions::first_accept(f, fd, 512);
            fa != 0 ==> crate::fractions::approx_numer(f, fd, 512) == crate::fractions::round_div(
                f * fa,
                fd,
            )
        }),
{
    let fa = crate::fractions::first_accept(f, fd, 512);
    crate::fractions::lemma_first_accept_range(f, fd, 512, 1);
    if fa == 0 {
        assert(f / fd == 0) by {
            vstd::arithmetic::div_mod::lemma_basic_div(f, fd);
        }
    } else {
        let m = f * fa;
        assert(0 <= m < fd * 513) by (nonlinear_arith)
            requires
                m == f * fa,
                1 <= f < fd,
                1 <= fa <= 512,
        ;
        lemma_fundamental_div_mod(m, fd);
        lemma_mod_bound(m, fd);
        let q = m / fd;
        assert(0 <= q < 513) by (nonlinear_arith)
            requires
                m == fd * q + m % fd,
                0 <= m % fd < fd,
                0 <= m < fd * 513,
                1 <= fd,
        ;
        assert(abs(m) == m);
    }
}


// ------------------------------------------------------------------
// Fractional digit window
// ------------------------------------------------------------------

/// The first `cnt` base-`b` fractional digits of `f / fd`, by exact
/// long division.
pub open spec fn spec_frac_window(f: int, fd: int, b: int, cnt: int) -> Seq<u32>
    decreases cnt,
{
    if cnt <= 0 {
        Seq::<u32>::empty()
    } else {
        seq![((f * b) / fd) as u32] + spec_frac_window((f * b) % fd, fd, b, cnt - 1)
    }
}

/// Computes the digit window.
fn frac_window(f: i128, fd: i128, b: u32, cnt: u32) -> (r: Vec<u32>)
    requires
        0 <= f < fd <= 1000000000000000,
        2 <= b,
    ensures
        r@ == spec_frac_window(f as int, fd as int, b as int, cnt as int),
        digits_ok(r@, b as int),
        r@.len() == cnt,
{
    let mut v: Vec<u32> = Vec::new();
    let mut cur: i128 = f;
    let mut j: u32 = 0;
    while j < cnt
        invariant
            0 <= cur < fd <= 1000000000000000,
            2 <= b,
            0 <= j <= cnt,
            digits_ok(v@, b as int),
            v@.len() == j,
            v@ + spec_frac_window(cur as int, fd as int, b as int, cnt as int - j) == spec_frac_window(
                f as int,
                fd as int,
                b as int,
                cnt as int,
            ),
        decreases cnt as int - j,
    {
        proof {
            assert(0 <= cur * b && cur * b < fd * b && fd * b <= 1000000000000000 * 4294967296)
                by (nonlinear_arith)
                requires
                    0 <= cur < fd,
                    fd <= 1000000000000000,
                    2 <= b <= 4294967295,
            ;
        }
        let t: i128 = cur * (b as i128);
        let d: i128 = t / fd;
        let nr: i128 = t % fd;
        proof {
            lemma_fundamental_div_mod(t as int, fd as int);
            lemma_mod_bound(t as int, fd as int);
            assert(0 <= (t as int) / (fd as int) < b) by (nonlinear_arith)
                requires
                    t as int == fd as int * ((t as int) / (fd as int)) + (t as int) % (fd as int),
                    0 <= (t as int) % (fd as int) < fd,
                    t < fd * b,
                    0 <= t,
                    1 <= fd,
            ;
        }
        let ghost prev = v@;
        v.push(d as u32);
        proof {
            let c = cnt as int - j;
            assert(spec_frac_window(cur as int, fd as int, b as int, c) == seq![d as u32]
                + spec_frac_window(nr as int, fd as int, b as int, c - 1));
            assert(v@ + spec_frac_window(nr as int, fd as int, b as int, c - 1) =~= prev
                + spec_frac_window(cur as int, fd as int, b as int, c));
        }
        cur = nr;
        j = j + 1;
    }
    proof {
        assert(v@ + spec_frac_window(cur as int, fd as int, b as int, 0) =~= v@);
    }
    v
}

/// Digits with the leading zero digits removed.
pub open spec fn drop_leading_zeros(s: Seq<u32>) -> Seq<u32>
    decreases s.len(),
{
    if s.len() > 0 && s[0] == 0 {
        drop_leading_zeros(s.drop_first())
    } else {
        s
    }
}

/// The digits kept for the fractional segment, out of a digit window
/// `w`: leading zeros dropped (they are re-emitted separately), the
/// rest trimmed of trailing zeros, with a grouped multi-group segment
/// first capped at eight groups.  An all-zero window keeps nothing for
/// single-character bases and one zero group for grouped bases.
pub open spec fn spec_radval_from(w: Seq<u32>, b: int) -> Seq<u32> {
    let nz = drop_leading_zeros(w);
    if nz.len() == 0 {
        if b <= 36 {
            Seq::<u32>::empty()
        } else {
            seq![0u32]
        }
    } else if b <= 36 {
        trim_zeros(nz)
    } else if nz.len() > 1 {
        trim_zeros(cap_groups(nz))
    } else {
        nz
    }
}

/// The fractional-segment digits of the fraction `f / fd` in base `b`.
pub open spec fn spec_radval_digits(f: int, fd: int, b: int) -> Seq<u32> {
    spec_radval_from(spec_frac_window(f, fd, b, spec_dec_len(b)), b)
}

/// Computes the kept fractional-segment digits from a window.
fn radval_from_window(w: &Vec<u32>, b: u32) -> (r: Vec<u32>)
    requires
        2 <= b,
        digits_ok(w@, b as int),
    ensures
        r@ == spec_radval_from(w@, b as int),
        digits_ok(r@, b as int),
{
    let n = w.len();
    let mut i: usize = 0;
    assert(w@.skip(0int) =~= w@);
    while i < n && w[i] == 0
        invariant
            0 <= i <= n,
            n == w@.len(),
            digits_ok(w@, b as int),
            drop_leading_zeros(w@) == drop_leading_zeros(w@.skip(i as int)),
        decreases n - i,
    {
        proof {
            let sk = w@.skip(i as int);
            assert(sk[0] == w@[i as int]);
            assert(sk.drop_first() =~= w@.skip(i + 1int));
        }
        i = i + 1;
    }
    proof {
        if i < n {
            assert(w@.skip(i as int)[0] == w@[i as int]);
            assert(drop_leading_zeros(w@.skip(i as int)) == w@.skip(i as int));
        } else {
            assert(w@.skip(i as int) =~= Seq::<u32>::empty());
            assert(drop_leading_zeros(w@) =~= Seq::<u32>::empty());
        }
    }
    let mut nz: Vec<u32> = Vec::new();
    let mut j: usize = i;
    while j < n
        invariant
            0 <= i <= j <= n,
            n == w@.len(),
            digits_ok(w@, b as int),
            nz@ == w@.subrange(i as int, j as int),
        decreases n - j,
    {
        nz.push(w[j]);
        proof {
            assert(nz@ =~= w@.subrange(i as int, j + 1int));
        }
        j = j + 1;
    }
    proof {
        assert(nz@ =~= w@.skip(i as int));
        assert(digits_ok(nz@, b as int));
    }
    if nz.len() == 0 {
        let mut r: Vec<u32> = Vec::new();
        if b > 36 {
            r.push(0);
            assert(r@ =~= seq![0u32]);
        } else {
            assert(r@ =~= Seq::<u32>::empty());
        }
        r
    } else if b <= 36 {
        let mut r = nz;
        trim_zero_digits(&mut r);
        proof {
            lemma_trim_zeros_ok(nz@, b as int);
        }
        r
    } else if nz.len() > 1 {
        let mut r = nz;
        if r.len() > 8 {
            r.truncate(8);
            assert(r@ =~= cap_groups(nz@));
        }
        assert(r@ == cap_groups(nz@));
        trim_zero_digits(&mut r);
        proof {
            lemma_trim_zeros_ok(cap_groups(nz@), b as int);
            lemma_cap_groups_ok(nz@, b as int);
        }
        r
    } else {
        nz
    }
}

// ------------------------------------------------------------------
// Leading zeros of the fractional segment
// ------------------------------------------------------------------

/// How many times `acc` must be multiplied by `b` to reach `fd`.
pub open spec fn count_scale(acc: int, fd: int, b: int) -> int
    decreases vstd::math::max(fd - acc, 0int), via count_scale_dec
{
    if acc <= 0 || b < 2 || acc >= fd {
        0
    } else {
        1 + count_scale(acc * b, fd, b)
    }
}

#[via_fn]
proof fn count_scale_dec(acc: int, fd: int, b: int) {
    if !(acc <= 0 || b < 2 || acc >= fd) {
        assert(acc * b >= acc + acc) by (nonlinear_arith)
            requires
                acc >= 1,
                b >= 2,
        ;
        assert(vstd::math::max(fd - acc * b, 0int) < vstd::math::max(fd - acc, 0int));
    }
}

/// The number of zero digits between the point and the first kept
/// digit of the fraction `f / fd` in base `b`, that is
/// `ceil(log_b(fd/f)) - 1` computed exactly.
pub open spec fn spec_num_zeroes(f: int, fd: int, b: int) -> int {
    count_scale(f, fd, b) - 1
}

/// The text of `k` leading zero digits: `0` characters for
/// single-character bases, `00:` tokens for grouped bases.
pub open spec fn spec_zeros_text(k: int, b: int) -> Seq<char>
    decreases k,
{
    if k <= 0 {
        Seq::<char>::empty()
    } else {
        (if b <= 36 {
            seq!['0']
        } else {
            seq!['0', '0', ':']
        }) + spec_zeros_text(k - 1, b)
    }
}

/// Appending one more zero token on the right.
proof fn lemma_zeros_push(k: int, b: int)
    requires
        k >= 0,
    ensures
        spec_zeros_text(k + 1, b) == spec_zeros_text(k, b) + (if b <= 36 {
            seq!['0']
        } else {
            seq!['0', '0', ':']
        }),
    decreases k,
{
    let piece: Seq<char> = if b <= 36 {
        seq!['0']
    } else {
        seq!['0', '0', ':']
    };
    if k == 0 {
        assert(spec_zeros_text(1, b) =~= spec_zeros_text(0, b) + piece);
    } else {
        lemma_zeros_push(k - 1, b);
        assert(spec_zeros_text(k + 1, b) == piece + spec_zeros_text(k, b));
        assert(spec_zeros_text(k, b) == piece + spec_zeros_text(k - 1, b));
        assert(piece + (spec_zeros_text(k - 1, b) + piece) =~= (piece + spec_zeros_text(k - 1, b))
            + piece);
    }
}


// ------------------------------------------------------------------
// One value split for encoding
// ------------------------------------------------------------------

/// `count_scale` is never negative.
pub proof fn lemma_count_scale_nonneg(acc: int, fd: int, b: int)
    ensures
        count_scale(acc, fd, b) >= 0,
    decreases vstd::math::max(fd - acc, 0int),
{
    if !(acc <= 0 || b < 2 || acc >= fd) {
        assert(acc * b >= acc + acc) by (nonlinear_arith)
            requires
                acc >= 1,
                b >= 2,
        ;
        lemma_count_scale_nonneg(acc * b, fd, b);
    }
}

/// A value split for encoding: the signed integer part, the cleaned
/// fractional remainder, its rendered digit segment, the base, the
/// fractional digit budget, and the sign.
pub struct DecimalPart {
    pub integer: i128,
    pub decimals: Rational,
    pub radval: String,
    pub base: u32,
    pub frac_digits: u32,
    pub is_negative: bool,
}

impl DecimalPart {
    /// Internal coherence of a split.
    pub open spec fn wf(self) -> bool {
        &&& 2 <= self.base
        &&& 1 <= self.decimals.den <= 1000000000000000
        &&& 0 <= self.decimals.num < self.decimals.den
        &&& self.frac_digits == spec_dec_len(self.base as int)
        &&& self.radval@ == spec_render_digits(
            spec_radval_digits(
                self.decimals.num as int,
                self.decimals.den as int,
                self.base as int,
            ),
            self.base as int,
        )
    }

    /// Splits `dec_num` for base `base`: truncated integer part, sign,
    /// cleaned fractional remainder and its digit segment.  A cleaned
    /// remainder that re-quantizes all the way up to one is carried
    /// into the integer part.  Fails with `InvalidBase` exactly for
    /// bases below 2.
    pub fn new(dec_num: &Rational, base: u32) -> (r: Result<DecimalPart, ConvError>)
        requires
            dec_num.small(),
        ensures
            r is Ok <==> base >= 2,
            r is Err ==> r == Err::<DecimalPart, ConvError>(ConvError::InvalidBase),
            r matches Ok(dp) ==> {
                let vn = dec_num.num as int;
                let vd = dec_num.den as int;
                let ext = spec_extract(vn, vd);
                let carry = ext.0 == ext.1 && ext.0 != 0;
                &&& dp.wf()
                &&& dp.base == base
                &&& dp.is_negative == (vn < 0)
                &&& dp.integer as int == (if vn < 0 {
                    -(abs(vn) as int / vd + (if carry { 1int } else { 0int }))
                } else {
                    abs(vn) as int / vd + (if carry { 1int } else { 0int })
                })
                &&& dp.decimals.num as int == (if carry { 0int } else { ext.0 })
                &&& dp.decimals.den as int == (if carry { 1int } else { ext.1 })
                &&& dp.frac_digits == spec_dec_len(base as int)
            },
    {
        if base < 2 {
            return Err(ConvError::InvalidBase);
        }
        let vd = dec_num.den;
        let m: i128 = if dec_num.num < 0 {
            -dec_num.num
        } else {
            dec_num.num
        };
        let mut ip: i128 = m / vd;
        proof {
            lemma_fundamental_div_mod(m as int, vd as int);
            lemma_mod_bound(m as int, vd as int);
            assert(0 <= m as int / (vd as int) <= m) by (nonlinear_arith)
                requires
                    m as int == vd as int * (m as int / (vd as int)) + (m as int) % (vd as int),
                    0 <= (m as int) % (vd as int) < vd,
                    0 <= m,
                    1 <= vd,
            ;
        }
        let mut dec = extract_decimals(dec_num);
        if dec.num == dec.den {
            ip = ip + 1;
            dec = Rational { num: 0, den: 1 };
        }
        let budget = calculate_digit_budget(base);
        let w = frac_window(dec.num, dec.den, base, budget);
        let kept = radval_from_window(&w, base);
        let mut chars: Vec<char> = Vec::new();
        push_digits_text(&mut chars, &kept, base);
        assert(chars@ =~= spec_render_digits(
            spec_radval_digits(dec.num as int, dec.den as int, base as int),
            base as int,
        ));
        let radval = chars_to_string(&chars);
        let integer: i128 = if dec_num.num < 0 {
            -ip
        } else {
            ip
        };
        Ok(
            DecimalPart {
                integer,
                decimals: dec,
                radval,
                base,
                frac_digits: budget,
                is_negative: dec_num.num < 0,
            },
        )
    }

    /// The zero digits owed between the point and the first kept digit.
    pub fn num_zeroes(&self) -> (r: u64)
        requires
            self.wf(),
            self.decimals.num > 0,
        ensures
            r == spec_num_zeroes(
                self.decimals.num as int,
                self.decimals.den as int,
                self.base as int,
            ),
    {
        let fd = self.decimals.den;
        let b = self.base as i128;
        let mut acc: i128 = self.decimals.num;
        let mut t: u64 = 0;
        proof {
            vstd::arithmetic::power2::lemma2_to64();
        }
        while acc < fd
            invariant
                1 <= acc,
                1 <= fd <= 1000000000000000,
                2 <= self.base,
                b == self.base as i128,
                acc >= vstd::arithmetic::power2::pow2(t as nat),
                count_scale(self.decimals.num as int, fd as int, self.base as int) == t
                    + count_scale(acc as int, fd as int, self.base as int),
                t <= 50,
            decreases vstd::math::max(fd as int - acc, 0int),
        {
            proof {
                vstd::arithmetic::power2::lemma2_to64();
                vstd::arithmetic::power2::lemma2_to64_rest();
                assert(acc < 1125899906842624);
                assert(vstd::arithmetic::power2::pow2(50) == 0x4000000000000);
                if t >= 50 {
                    assert(vstd::arithmetic::power2::pow2(t as nat) >= vstd::arithmetic::power2::pow2(
                        50,
                    )) by {
                        if t > 50 {
                            vstd::arithmetic::power2::lemma_pow2_strictly_increases(
                                50,
                                t as nat,
                            );
                        }
                    }
                    assert(false);
                }
                assert(acc * b >= acc + acc && acc * b <= 1000000000000000 * 4294967296)
                    by (nonlinear_arith)
                    requires
                        1 <= acc,
                        2 <= b <= 4294967296,
                        acc < 1000000000000001,
                ;
                vstd::arithmetic::power2::lemma_pow2_unfold((t + 1) as nat);
            }
            acc = acc * b;
            t = t + 1;
        }
        proof {
            let nn = self.decimals.num as int;
            let ff = fd as int;
            let bb = self.base as int;
            assert(count_scale(acc as int, ff, bb) == 0);
            assert(count_scale(nn, ff, bb) == 1 + count_scale(nn * bb, ff, bb));
            lemma_count_scale_nonneg(nn * bb, ff, bb);
        }
        t - 1
    }

    /// The rendered text of the split: integer part (with its sign),
    /// then `.`, the owed zero digits and the kept fractional digits --
    /// the fractional segment omitted entirely for a whole value.
    pub fn to_string(&self) -> (r: String)
        requires
            self.wf(),
        ensures
            r@ == spec_int_radix_str(
                abs(self.integer as int) as int,
                self.base as int,
                self.is_negative,
            ) + (if self.decimals.num != 0 {
                seq!['.'] + spec_zeros_text(
                    spec_num_zeroes(
                        self.decimals.num as int,
                        self.decimals.den as int,
                        self.base as int,
                    ),
                    self.base as int,
                ) + self.radval@
            } else {
                Seq::<char>::empty()
            }),
    {
        let mut out = decimal_to_radix(self.integer, self.base, self.is_negative);
        if self.decimals.num != 0 {
            proof {
                reveal_strlit(".");
                reveal_strlit("0");
                reveal_strlit("00:");
            }
            out.append(".");
            let k = self.num_zeroes();
            let ghost kk = spec_num_zeroes(
                self.decimals.num as int,
                self.decimals.den as int,
                self.base as int,
            );
            let mut j: u64 = 0;
            let ghost mid = out@;
            assert(out@ =~= mid + spec_zeros_text(0, self.base as int));
            while j < k
                invariant
                    0 <= j <= k,
                    k == kk,
                    2 <= self.base,
                    out@ == mid + spec_zeros_text(j as int, self.base as int),
                decreases k - j,
            {
                proof {
                    reveal_strlit("0");
                    reveal_strlit("00:");
                }
                if self.base <= 36 {
                    out.append("0");
                    assert(out@ =~= mid + spec_zeros_text(j as int, self.base as int)
                        + seq!['0']);
                } else {
                    out.append("00:");
                    assert(out@ =~= mid + spec_zeros_text(j as int, self.base as int)
                        + seq!['0', '0', ':']);
                }
                proof {
                    lemma_zeros_push(j as int, self.base as int);
                    assert(out@ =~= mid + spec_zeros_text(j as int + 1, self.base as int));
                }
                j = j + 1;
            }
            out.append(self.radval.as_str());
            assert(out@ =~= spec_int_radix_str(
                abs(self.integer as int) as int,
                self.base as int,
                self.is_negative,
            ) + (seq!['.'] + spec_zeros_text(kk, self.base as int) + self.radval@));
        } else {
            assert(out@ =~= spec_int_radix_str(
                abs(self.integer as int) as int,
                self.base as int,
                self.is_negative,
            ) + Seq::<char>::empty());
        }
        out
    }
}

/// The full encoded text of `vn/vd` in base `b`.
pub open spec fn spec_encode(vn: int, vd: int, b: int) -> Seq<char> {
    let ext = spec_extract(vn, vd);
    let carry = ext.0 == ext.1 && ext.0 != 0;
    let mag = abs(vn) as int / vd + (if carry {
        1int
    } else {
        0int
    });
    let dn = if carry {
        0int
    } else {
        ext.0
    };
    let dd = if carry {
        1int
    } else {
        ext.1
    };
    spec_int_radix_str(mag, b, vn < 0) + (if dn != 0 {
        seq!['.'] + spec_zeros_text(spec_num_zeroes(dn, dd, b), b) + spec_render_digits(
            spec_radval_digits(dn, dd, b),
            b,
        )
    } else {
        Seq::<char>::empty()
    })
}

/// Encodes the value `num` as a positional string in base `radix`:
/// integer part, then a `.` and the fractional digits when the cleaned
/// fractional remainder is nonzero.  Fails with `InvalidBase` exactly
/// for bases below 2.
pub fn decimal_to_radix_pv(num: &Rational, radix: u32) -> (r: Result<String, ConvError>)
    requires
        num.small(),
    ensures
        r is Ok <==> radix >= 2,
        r is Err ==> r == Err::<String, ConvError>(ConvError::InvalidBase),
        r matches Ok(s) ==> s@ == spec_encode(num.num as int, num.den as int, radix as int),
{
    match DecimalPart::new(num, radix) {
        Ok(dp) => {
            let s = dp.to_string();
            assert(s@ =~= spec_encode(num.num as int, num.den as int, radix as int));
            Ok(s)
        },
        Err(e) => Err(e),
    }
}


// ------------------------------------------------------------------
// Parsing radix strings
// ------------------------------------------------------------------

/// Digit value of one character (`0`-`9`, `a`-`z`, `A`-`Z`); `-1` for
/// anything else.
pub open spec fn char_val(c: char) -> int {
    if 48 <= c as int && c as int <= 57 {
        c as int - 48
    } else if 97 <= c as int && c as int <= 122 {
        c as int - 87
    } else if 65 <= c as int && c as int <= 90 {
        c as int - 55
    } else {
        -1
    }
}

/// Every character is a digit of base `b`.
pub open spec fn digits_valid(s: Seq<char>, b: int) -> bool {
    forall|k: int| 0 <= k < s.len() ==> 0 <= #[trigger] char_val(s[k]) < b
}

/// The value of a digit string, folded from the left over `acc`.
pub open spec fn digits_val_acc(s: Seq<char>, b: int, acc: int) -> int
    decreases s.len(),
{
    if s.len() == 0 {
        acc
    } else {
        digits_val_acc(s.drop_first(), b, acc * b + char_val(s[0]))
    }
}

/// The value of a digit string in base `b`.
pub open spec fn digits_val(s: Seq<char>, b: int) -> int {
    digits_val_acc(s, b, 0)
}

/// Folding valid digits never shrinks a nonnegative accumulator.
pub proof fn lemma_digits_val_acc_grows(s: Seq<char>, b: int, acc: int)
    requires
        2 <= b,
        0 <= acc,
        digits_valid(s, b),
    ensures
        digits_val_acc(s, b, acc) >= acc,
    decreases s.len(),
{
    if s.len() > 0 {
        assert(0 <= char_val(s[0]));
        assert(acc * b >= acc + acc) by (nonlinear_arith)
            requires
                0 <= acc,
                2 <= b,
        ;
        assert(digits_valid(s.drop_first(), b)) by {
            assert(forall|k: int|
                0 <= k < s.drop_first().len() ==> s.drop_first()[k] == s[k + 1]);
        }
        lemma_digits_val_acc_grows(s.drop_first(), b, acc * b + char_val(s[0]));
    }
}

/// First index of `c` in `s`, `-1` when absent.
pub open spec fn find_char_at(s: Seq<char>, c: char) -> int
    decreases s.len(),
{
    if s.len() == 0 {
        -1
    } else if s[0] == c {
        0
    } else {
        let r = find_char_at(s.drop_first(), c);
        if r < 0 {
            -1
        } else {
            r + 1
        }
    }
}

/// Where `find_char_at` points and what it means.
pub proof fn lemma_find_char(s: Seq<char>, c: char)
    ensures
        -1 <= find_char_at(s, c) < s.len(),
        find_char_at(s, c) >= 0 ==> s[find_char_at(s, c)] == c,
        find_char_at(s, c) >= 0 ==> forall|j: int| 0 <= j < find_char_at(s, c) ==> s[j] != c,
        find_char_at(s, c) == -1 ==> forall|j: int| 0 <= j < s.len() ==> s[j] != c,
    decreases s.len(),
{
    if s.len() > 0 && s[0] != c {
        lemma_find_char(s.drop_first(), c);
        let r = find_char_at(s.drop_first(), c);
        if r >= 0 {
            assert(s.drop_first()[r] == s[r + 1]);
            assert(forall|j: int| 1 <= j < r + 1 ==> s[j] == s.drop_first()[j - 1]);
        } else {
            assert(forall|j: int| 1 <= j < s.len() ==> s[j] == s.drop_first()[j - 1]);
        }
    }
}

/// Finds the first occurrence of `c` in `v[lo..hi]`.
pub(crate) fn find_char_range(v: &Vec<char>, lo: usize, hi: usize, c: char) -> (r: Option<usize>)
    requires
        lo <= hi <= v@.len(),
    ensures
        ({
            let f = find_char_at(v@.subrange(lo as int, hi as int), c);
            &&& (r is Some <==> f >= 0)
            &&& (r matches Some(k) ==> lo <= k < hi && k - lo == f)
        }),
{
    let ghost sub = v@.subrange(lo as int, hi as int);
    let mut i = lo;
    while i < hi
        invariant
            lo <= i <= hi <= v@.len(),
            sub == v@.subrange(lo as int, hi as int),
            forall|j: int| lo <= j < i ==> v@[j] != c,
        decreases hi - i,
    {
        if v[i] == c {
            proof {
                assert(forall|j: int| 0 <= j < i - lo ==> sub[j] == v@[j + lo]);
                assert(sub[i - lo as int] == v@[i as int]);
                lemma_find_first_here(sub, c, i - lo);
            }
            return Some(i);
        }
        i = i + 1;
    }
    proof {
        lemma_find_char(sub, c);
        if find_char_at(sub, c) >= 0 {
            let f = find_char_at(sub, c);
            assert(sub[f] == v@[lo + f]);
            assert(false);
        }
    }
    None
}

/// A first occurrence at `k` pins `find_char_at` to `k`.
proof fn lemma_find_first_here(s: Seq<char>, c: char, k: int)
    requires
        0 <= k < s.len(),
        s[k] == c,
        forall|j: int| 0 <= j < k ==> s[j] != c,
    ensures
        find_char_at(s, c) == k,
    decreases k,
{
    if k > 0 {
        assert(forall|j: int| 0 <= j < k - 1 ==> s.drop_first()[j] == s[j + 1]);
        assert(s.drop_first()[k - 1] == s[k]);
        lemma_find_first_here(s.drop_first(), c, k - 1);
    }
}

/// The characters of `s`, as a vector.
pub(crate) fn str_chars(s: &str) -> (r: Vec<char>)
    ensures
        r@ == s@,
{
    let n = s.unicode_len();
    let mut v: Vec<char> = Vec::new();
    let mut i: usize = 0;
    while i < n
        invariant
            0 <= i <= n,
            n == s@.len(),
            v@ == s@.take(i as int),
        decreases n - i,
    {
        v.push(s.get_char(i));
        assert(v@ =~= s@.take(i + 1int));
        i = i + 1;
    }
    proof {
        assert(s@.take(n as int) =~= s@);
    }
    v
}


/// The digit value of `c`, executed.
fn char_digit(c: char) -> (r: i32)
    ensures
        r == char_val(c),
{
    let u = c as u32;
    if 48 <= u && u <= 57 {
        (u - 48) as i32
    } else if 97 <= u && u <= 122 {
        (u - 87) as i32
    } else if 65 <= u && u <= 90 {
        (u - 55) as i32
    } else {
        -1
    }
}

/// Parses `v[lo..hi]` as an unsigned digit string in base `b` (single
/// characters).  `Malformed` when empty or a character is out of the
/// base's alphabet; `PrecisionOverflow` when the value exceeds `2^31`.
fn parse_digits36(v: &Vec<char>, lo: usize, hi: usize, b: u32) -> (r: Result<u64, ConvError>)
    requires
        lo <= hi <= v@.len(),
        2 <= b <= 36,
    ensures
        ({
            let sub = v@.subrange(lo as int, hi as int);
            &&& (r is Ok <==> (sub.len() > 0 && digits_valid(sub, b as int) && digits_val(
                sub,
                b as int,
            ) <= 0x8000_0000))
            &&& (r matches Ok(x) ==> x == digits_val(sub, b as int))
            &&& ((sub.len() == 0 || !digits_valid(sub, b as int)) <==> r == Err::<u64, ConvError>(
                ConvError::MalformedRadixString,
            ))
            &&& (r is Err && r != Err::<u64, ConvError>(ConvError::MalformedRadixString) ==> r
                == Err::<u64, ConvError>(ConvError::PrecisionOverflow))
        }),
{
    let ghost sub = v@.subrange(lo as int, hi as int);
    if lo == hi {
        return Err(ConvError::MalformedRadixString);
    }
    let mut i = lo;
    while i < hi
        invariant
            lo <= i <= hi <= v@.len(),
            2 <= b <= 36,
            sub == v@.subrange(lo as int, hi as int),
            forall|k: int| 0 <= k < i - lo ==> 0 <= #[trigger] char_val(sub[k]) < b,
        decreases hi - i,
    {
        let d = char_digit(v[i]);
        if d < 0 || d >= b as i32 {
            assert(sub[i - lo as int] == v@[i as int]);
            return Err(ConvError::MalformedRadixString);
        }
        assert(sub[i - lo as int] == v@[i as int]);
        i = i + 1;
    }
    assert(digits_valid(sub, b as int));
    let mut acc: u64 = 0;
    let mut j = lo;
    proof {
        assert(sub.skip(0int) =~= sub);
    }
    while j < hi
        invariant
            lo <= j <= hi <= v@.len(),
            2 <= b <= 36,
            sub == v@.subrange(lo as int, hi as int),
            digits_valid(sub, b as int),
            acc <= 0x8000_0000,
            digits_val_acc(sub.skip(j - lo as int), b as int, acc as int) == digits_val(
                sub,
                b as int,
            ),
        decreases hi - j,
    {
        proof {
            let rest = sub.skip(j - lo as int);
            assert(rest[0] == sub[j - lo as int]);
            assert(sub[j - lo as int] == v@[j as int]);
            assert(rest.drop_first() =~= sub.skip(j + 1 - lo as int));
            assert(digits_valid(rest, b as int)) by {
                assert(forall|k: int|
                    0 <= k < rest.len() ==> rest[k] == sub[k + j - lo as int]);
            }
        }
        let d = char_digit(v[j]);
        proof {
            assert(0 <= char_val(sub[j - lo as int]) < b);
            assert(acc * (b as u64) <= 0x8000_0000 * 36) by (nonlinear_arith)
                requires
                    acc <= 0x8000_0000,
                    b <= 36,
            ;
        }
        let acc2: u64 = acc * (b as u64) + (d as u64);
        if acc2 > 0x8000_0000 {
            proof {
                let rest2 = sub.skip(j + 1 - lo as int);
                lemma_digits_val_acc_grows(rest2, b as int, acc2 as int);
            }
            return Err(ConvError::PrecisionOverflow);
        }
        acc = acc2;
        j = j + 1;
    }
    proof {
        assert(sub.skip(hi - lo as int) =~= Seq::<char>::empty());
    }
    Ok(acc)
}

/// Signed single-character parse of the whole string: an optional
/// leading `-` or `+`, then digits of base `b`.
pub open spec fn spec_parse_int36(s: Seq<char>, b: int) -> Option<int> {
    if s.len() > 0 && (s[0] == '-' || s[0] == '+') {
        if s.len() > 1 && digits_valid(s.skip(1), b) {
            if s[0] == '-' {
                Some(-digits_val(s.skip(1), b))
            } else {
                Some(digits_val(s.skip(1), b))
            }
        } else {
            None
        }
    } else if s.len() > 0 && digits_valid(s, b) {
        Some(digits_val(s, b))
    } else {
        None
    }
}

/// A group token: nonempty decimal characters whose value is below the
/// base.
pub open spec fn group_ok(g: Seq<char>, b: int) -> bool {
    g.len() > 0 && (forall|k: int| 0 <= k < g.len() ==> 0 <= #[trigger] char_val(g[k]) <= 9)
        && digits_val(g, 10) < b
}

/// Splits on a separator character.
pub open spec fn split_on(s: Seq<char>, c: char) -> Seq<Seq<char>>
    decreases s.len(), via split_on_dec
{
    let k = find_char_at(s, c);
    if k < 0 {
        seq![s]
    } else {
        seq![s.take(k)] + split_on(s.skip(k + 1), c)
    }
}

#[via_fn]
proof fn split_on_dec(s: Seq<char>, c: char) {
    lemma_find_char(s, c);
}

/// Every token of `gs` is a well-formed group for base `b`.
pub open spec fn groups_all_ok(gs: Seq<Seq<char>>, b: int) -> bool {
    forall|k: int| 0 <= k < gs.len() ==> group_ok(#[trigger] gs[k], b)
}

/// The value of a group sequence, folded from the left over `acc`.
pub open spec fn groups_val_acc(gs: Seq<Seq<char>>, b: int, acc: int) -> int
    decreases gs.len(),
{
    if gs.len() == 0 {
        acc
    } else {
        groups_val_acc(gs.drop_first(), b, acc * b + digits_val(gs[0], 10))
    }
}

/// The value of a grouped digit string.
pub open spec fn groups_val(gs: Seq<Seq<char>>, b: int) -> int {
    groups_val_acc(gs, b, 0)
}

/// Folding well-formed groups never shrinks a nonnegative accumulator.
pub proof fn lemma_groups_val_acc_grows(gs: Seq<Seq<char>>, b: int, acc: int)
    requires
        2 <= b,
        0 <= acc,
        groups_all_ok(gs, b),
    ensures
        groups_val_acc(gs, b, acc) >= acc,
    decreases gs.len(),
{
    if gs.len() > 0 {
        assert(group_ok(gs[0], b));
        lemma_digits_val_acc_grows(gs[0], 10, 0);
        assert(acc * b >= acc + acc) by (nonlinear_arith)
            requires
                0 <= acc,
                2 <= b,
        ;
        assert(groups_all_ok(gs.drop_first(), b)) by {
            assert(forall|k: int|
                0 <= k < gs.drop_first().len() ==> gs.drop_first()[k] == gs[k + 1]);
        }
        lemma_groups_val_acc_grows(gs.drop_first(), b, acc * b + digits_val(gs[0], 10));
    }
}

/// Parses one group token `v[lo..hi]`: `Some` exactly when it is a
/// well-formed group for base `b`, with its decimal value.
fn parse_group(v: &Vec<char>, lo: usize, hi: usize, b: u32) -> (r: Option<u32>)
    requires
        lo <= hi <= v@.len(),
        2 <= b,
    ensures
        ({
            let g = v@.subrange(lo as int, hi as int);
            &&& (r is Some <==> group_ok(g, b as int))
            &&& (r matches Some(x) ==> x == digits_val(g, 10))
        }),
{
    let ghost g = v@.subrange(lo as int, hi as int);
    if lo == hi {
        return None;
    }
    let mut i = lo;
    while i < hi
        invariant
            lo <= i <= hi <= v@.len(),
            g == v@.subrange(lo as int, hi as int),
            forall|k: int| 0 <= k < i - lo ==> 0 <= #[trigger] char_val(g[k]) <= 9,
        decreases hi - i,
    {
        let d = char_digit(v[i]);
        if d < 0 || d > 9 {
            assert(g[i - lo as int] == v@[i as int]);
            return None;
        }
        assert(g[i - lo as int] == v@[i as int]);
        i = i + 1;
    }
    let mut acc: u64 = 0;
    let mut j = lo;
    proof {
        assert(g.skip(0int) =~= g);
    }
    while j < hi
        invariant
            lo <= j <= hi <= v@.len(),
            g == v@.subrange(lo as int, hi as int),
            forall|k: int| 0 <= k < g.len() ==> 0 <= #[trigger] char_val(g[k]) <= 9,
            acc <= 0xffff_ffff,
            digits_val_acc(g.skip(j - lo as int), 10, acc as int) == digits_val(g, 10),
        decreases hi - j,
    {
        proof {
            let rest = g.skip(j - lo as int);
            assert(rest[0] == g[j - lo as int]);
            assert(g[j - lo as int] == v@[j as int]);
            assert(rest.drop_first() =~= g.skip(j + 1 - lo as int));
        }
        let d = char_digit(v[j]);
        proof {
            assert(0 <= char_val(g[j - lo as int]) <= 9);
        }
        let acc2: u64 = acc * 10 + (d as u64);
        if acc2 > 0xffff_ffff {
            proof {
                let rest2 = g.skip(j + 1 - lo as int);
                assert(digits_valid(rest2, 10)) by {
                    assert(forall|k: int|
                        0 <= k < rest2.len() ==> rest2[k] == g[k + j + 1 - lo as int]);
                }
                lemma_digits_val_acc_grows(rest2, 10, acc2 as int);
            }
            return None;
        }
        acc = acc2;
        j = j + 1;
    }
    proof {
        assert(g.skip(hi - lo as int) =~= Seq::<char>::empty());
    }
    if acc < b as u64 {
        Some(acc as u32)
    } else {
        None
    }
}


/// Checks every group token of `v[lo..hi]` split on `:`.
fn groups_ok_range(v: &Vec<char>, lo: usize, hi: usize, b: u32) -> (r: bool)
    requires
        lo <= hi <= v@.len(),
        2 <= b,
    ensures
        r == groups_all_ok(split_on(v@.subrange(lo as int, hi as int), ':'), b as int),
    decreases hi - lo,
{
    let ghost sub = v@.subrange(lo as int, hi as int);
    let ghost gs = split_on(sub, ':');
    match find_char_range(v, lo, hi, ':') {
        None => {
            proof {
                assert(gs == seq![sub]);
            }
            let ok = parse_group(v, lo, hi, b).is_some();
            proof {
                if ok {
                    assert(forall|k: int| 0 <= k < gs.len() ==> gs[k] == sub);
                } else {
                    assert(gs[0] == sub);
                }
            }
            ok
        },
        Some(k) => {
            let ghost f = k - lo as int;
            proof {
                assert(gs == seq![sub.take(f)] + split_on(sub.skip(f + 1), ':'));
                assert(sub.take(f) =~= v@.subrange(lo as int, k as int));
                assert(sub.skip(f + 1) =~= v@.subrange(k + 1int, hi as int));
            }
            let head_ok = parse_group(v, lo, k, b).is_some();
            if !head_ok {
                proof {
                    assert(gs[0] == sub.take(f));
                }
                return false;
            }
            let tail_ok = groups_ok_range(v, k + 1, hi, b);
            proof {
                let tl = split_on(sub.skip(f + 1), ':');
                assert(forall|j: int| 0 <= j < tl.len() ==> gs[j + 1] == tl[j]);
                if tail_ok {
                    assert forall|j: int| 0 <= j < gs.len() implies group_ok(
                        #[trigger] gs[j],
                        b as int,
                    ) by {
                        if j == 0 {
                            assert(gs[0] == sub.take(f));
                        } else {
                            assert(gs[j] == tl[j - 1]);
                        }
                    }
                } else {
                    let bad = choose|j: int| 0 <= j < tl.len() && !group_ok(tl[j], b as int);
                    assert(gs[bad + 1] == tl[bad]);
                }
            }
            tail_ok
        },
    }
}

/// Folds the group values of `v[lo..hi]` over `acc`; every token must
/// already be well formed.  `PrecisionOverflow` exactly when the value
/// exceeds `2^31`.
fn groups_fold(v: &Vec<char>, lo: usize, hi: usize, b: u32, acc: u64) -> (r: Result<
    u64,
    ConvError,
>)
    requires
        lo <= hi <= v@.len(),
        2 <= b,
        acc <= 0x8000_0000,
        groups_all_ok(split_on(v@.subrange(lo as int, hi as int), ':'), b as int),
    ensures
        ({
            let gs = split_on(v@.subrange(lo as int, hi as int), ':');
            let val = groups_val_acc(gs, b as int, acc as int);
            &&& (r is Ok <==> val <= 0x8000_0000)
            &&& (r matches Ok(x) ==> x == val)
            &&& (r is Err ==> r == Err::<u64, ConvError>(ConvError::PrecisionOverflow))
        }),
    decreases hi - lo,
{
    let ghost sub = v@.subrange(lo as int, hi as int);
    let ghost gs = split_on(sub, ':');
    proof {
        assert(0 <= acc * b <= 0x8000_0000 * 4294967296) by (nonlinear_arith)
            requires
                0 <= acc <= 0x8000_0000,
                2 <= b <= 4294967295,
        ;
    }
    match find_char_range(v, lo, hi, ':') {
        None => {
            proof {
                assert(gs == seq![sub]);
                assert(gs[0] == sub);
            }
            let g = match parse_group(v, lo, hi, b) {
                Some(g) => g,
                None => {
                    proof {
                        assert(false);
                    }
                    0
                },
            };
            let a2: u64 = acc * (b as u64) + (g as u64);
            proof {
                assert(gs.len() == 1);
                assert(gs.drop_first() =~= Seq::<Seq<char>>::empty());
                assert(groups_val_acc(gs, b as int, acc as int) == groups_val_acc(
                    gs.drop_first(),
                    b as int,
                    acc as int * b as int + digits_val(gs[0], 10),
                ));
                assert(groups_val_acc(Seq::<Seq<char>>::empty(), b as int, a2 as int) == a2);
                assert(groups_val_acc(gs, b as int, acc as int) == a2);
            }
            if a2 > 0x8000_0000 {
                Err(ConvError::PrecisionOverflow)
            } else {
                Ok(a2)
            }
        },
        Some(k) => {
            let ghost f = k - lo as int;
            proof {
                assert(gs == seq![sub.take(f)] + split_on(sub.skip(f + 1), ':'));
                assert(sub.take(f) =~= v@.subrange(lo as int, k as int));
                assert(sub.skip(f + 1) =~= v@.subrange(k + 1int, hi as int));
                assert(gs[0] == sub.take(f));
                let tl = split_on(sub.skip(f + 1), ':');
                assert(forall|j: int| 0 <= j < tl.len() ==> gs[j + 1] == tl[j]);
                assert(groups_all_ok(tl, b as int)) by {
                    assert(forall|j: int| 0 <= j < tl.len() ==> tl[j] == gs[j + 1]);
                }
                assert(gs.drop_first() =~= tl);
            }
            let g = match parse_group(v, lo, k, b) {
                Some(g) => g,
                None => {
                    proof {
                        assert(false);
                    }
                    0
                },
            };
            let a2: u64 = acc * (b as u64) + (g as u64);
            if a2 > 0x8000_0000 {
                proof {
                    lemma_groups_val_acc_grows(gs.drop_first(), b as int, a2 as int);
                }
                return Err(ConvError::PrecisionOverflow);
            }
            groups_fold(v, k + 1, hi, b, a2)
        },
    }
}

/// Grouped signed parse of the whole string: an optional leading `-`,
/// then `:`-separated decimal group tokens, each below the base.
pub open spec fn spec_parse_grouped(s: Seq<char>, b: int) -> Option<int> {
    let neg = s.len() > 0 && s[0] == '-';
    let rest = if neg {
        s.skip(1)
    } else {
        s
    };
    let gs = split_on(rest, ':');
    if groups_all_ok(gs, b) {
        if neg {
            Some(-groups_val(gs, b))
        } else {
            Some(groups_val(gs, b))
        }
    } else {
        None
    }
}

/// Parses a grouped radix string back to an integer (`-` then `:`-
/// separated decimal groups).  `InvalidBase` below base 2;
/// `MalformedRadixString` exactly when a token is ill-formed;
/// `PrecisionOverflow` when the value leaves `i32`.
pub fn radix_be_to_decimal(num_string: String, radix: u32) -> (r: Result<i32, ConvError>)
    ensures
        radix < 2 ==> r == Err::<i32, ConvError>(ConvError::InvalidBase),
        radix >= 2 ==> ({
            let pv = spec_parse_grouped(num_string@, radix as int);
            &&& (pv is None <==> r == Err::<i32, ConvError>(ConvError::MalformedRadixString))
            &&& (pv matches Some(x) ==> (r is Ok <==> -0x8000_0000 <= x <= 0x7fff_ffff) && (
            r matches Ok(q) ==> q == x) && (r is Err ==> r == Err::<i32, ConvError>(
                ConvError::PrecisionOverflow,
            )))
        }),
{
    if radix < 2 {
        return Err(ConvError::InvalidBase);
    }
    let v = str_chars(num_string.as_str());
    let n = v.len();
    let neg = n > 0 && v[0] == '-';
    let lo: usize = if neg {
        1
    } else {
        0
    };
    proof {
        assert(v@.subrange(lo as int, n as int) =~= (if neg {
            num_string@.skip(1)
        } else {
            num_string@
        }));
    }
    if !groups_ok_range(&v, lo, n, radix) {
        return Err(ConvError::MalformedRadixString);
    }
    match groups_fold(&v, lo, n, radix, 0) {
        Err(e) => Err(e),
        Ok(mag) => {
            if neg {
                Ok(-(mag as i64) as i32)
            } else if mag <= 0x7fff_ffff {
                Ok(mag as i32)
            } else {
                Err(ConvError::PrecisionOverflow)
            }
        },
    }
}

/// Parses a radix string back to an integer: single-character alphabet
/// (with an optional `-` or `+` sign) up to base 36, grouped notation
/// above.  `InvalidBase` below base 2; `MalformedRadixString` exactly
/// when the text is ill-formed; `PrecisionOverflow` when the value
/// leaves `i32`.
pub fn radix_to_decimal(num_string: String, radix: u32) -> (r: Result<i32, ConvError>)
    ensures
        radix < 2 ==> r == Err::<i32, ConvError>(ConvError::InvalidBase),
        radix >= 2 ==> ({
            let pv = if radix <= 36 {
                spec_parse_int36(num_string@, radix as int)
            } else {
                spec_parse_grouped(num_string@, radix as int)
            };
            &&& (pv is None <==> r == Err::<i32, ConvError>(ConvError::MalformedRadixString))
            &&& (pv matches Some(x) ==> (r is Ok <==> -0x8000_0000 <= x <= 0x7fff_ffff) && (
            r matches Ok(q) ==> q == x) && (r is Err ==> r == Err::<i32, ConvError>(
                ConvError::PrecisionOverflow,
            )))
        }),
{
    if radix < 2 {
        return Err(ConvError::InvalidBase);
    }
    if radix > 36 {
        return radix_be_to_decimal(num_string, radix);
    }
    let v = str_chars(num_string.as_str());
    let n = v.len();
    let signed = n > 0 && (v[0] == '-' || v[0] == '+');
    let neg = n > 0 && v[0] == '-';
    let lo: usize = if signed {
        1
    } else {
        0
    };
    proof {
        if signed {
            assert(v@.subrange(1int, n as int) =~= num_string@.skip(1));
        } else {
            assert(v@.subrange(0int, n as int) =~= num_string@);
        }
    }
    match parse_digits36(&v, lo, n, radix) {
        Err(ConvError::MalformedRadixString) => Err(ConvError::MalformedRadixString),
        Err(_) => Err(ConvError::PrecisionOverflow),
        Ok(mag) => {
            if neg {
                Ok(-(mag as i64) as i32)
            } else if mag <= 0x7fff_ffff {
                Ok(mag as i32)
            } else {
                Err(ConvError::PrecisionOverflow)
            }
        },
    }
}


// ------------------------------------------------------------------
// Decoding fractional segments and whole strings
// ------------------------------------------------------------------


/// One more factor of the base.
proof fn lemma_pow_step(b: int, e: nat)
    ensures
        vstd::arithmetic::power::pow(b, e + 1) == b * vstd::arithmetic::power::pow(b, e),
        vstd::arithmetic::power::pow(b, 0) == 1,
{
    reveal(vstd::arithmetic::power::pow);
    assert(((e + 1) - 1) as nat == e);
}

/// A fractional segment's exact value `(numerator, denominator)`:
/// positional digits summed as `digit_p / b^p`, so numerator is the
/// digit fold and denominator `b^P`.  An empty single-character
/// segment is zero; a grouped segment must consist of well-formed
/// tokens.
pub open spec fn spec_frac_val(s: Seq<char>, b: int) -> Option<(int, int)> {
    if b <= 36 {
        if digits_valid(s, b) {
            Some((digits_val(s, b), vstd::arithmetic::power::pow(b, s.len())))
        } else {
            None
        }
    } else {
        let gs = split_on(s, ':');
        if groups_all_ok(gs, b) {
            Some((groups_val(gs, b), vstd::arithmetic::power::pow(b, gs.len())))
        } else {
            None
        }
    }
}

/// Folding bounds: a left fold of valid digits stays under
/// `acc * b^len + b^len`.
pub proof fn lemma_digits_val_bound(s: Seq<char>, b: int, acc: int)
    requires
        2 <= b,
        0 <= acc,
        digits_valid(s, b),
    ensures
        digits_val_acc(s, b, acc) < (acc + 1) * vstd::arithmetic::power::pow(b, s.len()),
    decreases s.len(),
{
    vstd::arithmetic::power::lemma_pow_positive(b, s.len());
    lemma_pow_step(b, 0);
    if s.len() == 0 {
        assert((acc + 1) * 1 == acc + 1);
    } else {
        let d = char_val(s[0]);
        assert(0 <= d < b);
        assert(digits_valid(s.drop_first(), b)) by {
            assert(forall|k: int|
                0 <= k < s.drop_first().len() ==> s.drop_first()[k] == s[k + 1]);
        }
        lemma_digits_val_bound(s.drop_first(), b, acc * b + d);
        let p1 = vstd::arithmetic::power::pow(b, s.drop_first().len());
        vstd::arithmetic::power::lemma_pow_positive(b, s.drop_first().len());
        assert(s.len() == s.drop_first().len() + 1);
        lemma_pow_step(b, s.drop_first().len());
        assert(vstd::arithmetic::power::pow(b, s.len()) == b * p1);
        assert((acc * b + d + 1) * p1 <= (acc + 1) * (b * p1)) by (nonlinear_arith)
            requires
                0 <= acc,
                0 <= d < b,
                2 <= b,
                0 < p1,
        ;
    }
}

/// The same bound for group folds.
pub proof fn lemma_groups_val_bound(gs: Seq<Seq<char>>, b: int, acc: int)
    requires
        2 <= b,
        0 <= acc,
        groups_all_ok(gs, b),
    ensures
        groups_val_acc(gs, b, acc) < (acc + 1) * vstd::arithmetic::power::pow(b, gs.len()),
    decreases gs.len(),
{
    vstd::arithmetic::power::lemma_pow_positive(b, gs.len());
    lemma_pow_step(b, 0);
    if gs.len() == 0 {
        assert((acc + 1) * 1 == acc + 1);
    } else {
        assert(group_ok(gs[0], b));
        let d = digits_val(gs[0], 10);
        lemma_digits_val_acc_grows(gs[0], 10, 0);
        assert(groups_all_ok(gs.drop_first(), b)) by {
            assert(forall|k: int|
                0 <= k < gs.drop_first().len() ==> gs.drop_first()[k] == gs[k + 1]);
        }
        lemma_groups_val_bound(gs.drop_first(), b, acc * b + d);
        let p1 = vstd::arithmetic::power::pow(b, gs.drop_first().len());
        vstd::arithmetic::power::lemma_pow_positive(b, gs.drop_first().len());
        assert(gs.len() == gs.drop_first().len() + 1);
        lemma_pow_step(b, gs.drop_first().len());
        assert(vstd::arithmetic::power::pow(b, gs.len()) == b * p1);
        assert((acc * b + d + 1) * p1 <= (acc + 1) * (b * p1)) by (nonlinear_arith)
            requires
                0 <= acc,
                0 <= d < b,
                2 <= b,
                0 < p1,
        ;
    }
}

/// `b^e`, failing with `PrecisionOverflow` exactly when the power
/// exceeds the value cap.
fn pow_capped(b: u32, e: usize) -> (r: Result<i128, ConvError>)
    requires
        2 <= b,
    ensures
        ({
            let p = vstd::arithmetic::power::pow(b as int, e as nat);
            &&& (r is Ok <==> p <= crate::rational::VAL_CAP)
            &&& (r matches Ok(x) ==> x == p && 1 <= x)
            &&& (r is Err ==> r == Err::<i128, ConvError>(ConvError::PrecisionOverflow))
        }),
{
    let mut acc: i128 = 1;
    let mut j: usize = 0;
    proof {
        lemma_pow_step(b as int, 0);
    }
    while j < e
        invariant
            2 <= b,
            0 <= j <= e,
            1 <= acc <= crate::rational::VAL_CAP,
            acc == vstd::arithmetic::power::pow(b as int, j as nat),
        decreases e - j,
    {
        proof {
            assert(1 <= acc * b <= crate::rational::VAL_CAP * 4294967295) by (nonlinear_arith)
                requires
                    1 <= acc <= crate::rational::VAL_CAP,
                    2 <= b <= 4294967295,
            ;
            lemma_pow_step(b as int, j as nat);
            assert((j + 1) as nat == j as nat + 1);
            assert(vstd::arithmetic::power::pow(b as int, (j + 1) as nat) == b * vstd::arithmetic::power::pow(
                b as int,
                j as nat,
            ));
        }
        let acc2: i128 = acc * (b as i128);
        if acc2 > crate::rational::VAL_CAP {
            proof {
                broadcast use vstd::arithmetic::power::lemma_pow_increases;

                assert(vstd::arithmetic::power::pow(b as int, (j + 1) as nat) <= vstd::arithmetic::power::pow(
                    b as int,
                    e as nat,
                ));
            }
            return Err(ConvError::PrecisionOverflow);
        }
        acc = acc2;
        j = j + 1;
    }
    Ok(acc)
}

/// Folds digit characters of `v[lo..hi]` into their value, when the
/// whole fold is known to stay under the cap.
fn digits_fold_i128(v: &Vec<char>, lo: usize, hi: usize, b: u32) -> (r: i128)
    requires
        lo <= hi <= v@.len(),
        2 <= b <= 36,
        digits_valid(v@.subrange(lo as int, hi as int), b as int),
        digits_val(v@.subrange(lo as int, hi as int), b as int) <= crate::rational::VAL_CAP,
    ensures
        r == digits_val(v@.subrange(lo as int, hi as int), b as int),
        0 <= r,
{
    let ghost sub = v@.subrange(lo as int, hi as int);
    let mut acc: i128 = 0;
    let mut j = lo;
    proof {
        assert(sub.skip(0int) =~= sub);
        lemma_digits_val_acc_grows(sub, b as int, 0);
    }
    while j < hi
        invariant
            lo <= j <= hi <= v@.len(),
            2 <= b <= 36,
            sub == v@.subrange(lo as int, hi as int),
            digits_valid(sub, b as int),
            0 <= acc <= crate::rational::VAL_CAP,
            digits_val_acc(sub.skip(j - lo as int), b as int, acc as int) == digits_val(
                sub,
                b as int,
            ),
            digits_val(sub, b as int) <= crate::rational::VAL_CAP,
        decreases hi - j,
    {
        proof {
            let rest = sub.skip(j - lo as int);
            assert(rest[0] == sub[j - lo as int]);
            assert(sub[j - lo as int] == v@[j as int]);
            assert(rest.drop_first() =~= sub.skip(j + 1 - lo as int));
            assert(0 <= char_val(sub[j - lo as int]) < b);
            assert(acc * b <= crate::rational::VAL_CAP * 36) by (nonlinear_arith)
                requires
                    0 <= acc <= crate::rational::VAL_CAP,
                    2 <= b <= 36,
            ;
            assert(digits_valid(sub.skip(j + 1 - lo as int), b as int)) by {
                let r2 = sub.skip(j + 1 - lo as int);
                assert(forall|k: int| 0 <= k < r2.len() ==> r2[k] == sub[k + j + 1 - lo as int]);
            }
        }
        let d = char_digit(v[j]);
        let acc2: i128 = acc * (b as i128) + (d as i128);
        proof {
            lemma_digits_val_acc_grows(
                sub.skip(j + 1 - lo as int),
                b as int,
                acc2 as int,
            );
        }
        acc = acc2;
        j = j + 1;
    }
    proof {
        assert(sub.skip(hi - lo as int) =~= Seq::<char>::empty());
    }
    acc
}

/// Folds group values of `v[lo..hi]` over `acc`, when the whole fold
/// is known to stay under the cap.
fn groups_fold_i128(v: &Vec<char>, lo: usize, hi: usize, b: u32, acc: i128) -> (r: i128)
    requires
        lo <= hi <= v@.len(),
        2 <= b,
        0 <= acc,
        groups_all_ok(split_on(v@.subrange(lo as int, hi as int), ':'), b as int),
        groups_val_acc(
            split_on(v@.subrange(lo as int, hi as int), ':'),
            b as int,
            acc as int,
        ) <= crate::rational::VAL_CAP,
        acc <= crate::rational::VAL_CAP,
    ensures
        r == groups_val_acc(split_on(v@.subrange(lo as int, hi as int), ':'), b as int, acc as int),
        0 <= r,
    decreases hi - lo,
{
    let ghost sub = v@.subrange(lo as int, hi as int);
    let ghost gs = split_on(sub, ':');
    proof {
        assert(0 <= acc * b <= crate::rational::VAL_CAP * 4294967295) by (nonlinear_arith)
            requires
                0 <= acc <= crate::rational::VAL_CAP,
                2 <= b <= 4294967295,
        ;
    }
    match find_char_range(v, lo, hi, ':') {
        None => {
            proof {
                assert(gs == seq![sub]);
                assert(gs[0] == sub);
                assert(gs.len() == 1);
                assert(gs.drop_first() =~= Seq::<Seq<char>>::empty());
            }
            let g = match parse_group(v, lo, hi, b) {
                Some(g) => g,
                None => {
                    proof {
                        assert(false);
                    }
                    0
                },
            };
            let a2: i128 = acc * (b as i128) + (g as i128);
            proof {
                assert(groups_val_acc(gs, b as int, acc as int) == groups_val_acc(
                    gs.drop_first(),
                    b as int,
                    acc as int * b as int + digits_val(gs[0], 10),
                ));
            }
            a2
        },
        Some(k) => {
            let ghost f = k - lo as int;
            proof {
                assert(gs == seq![sub.take(f)] + split_on(sub.skip(f + 1), ':'));
                assert(sub.take(f) =~= v@.subrange(lo as int, k as int));
                assert(sub.skip(f + 1) =~= v@.subrange(k + 1int, hi as int));
                assert(gs[0] == sub.take(f));
                let tl = split_on(sub.skip(f + 1), ':');
                assert(forall|j: int| 0 <= j < tl.len() ==> gs[j + 1] == tl[j]);
                assert(groups_all_ok(tl, b as int)) by {
                    assert(forall|j: int| 0 <= j < tl.len() ==> tl[j] == gs[j + 1]);
                }
                assert(gs.drop_first() =~= tl);
            }
            let g = match parse_group(v, lo, k, b) {
                Some(g) => g,
                None => {
                    proof {
                        assert(false);
                    }
                    0
                },
            };
            let a2: i128 = acc * (b as i128) + (g as i128);
            proof {
                lemma_groups_val_acc_grows(gs.drop_first(), b as int, a2 as int);
            }
            groups_fold_i128(v, k + 1, hi, b, a2)
        },
    }
}

/// The number of group tokens of `v[lo..hi]`.
fn groups_count(v: &Vec<char>, lo: usize, hi: usize) -> (r: usize)
    requires
        lo <= hi <= v@.len(),
        hi < usize::MAX,
    ensures
        r == split_on(v@.subrange(lo as int, hi as int), ':').len(),
        1 <= r <= hi - lo + 1,
    decreases hi - lo,
{
    let ghost sub = v@.subrange(lo as int, hi as int);
    match find_char_range(v, lo, hi, ':') {
        None => 1,
        Some(k) => {
            proof {
                assert(sub.skip(k - lo as int + 1) =~= v@.subrange(k + 1int, hi as int));
            }
            let rest = groups_count(v, k + 1, hi);
            rest + 1
        },
    }
}

/// The exact value of the fractional segment `v[lo..hi]` in base `b`.
fn frac_val_range(v: &Vec<char>, lo: usize, hi: usize, b: u32) -> (r: Result<Rational, ConvError>)
    requires
        lo <= hi <= v@.len(),
        hi < usize::MAX,
        2 <= b,
    ensures
        ({
            let fv = spec_frac_val(v@.subrange(lo as int, hi as int), b as int);
            &&& (fv is None <==> r == Err::<Rational, ConvError>(ConvError::MalformedRadixString))
            &&& (fv matches Some((n, d)) ==> (r is Ok <==> d <= crate::rational::VAL_CAP) && (
            r matches Ok(q) ==> q.num == n && q.den == d && 0 <= q.num < q.den) && (r is Err ==> r
                == Err::<Rational, ConvError>(ConvError::PrecisionOverflow)))
        }),
{
    let ghost sub = v@.subrange(lo as int, hi as int);
    if b <= 36 {
        let mut i = lo;
        while i < hi
            invariant
                lo <= i <= hi <= v@.len(),
                2 <= b <= 36,
                sub == v@.subrange(lo as int, hi as int),
                forall|k: int| 0 <= k < i - lo ==> 0 <= #[trigger] char_val(sub[k]) < b,
            decreases hi - i,
        {
            let d = char_digit(v[i]);
            if d < 0 || d >= b as i32 {
                assert(sub[i - lo as int] == v@[i as int]);
                return Err(ConvError::MalformedRadixString);
            }
            assert(sub[i - lo as int] == v@[i as int]);
            i = i + 1;
        }
        assert(digits_valid(sub, b as int));
        let den = match pow_capped(b, hi - lo) {
            Ok(d) => d,
            Err(e) => {
                return Err(e);
            },
        };
        proof {
            lemma_digits_val_bound(sub, b as int, 0);
            let p = vstd::arithmetic::power::pow(b as int, sub.len());
            assert((0 + 1) * p == p) by (nonlinear_arith);
            assert(digits_val(sub, b as int) < p);
        }
        let num = digits_fold_i128(v, lo, hi, b);
        Ok(Rational { num, den })
    } else {
        let ghost gs = split_on(sub, ':');
        if !groups_ok_range(v, lo, hi, b) {
            return Err(ConvError::MalformedRadixString);
        }
        let cnt = groups_count(v, lo, hi);
        let den = match pow_capped(b, cnt) {
            Ok(d) => d,
            Err(e) => {
                return Err(e);
            },
        };
        proof {
            lemma_groups_val_bound(gs, b as int, 0);
            let p = vstd::arithmetic::power::pow(b as int, gs.len());
            assert((0 + 1) * p == p) by (nonlinear_arith);
            assert(groups_val(gs, b as int) < p);
        }
        let num = groups_fold_i128(v, lo, hi, b, 0);
        Ok(Rational { num, den })
    }
}

/// Positional evaluation of a fractional digit string: each digit at
/// position `p` contributes `digit / b^p`.  `MalformedRadixString`
/// exactly for an ill-formed segment, `PrecisionOverflow` when the
/// denominator leaves the value cap.
pub fn radix_frac_to_float(frac_str: String, radix: u32) -> (r: Result<Rational, ConvError>)
    requires
        frac_str@.len() < usize::MAX,
    ensures
        radix < 2 ==> r == Err::<Rational, ConvError>(ConvError::InvalidBase),
        radix >= 2 ==> ({
            let fv = spec_frac_val(frac_str@, radix as int);
            &&& (fv is None <==> r == Err::<Rational, ConvError>(ConvError::MalformedRadixString))
            &&& (fv matches Some((n, d)) ==> (r is Ok <==> d <= crate::rational::VAL_CAP) && (
            r matches Ok(q) ==> q.num == n && q.den == d && 0 <= q.num < q.den) && (r is Err ==> r
                == Err::<Rational, ConvError>(ConvError::PrecisionOverflow)))
        }),
{
    if radix < 2 {
        return Err(ConvError::InvalidBase);
    }
    let v = str_chars(frac_str.as_str());
    let n = v.len();
    proof {
        assert(v@.subrange(0int, n as int) =~= frac_str@);
    }
    frac_val_range(&v, 0, n, radix)
}


/// A fractional segment with its redundant tail removed: trailing `0`
/// characters.
pub open spec fn trim_frac_chars(s: Seq<char>) -> Seq<char>
    decreases s.len(),
{
    if s.len() > 0 && s.last() == '0' {
        trim_frac_chars(s.drop_last())
    } else {
        s
    }
}

/// A grouped fractional segment with trailing `:00` tokens removed.
pub open spec fn trim_frac_groups(s: Seq<char>) -> Seq<char>
    decreases s.len(),
{
    if s.len() >= 3 && s[s.len() - 3] == ':' && s[s.len() - 2] == '0' && s.last() == '0' {
        trim_frac_groups(s.take(s.len() - 3))
    } else {
        s
    }
}

/// The signed integer-segment parse: the same language
/// `radix_to_decimal` accepts -- single characters (with an optional
/// `-` or `+` sign) up to base 36, grouped tokens (with an optional
/// `-`) above.
pub open spec fn spec_parse_int(s: Seq<char>, b: int) -> Option<int> {
    if b <= 36 {
        spec_parse_int36(s, b)
    } else {
        spec_parse_grouped(s, b)
    }
}

/// The exact value `(numerator, denominator)` a radix string denotes:
/// an integer segment parsed per the integer-string language, and
/// after an optional `.` a fractional segment (trimmed of its
/// redundant zero tail before evaluation), weighted positionally.  The
/// integer segment's `-` sign carries onto the fractional
/// contribution.  `None` for ill-formed text, a second `.` included.
pub open spec fn spec_decode(s: Seq<char>, b: int) -> Option<(int, int)> {
    let k = find_char_at(s, '.');
    let int_seg = if k < 0 {
        s
    } else {
        s.take(k)
    };
    let frac_raw = if k < 0 {
        Seq::<char>::empty()
    } else {
        s.skip(k + 1)
    };
    if find_char_at(frac_raw, '.') >= 0 {
        None
    } else {
        let neg = int_seg.len() > 0 && int_seg[0] == '-';
        let tf = if b <= 36 {
            trim_frac_chars(frac_raw)
        } else {
            trim_frac_groups(frac_raw)
        };
        let fv = if k < 0 {
            Some((0int, 1int))
        } else {
            spec_frac_val(tf, b)
        };
        match (spec_parse_int(int_seg, b), fv) {
            (Some(ip), Some((fn_, fd))) => Some(
                (ip * fd + (if neg {
                    -fn_
                } else {
                    fn_
                }), fd),
            ),
            _ => None,
        }
    }
}

/// The machine caps under which decoding succeeds: integer segment
/// within `i32`, fractional denominator within the value cap.
pub open spec fn spec_decode_fits(s: Seq<char>, b: int) -> bool {
    let k = find_char_at(s, '.');
    let int_seg = if k < 0 {
        s
    } else {
        s.take(k)
    };
    let frac_raw = if k < 0 {
        Seq::<char>::empty()
    } else {
        s.skip(k + 1)
    };
    let tf = if b <= 36 {
        trim_frac_chars(frac_raw)
    } else {
        trim_frac_groups(frac_raw)
    };
    let fv = if k < 0 {
        Some((0int, 1int))
    } else {
        spec_frac_val(tf, b)
    };
    (match spec_parse_int(int_seg, b) {
        Some(ip) => -0x8000_0000 <= ip <= 0x7fff_ffff,
        None => true,
    }) && (match fv {
        Some((fn_, fd)) => fd <= crate::rational::VAL_CAP,
        None => true,
    })
}

/// Decodes a radix string to its exact rational value: integer segment
/// and positionally-weighted fractional segment, one sign for the
/// whole string.  `InvalidBase` below base 2; `MalformedRadixString`
/// exactly for ill-formed text; `PrecisionOverflow` exactly when a
/// well-formed value exceeds the machine caps.
#[verifier::rlimit(100)]
pub fn radix_to_decimal_pv(num_string: String, radix: u32) -> (r: Result<Rational, ConvError>)
    requires
        num_string@.len() < usize::MAX,
    ensures
        radix < 2 ==> r == Err::<Rational, ConvError>(ConvError::InvalidBase),
        radix >= 2 ==> ({
            let dv = spec_decode(num_string@, radix as int);
            &&& (dv is None <==> r == Err::<Rational, ConvError>(ConvError::MalformedRadixString))
            &&& (dv matches Some((n, d)) ==> (r is Ok <==> spec_decode_fits(
                num_string@,
                radix as int,
            )) && (r matches Ok(q) ==> q.num == n && q.den == d && q.wf()) && (r is Err ==> r
                == Err::<Rational, ConvError>(ConvError::PrecisionOverflow)))
        }),
{
    if radix < 2 {
        return Err(ConvError::InvalidBase);
    }
    let ghost b = radix as int;
    let v = str_chars(num_string.as_str());
    let n = v.len();
    let dot = find_char_range(&v, 0, n, '.');
    let ghost ks = find_char_at(num_string@, '.');
    let ik: usize = match dot {
        Some(k) => k,
        None => n,
    };
    let ghost int_seg = if ks < 0 {
        num_string@
    } else {
        num_string@.take(ks)
    };
    let ghost frac_raw = if ks < 0 {
        Seq::<char>::empty()
    } else {
        num_string@.skip(ks + 1)
    };
    proof {
        assert(v@.subrange(0int, n as int) =~= num_string@);
        if dot is Some {
            assert(ik == ks);
            assert(v@.subrange(0int, ik as int) =~= int_seg);
            assert(v@.subrange(ik + 1int, n as int) =~= frac_raw);
        } else {
            assert(ks == -1);
            assert(v@.subrange(0int, ik as int) =~= int_seg);
        }
    }
    if ik < n {
        match find_char_range(&v, ik + 1, n, '.') {
            Some(_) => {
                assert(find_char_at(frac_raw, '.') >= 0);
                assert(spec_decode(num_string@, b) is None);
                return Err(ConvError::MalformedRadixString);
            },
            None => {
                assert(find_char_at(frac_raw, '.') < 0);
            },
        }
    } else {
        proof {
            lemma_find_char(frac_raw, '.');
        }
    }
    // integer segment, in the same signed language as radix_to_decimal
    let ghost ipv = spec_parse_int(int_seg, b);
    let neg = ik > 0 && v[0] == '-';
    proof {
        if ik > 0 {
            assert(int_seg[0] == v@[0int]);
        }
    }
    let ip_opt: Option<i64> = if radix <= 36 {
        let signed = ik > 0 && (v[0] == '-' || v[0] == '+');
        let lo0: usize = if signed {
            1
        } else {
            0
        };
        proof {
            if signed {
                assert(v@.subrange(1int, ik as int) =~= int_seg.skip(1));
            }
        }
        match parse_digits36(&v, lo0, ik, radix) {
            Err(ConvError::MalformedRadixString) => {
                assert(ipv is None);
                assert(spec_decode(num_string@, b) is None);
                return Err(ConvError::MalformedRadixString);
            },
            Err(_) => {
                assert(ipv matches Some(x) && (x > 0x7fff_ffff || x < -0x8000_0000));
                None
            },
            Ok(mag) => {
                let x: i64 = if neg {
                    -(mag as i64)
                } else {
                    mag as i64
                };
                assert(ipv == Some(x as int));
                if -0x8000_0000i64 <= x && x <= 0x7fff_ffffi64 {
                    Some(x)
                } else {
                    None
                }
            },
        }
    } else {
        let lo0: usize = if neg {
            1
        } else {
            0
        };
        proof {
            if neg {
                assert(v@.subrange(1int, ik as int) =~= int_seg.skip(1));
            } else {
                assert(v@.subrange(0int, ik as int) =~= int_seg);
            }
        }
        if !groups_ok_range(&v, lo0, ik, radix) {
            assert(ipv is None);
            assert(spec_decode(num_string@, b) is None);
            return Err(ConvError::MalformedRadixString);
        }
        match groups_fold(&v, lo0, ik, radix, 0) {
            Err(_) => {
                proof {
                    let gs = split_on(
                        if neg {
                            int_seg.skip(1)
                        } else {
                            int_seg
                        },
                        ':',
                    );
                    lemma_groups_val_acc_grows(gs, b, 0);
                }
                assert(ipv matches Some(x) && (x > 0x7fff_ffff || x < -0x8000_0000));
                None
            },
            Ok(mag) => {
                let x: i64 = if neg {
                    -(mag as i64)
                } else {
                    mag as i64
                };
                assert(ipv == Some(x as int));
                if -0x8000_0000i64 <= x && x <= 0x7fff_ffffi64 {
                    Some(x)
                } else {
                    None
                }
            },
        }
    };
    assert(ipv is Some);
    assert(ip_opt matches Some(x) ==> (ipv == Some(x as int) && -0x8000_0000 <= x
        <= 0x7fff_ffff));
    assert(ip_opt is None ==> (ipv matches Some(x) && (x > 0x7fff_ffff || x < -0x8000_0000)));
    // fractional segment, trimmed of its redundant zero tail
    let mut fhi: usize = n;
    let flo: usize = if ik < n {
        ik + 1
    } else {
        n
    };
    proof {
        assert(v@.subrange(flo as int, fhi as int) =~= frac_raw);
    }
    if radix <= 36 {
        while fhi > flo && v[fhi - 1] == '0'
            invariant
                flo <= fhi <= n,
                n == v@.len(),
                trim_frac_chars(v@.subrange(flo as int, fhi as int)) == trim_frac_chars(frac_raw),
            decreases fhi,
        {
            proof {
                let cur = v@.subrange(flo as int, fhi as int);
                assert(cur.last() == v@[fhi - 1int]);
                assert(cur.drop_last() =~= v@.subrange(flo as int, fhi - 1int));
            }
            fhi = fhi - 1;
        }
        proof {
            let cur = v@.subrange(flo as int, fhi as int);
            if cur.len() > 0 {
                assert(cur.last() == v@[fhi - 1int]);
            }
            assert(trim_frac_chars(cur) == cur);
        }
    } else {
        while fhi - flo >= 3 && v[fhi - 3] == ':' && v[fhi - 2] == '0' && v[fhi - 1] == '0'
            invariant
                flo <= fhi <= n,
                n == v@.len(),
                trim_frac_groups(v@.subrange(flo as int, fhi as int)) == trim_frac_groups(frac_raw),
            decreases fhi,
        {
            proof {
                let cur = v@.subrange(flo as int, fhi as int);
                assert(cur.len() >= 3);
                assert(cur[cur.len() - 3] == v@[fhi - 3int]);
                assert(cur[cur.len() - 2] == v@[fhi - 2int]);
                assert(cur.last() == v@[fhi - 1int]);
                assert(cur.take(cur.len() - 3) =~= v@.subrange(flo as int, fhi - 3int));
            }
            fhi = fhi - 3;
        }
        proof {
            let cur = v@.subrange(flo as int, fhi as int);
            if cur.len() >= 3 {
                assert(cur[cur.len() - 3] == v@[fhi - 3int]);
                assert(cur[cur.len() - 2] == v@[fhi - 2int]);
                assert(cur.last() == v@[fhi - 1int]);
            }
            assert(trim_frac_groups(cur) == cur);
        }
    }
    let ghost tf = if b <= 36 {
        trim_frac_chars(frac_raw)
    } else {
        trim_frac_groups(frac_raw)
    };
    assert(v@.subrange(flo as int, fhi as int) == tf);
    let ghost fv = if ks < 0 {
        Some((0int, 1int))
    } else {
        spec_frac_val(tf, b)
    };
    let fr: Rational = if ik < n {
        match frac_val_range(&v, flo, fhi, radix) {
            Ok(q) => q,
            Err(ConvError::MalformedRadixString) => {
                assert(fv is None);
                assert(spec_decode(num_string@, b) is None);
                return Err(ConvError::MalformedRadixString);
            },
            Err(_) => {
                assert(fv matches Some((x, d)) && d > crate::rational::VAL_CAP);
                assert(spec_decode(num_string@, b) is Some && !spec_decode_fits(num_string@, b));
                return Err(ConvError::PrecisionOverflow);
            },
        }
    } else {
        Rational { num: 0, den: 1 }
    };
    assert(fv matches Some((x, d)) && fr.num == x && fr.den == d && 0 <= fr.num && 1 <= fr.den
        <= crate::rational::VAL_CAP);
    let ip: i64 = match ip_opt {
        Some(x) => x,
        None => {
            assert(spec_decode(num_string@, b) is Some && !spec_decode_fits(num_string@, b));
            return Err(ConvError::PrecisionOverflow);
        },
    };
    proof {
        assert(-0x8000_0000 * crate::rational::VAL_CAP <= ip as int * fr.den as int
            <= 0x7fff_ffff * crate::rational::VAL_CAP) by (nonlinear_arith)
            requires
                -0x8000_0000 <= ip as int <= 0x7fff_ffff,
                1 <= fr.den as int <= crate::rational::VAL_CAP,
        ;
    }
    let base_part: i128 = (ip as i128) * fr.den;
    let num: i128 = if neg {
        base_part - fr.num
    } else {
        base_part + fr.num
    };
    let q = Rational { num, den: fr.den };
    assert(q.wf());
    assert(spec_decode(num_string@, b) == Some((q.num as int, q.den as int)));
    assert(spec_decode_fits(num_string@, b));
    Ok(q)
}

// ------------------------------------------------------------------
// Radix fractions ("N/D" in a base) and the boundary record
// ------------------------------------------------------------------

/// The two integers of a `N/D` radix-fraction string, parsed in base
/// `b`; `None` without exactly one `/` or with an ill-formed side.
pub open spec fn spec_parse_fraction(s: Seq<char>, b: int) -> Option<(int, int)> {
    let k = find_char_at(s, '/');
    if k < 0 {
        None
    } else {
        let p1 = s.take(k);
        let p2 = s.skip(k + 1);
        if find_char_at(p2, '/') >= 0 {
            None
        } else {
            let a = if b <= 36 {
                spec_parse_int36(p1, b)
            } else {
                spec_parse_grouped(p1, b)
            };
            let c = if b <= 36 {
                spec_parse_int36(p2, b)
            } else {
                spec_parse_grouped(p2, b)
            };
            match (a, c) {
                (Some(x), Some(y)) => Some((x, y)),
                _ => None,
            }
        }
    }
}

/// The characters `v[lo..hi]` as a `String`.
pub(crate) fn vec_slice_string(v: &Vec<char>, lo: usize, hi: usize) -> (r: String)
    requires
        lo <= hi <= v@.len(),
    ensures
        r@ == v@.subrange(lo as int, hi as int),
{
    let mut p: Vec<char> = Vec::new();
    let mut j = lo;
    while j < hi
        invariant
            lo <= j <= hi <= v@.len(),
            p@ == v@.subrange(lo as int, j as int),
        decreases hi - j,
    {
        p.push(v[j]);
        assert(p@ =~= v@.subrange(lo as int, j + 1int));
        j = j + 1;
    }
    chars_to_string(&p)
}

/// Parses a `N/D` radix-fraction string, evaluates it as an exact
/// rational (denominator kept positive, the sign on the numerator) and
/// re-encodes that value in the same base.  `InvalidBase` below base
/// 2; `MalformedRadixString` exactly when the text is not two
/// well-formed integer segments around one `/`; `DivisionByZero` for a
/// zero denominator; `PrecisionOverflow` when a side leaves `i32`.
pub fn convert_radix_fraction_to_radix(num_str: String, radix: u32) -> (r: Result<
    (Rational, String),
    ConvError,
>)
    ensures
        radix < 2 ==> r == Err::<(Rational, String), ConvError>(ConvError::InvalidBase),
        radix >= 2 ==> ({
            let pf = spec_parse_fraction(num_str@, radix as int);
            &&& (pf is None <==> r == Err::<(Rational, String), ConvError>(
                ConvError::MalformedRadixString,
            ))
            &&& (pf matches Some((x, y)) && -0x8000_0000 <= x <= 0x7fff_ffff && -0x8000_0000 <= y
                <= 0x7fff_ffff && y == 0 ==> r == Err::<(Rational, String), ConvError>(
                ConvError::DivisionByZero,
            ))
            &&& (pf matches Some((x, y)) ==> (r is Ok <==> (-0x8000_0000 <= x <= 0x7fff_ffff
                && -0x8000_0000 <= y <= 0x7fff_ffff && y != 0)))
            &&& (r matches Ok((q, txt)) ==> (pf matches Some((x, y)) && q.num == (if y < 0 {
                -x
            } else {
                x
            }) && q.den == abs(y) && txt@ == spec_encode(q.num as int, q.den as int, radix as int)))
        }),
{
    if radix < 2 {
        return Err(ConvError::InvalidBase);
    }
    let v = str_chars(num_str.as_str());
    let n = v.len();
    let k = match find_char_range(&v, 0, n, '/') {
        Some(k) => k,
        None => {
            proof {
                assert(v@.subrange(0int, n as int) =~= num_str@);
            }
            return Err(ConvError::MalformedRadixString);
        },
    };
    proof {
        assert(v@.subrange(0int, n as int) =~= num_str@);
        assert(v@.subrange(0int, k as int) =~= num_str@.take(k as int));
        assert(v@.subrange(k + 1int, n as int) =~= num_str@.skip(k + 1int));
    }
    match find_char_range(&v, k + 1, n, '/') {
        Some(_) => {
            return Err(ConvError::MalformedRadixString);
        },
        None => {
        },
    }
    let s1 = vec_slice_string(&v, 0, k);
    let s2 = vec_slice_string(&v, k + 1, n);
    let numer_res = radix_to_decimal(s1, radix);
    let denom_res = radix_to_decimal(s2, radix);
    if matches!(numer_res, Err(ConvError::MalformedRadixString)) || matches!(
        denom_res,
        Err(ConvError::MalformedRadixString),
    ) {
        return Err(ConvError::MalformedRadixString);
    }
    let numer = match numer_res {
        Ok(x) => x,
        Err(_) => {
            return Err(ConvError::PrecisionOverflow);
        },
    };
    let denom = match denom_res {
        Ok(x) => x,
        Err(_) => {
            return Err(ConvError::PrecisionOverflow);
        },
    };
    if denom == 0 {
        return Err(ConvError::DivisionByZero);
    }
    let q = if denom < 0 {
        Rational { num: -(numer as i128), den: -(denom as i128) }
    } else {
        Rational { num: numer as i128, den: denom as i128 }
    };
    let txt = match decimal_to_radix_pv(&q, radix) {
        Ok(t) => t,
        Err(_) => {
            proof {
                assert(false);
            }
            String::new()
        },
    };
    Ok((q, txt))
}

/// The text a mode letter selects: `to` for `r`, `from` otherwise.
pub open spec fn spec_mode_text(m: Seq<char>) -> Seq<char> {
    if m == seq!['r'] {
        seq!['t', 'o']
    } else {
        seq!['f', 'r', 'o', 'm']
    }
}

/// A boundary record tying a text value to its decimal value, base,
/// conversion direction, and the value's base-256-depth mixed-number
/// rendering in that base.
pub struct RadixValue {
    pub value: String,
    pub dec_val: Rational,
    pub base: u32,
    pub mode: String,
    pub frac: String,
}

impl RadixValue {
    /// Builds the record: direction text from the mode letter, and the
    /// value approximated at depth 256 rendered as a mixed number.
    /// `InvalidBase` below base 2; `PrecisionOverflow` when the
    /// approximation numerator leaves `i32`.
    pub fn new(value: String, dec_val: Rational, base: u32, mode: String) -> (r: Result<
        RadixValue,
        ConvError,
    >)
        requires
            dec_val.small(),
        ensures
            base < 2 ==> r == Err::<RadixValue, ConvError>(ConvError::InvalidBase),
            base >= 2 ==> ({
                let vn = dec_val.num as int;
                let vd = dec_val.den as int;
                &&& (r is Ok <==> -0x8000_0000 <= crate::fractions::approx_numer(vn, vd, 256)
                    <= 0x7fff_ffff)
                &&& (r matches Ok(rv) ==> rv.value@ == value@ && rv.dec_val == dec_val && rv.base
                    == base && rv.mode@ == spec_mode_text(mode@) && rv.frac@
                    == crate::fractions::spec_mixed(
                    crate::fractions::approx_numer(vn, vd, 256),
                    crate::fractions::approx_denom(vn, vd, 256),
                    base as int,
                ))
                &&& (r is Err ==> r == Err::<RadixValue, ConvError>(ConvError::PrecisionOverflow))
            }),
    {
        if base < 2 {
            return Err(ConvError::InvalidBase);
        }
        let is_r = mode.as_str().unicode_len() == 1 && mode.as_str().get_char(0) == 'r';
        proof {
            if mode@ == seq!['r'] {
                assert(mode@.len() == 1 && mode@[0] == 'r');
            }
            if is_r {
                assert(mode@ =~= seq!['r']);
            }
            reveal_strlit("to");
            reveal_strlit("from");
        }
        let mode_str = if is_r {
            String::from_str("to")
        } else {
            String::from_str("from")
        };
        assert(mode_str@ =~= spec_mode_text(mode@));
        let (numer, denom) = match crate::fractions::float_to_fraction(&dec_val, 256) {
            Ok((n, d, _)) => (n, d),
            Err(e) => {
                return Err(e);
            },
        };
        let frac = match fraction_to_units(numer, denom, base) {
            Ok(f) => f,
            Err(_) => {
                proof {
                    assert(false);
                }
                String::new()
            },
        };
        Ok(RadixValue { value, dec_val, base, mode: mode_str, frac })
    }
}


// ------------------------------------------------------------------
// Laws
// ------------------------------------------------------------------

/// Sign law: for a positive value, encoding its negation yields
/// exactly `-` followed by the encoding of the value, in every base.
pub proof fn lemma_encode_sign(vn: int, vd: int, b: int)
    requires
        vn > 0,
        vd >= 1,
    ensures
        spec_encode(-vn, vd, b) == seq!['-'] + spec_encode(vn, vd, b),
{
    assert(abs(-vn) == abs(vn));
    let ext = spec_extract(vn, vd);
    let ext2 = spec_extract(-vn, vd);
    assert(ext2 == ext);
    let carry = ext.0 == ext.1 && ext.0 != 0;
    let mag = abs(vn) as int / vd + (if carry {
        1int
    } else {
        0int
    });
    let tail = (if (if carry {
        0int
    } else {
        ext.0
    }) != 0 {
        seq!['.'] + spec_zeros_text(
            spec_num_zeroes(
                if carry {
                    0int
                } else {
                    ext.0
                },
                if carry {
                    1int
                } else {
                    ext.1
                },
                b,
            ),
            b,
        ) + spec_render_digits(
            spec_radval_digits(
                if carry {
                    0int
                } else {
                    ext.0
                },
                if carry {
                    1int
                } else {
                    ext.1
                },
                b,
            ),
            b,
        )
    } else {
        Seq::<char>::empty()
    });
    assert(spec_encode(vn, vd, b) == spec_int_radix_str(mag, b, false) + tail);
    assert(spec_encode(-vn, vd, b) == spec_int_radix_str(mag, b, true) + tail);
    assert(spec_int_radix_str(mag, b, true) =~= seq!['-'] + spec_int_radix_str(mag, b, false));
    assert(spec_encode(-vn, vd, b) =~= seq!['-'] + spec_encode(vn, vd, b));
}

/// Approximation-bound law: the residual error of the depth-`p` search
/// never exceeds the tolerance `1/(p+1)`; and it lies strictly below
/// the tolerance whenever no probe lands exactly on the tolerance
/// boundary on either side.
pub proof fn lemma_residual_bound(vn: int, vd: int, p: int)
    requires
        vd >= 1,
        p >= 0,
    ensures
        crate::fractions::approx_err_num(vn, vd, p) * (p + 1) <= vd,
        (forall|i: int|
            1 <= i <= p ==> (#[trigger] ((vn * i) % vd)) * (p + 1) != vd && (vd - (vn * i) % vd)
                * (p + 1) != vd) ==> crate::fractions::approx_err_num(vn, vd, p) * (p + 1) < vd,
{
    let fa = crate::fractions::first_accept(vn, vd, p);
    crate::fractions::lemma_first_accept_range(vn, vd, p, 1);
    if fa == 0 {
        assert(crate::fractions::approx_err_num(vn, vd, p) == 0);
    } else {
        assert(crate::fractions::approx_accepts(vn, vd, p, fa));
    }
}

/// Mixed-number law: a rendering never begins with a space, and a zero
/// remainder leaves the fractional term out entirely, so the text is
/// the whole part alone.
pub proof fn lemma_mixed_shape(numer: int, denom: int, b: int)
    requires
        denom != 0,
        2 <= b <= 0x1_0000_0000,
    ensures
        crate::fractions::spec_mixed(numer, denom, b).len() > 0 ==> crate::fractions::spec_mixed(
            numer,
            denom,
            b,
        )[0] != ' ',
        abs(numer) as int % (abs(denom) as int) == 0 ==> crate::fractions::spec_mixed(
            numer,
            denom,
            b,
        ) == (if abs(numer) as int / (abs(denom) as int) > 0 {
            spec_int_radix_str(abs(numer) as int / (abs(denom) as int), b, numer < 0)
        } else {
            Seq::<char>::empty()
        }),
{
    let m = abs(numer) as int;
    let d = abs(denom) as int;
    let u = m / d;
    let rm = m % d;
    let neg = numer < 0;
    vstd::arithmetic::div_mod::lemma_mod_bound(m, d);
    vstd::arithmetic::div_mod::lemma_div_pos_is_pos(m, d);
    if rm == 0 {
        if u > 0 {
            assert(crate::fractions::spec_mixed(numer, denom, b) =~= spec_int_radix_str(
                u,
                b,
                neg,
            ));
        } else {
            assert(crate::fractions::spec_mixed(numer, denom, b) =~= Seq::<char>::empty());
        }
    }
    let s = crate::fractions::spec_mixed(numer, denom, b);
    if s.len() > 0 {
        lemma_int_radix_str_head(u, b, neg);
        lemma_int_radix_str_head(rm, b, neg);
        if u > 0 {
            assert(s[0] == spec_int_radix_str(u, b, neg)[0]);
        } else if rm > 0 {
            assert(s[0] == spec_int_radix_str(rm, b, neg)[0]);
        }
    }
}

/// Decimal text consists of decimal digit characters.
proof fn lemma_dec_chars_digits(n: u32)
    ensures
        spec_dec_chars(n).len() >= 1,
        forall|k: int|
            0 <= k < spec_dec_chars(n).len() ==> 48 <= #[trigger] spec_dec_chars(n)[k] as int
                <= 57,
    decreases n,
{
    if n >= 10 {
        lemma_div_decreases(n as int, 10);
        lemma_dec_chars_digits(n / 10);
    }
}

/// A digit token is nonempty and starts with a digit or letter
/// character, never a space or sign.
proof fn lemma_digit_text_head(d: u32, b: int)
    requires
        2 <= b,
        d < b || d < 10,
    ensures
        spec_digit_text(d, b).len() >= 1,
        (48 <= spec_digit_text(d, b)[0] as int <= 57) || (97 <= spec_digit_text(d, b)[0] as int
            <= 122),
{
    if b <= 36 {
    } else if d < 100 {
    } else {
        lemma_dec_chars_digits(d);
    }
}

/// A rendered integer string is nonempty; it begins with `-` when
/// negative, else with a digit or letter character.
proof fn lemma_int_radix_str_head(mag: int, b: int, neg: bool)
    requires
        0 <= mag,
        2 <= b <= 0x1_0000_0000,
    ensures
        spec_int_radix_str(mag, b, neg).len() >= 1,
        spec_int_radix_str(mag, b, neg)[0] == (if neg {
            '-'
        } else {
            spec_int_radix_str(mag, b, neg)[0]
        }),
        !neg ==> ((48 <= spec_int_radix_str(mag, b, neg)[0] as int <= 57) || (97
            <= spec_int_radix_str(mag, b, neg)[0] as int <= 122)),
        spec_int_radix_str(mag, b, neg)[0] != ' ',
{
    lemma_digits_be_props(mag, b);
    let ds = spec_digits_be(mag, b);
    assert(0 <= ds[0] < b);
    lemma_digit_text_head(ds[0], b);
    if ds.len() == 1 {
        assert(spec_render_digits(ds, b) == spec_digit_text(ds[0], b));
    } else {
        assert(spec_render_digits(ds, b) == spec_digit_text(ds[0], b) + spec_sep(b)
            + spec_render_digits(ds.drop_first(), b));
    }
    assert(spec_render_digits(ds, b)[0] == spec_digit_text(ds[0], b)[0]);
    assert(' ' as int == 32);
    assert('-' as int == 45);
    if !neg {
        assert(spec_int_radix_str(mag, b, neg)[0] == spec_render_digits(ds, b)[0]);
    }
}


/// The digits of a long-division window lie below the base.
pub proof fn lemma_frac_window_ok(f: int, fd: int, b: int, cnt: int)
    requires
        0 <= f < fd,
        2 <= b <= 0x1_0000_0000,
    ensures
        digits_ok(spec_frac_window(f, fd, b, cnt), b),
    decreases cnt,
{
    if cnt > 0 {
        let t = f * b;
        assert(0 <= t && t < fd * b) by (nonlinear_arith)
            requires
                t == f * b,
                0 <= f < fd,
                2 <= b,
        ;
        lemma_fundamental_div_mod(t, fd);
        lemma_mod_bound(t, fd);
        assert(0 <= t / fd < b) by (nonlinear_arith)
            requires
                t == fd * (t / fd) + t % fd,
                0 <= t % fd < fd,
                t < fd * b,
                0 <= t,
                1 <= fd,
        ;
        lemma_frac_window_ok(t % fd, fd, b, cnt - 1);
        let w = spec_frac_window(f, fd, b, cnt);
        let rest = spec_frac_window(t % fd, fd, b, cnt - 1);
        assert(w == seq![(t / fd) as u32] + rest);
        assert forall|k: int| 0 <= k < w.len() implies 0 <= #[trigger] w[k] < b by {
            if k == 0 {
                assert(w[0] == (t / fd) as u32);
            } else {
                assert(w[k] == rest[k - 1]);
            }
        }
    }
}


/// Prepending a digit to a big-endian fold.
proof fn lemma_fold_front(d: u32, rest: Seq<u32>, b: int)
    ensures
        fold_be(seq![d] + rest, b) == d * vstd::arithmetic::power::pow(b, rest.len()) + fold_be(
            rest,
            b,
        ),
    decreases rest.len(),
{
    lemma_pow_step(b, 0);
    if rest.len() == 0 {
        assert(seq![d] + rest =~= seq![d]);
        assert((seq![d]).drop_last() =~= Seq::<u32>::empty());
        assert(fold_be(Seq::<u32>::empty(), b) == 0);
        assert(fold_be(seq![d], b) == 0 * b + d);
    } else {
        let hd = rest.drop_last();
        let x = rest.last();
        lemma_fold_front(d, hd, b);
        lemma_pow_step(b, hd.len());
        let p1 = vstd::arithmetic::power::pow(b, hd.len());
        assert((seq![d] + rest).drop_last() =~= seq![d] + hd);
        assert((seq![d] + rest).last() == x);
        assert(fold_be(seq![d] + rest, b) == (d * p1 + fold_be(hd, b)) * b + x);
        assert((d * p1 + fold_be(hd, b)) * b == d * (p1 * b) + fold_be(hd, b) * b)
            by (nonlinear_arith);
        assert(d * (b * p1) == d * (p1 * b)) by (nonlinear_arith);
    }
}

/// The digit window denotes exactly the scaled-and-truncated fraction:
/// its digits, read as a base-`b` integer, are `floor(f * b^cnt / fd)`.
pub proof fn lemma_window_value(f: int, fd: int, b: int, cnt: int)
    requires
        0 <= f < fd,
        2 <= b <= 0x1_0000_0000,
        0 <= cnt,
    ensures
        spec_frac_window(f, fd, b, cnt).len() == cnt,
        fold_be(spec_frac_window(f, fd, b, cnt), b) == f * vstd::arithmetic::power::pow(
            b,
            cnt as nat,
        ) / fd,
    decreases cnt,
{
    lemma_pow_step(b, 0);
    if cnt == 0 {
        vstd::arithmetic::div_mod::lemma_basic_div(f, fd);
        assert(f * 1 == f) by (nonlinear_arith);
    } else {
        let t = f * b;
        assert(0 <= t && t < fd * b) by (nonlinear_arith)
            requires
                t == f * b,
                0 <= f < fd,
                2 <= b,
        ;
        lemma_fundamental_div_mod(t, fd);
        lemma_mod_bound(t, fd);
        let d0 = t / fd;
        let r0 = t % fd;
        assert(0 <= d0 < b) by (nonlinear_arith)
            requires
                t == fd * d0 + r0,
                0 <= r0 < fd,
                t < fd * b,
                0 <= t,
                1 <= fd,
        ;
        lemma_window_value(r0, fd, b, cnt - 1);
        let rest = spec_frac_window(r0, fd, b, cnt - 1);
        let p1 = vstd::arithmetic::power::pow(b, (cnt - 1) as nat);
        vstd::arithmetic::power::lemma_pow_positive(b, (cnt - 1) as nat);
        assert(spec_frac_window(f, fd, b, cnt) == seq![d0 as u32] + rest);
        lemma_fold_front(d0 as u32, rest, b);
        assert(fold_be(spec_frac_window(f, fd, b, cnt), b) == d0 * p1 + r0 * p1 / fd);
        vstd::arithmetic::div_mod::lemma_hoist_over_denominator(r0 * p1, d0 * p1, fd as nat);
        assert(r0 * p1 / fd + d0 * p1 == (r0 * p1 + (d0 * p1) * fd) / fd);
        assert(r0 * p1 + (d0 * p1) * fd == t * p1) by (nonlinear_arith)
            requires
                t == fd * d0 + r0,
        ;
        lemma_pow_step(b, (cnt - 1) as nat);
        assert(t * p1 == f * (b * p1)) by (nonlinear_arith)
            requires
                t == f * b,
        ;
        assert(f * vstd::arithmetic::power::pow(b, cnt as nat) == f * (b * p1));
    }
}

/// Dropping leading zeros keeps digits in range and leaves a nonzero
/// head when anything is left.
pub proof fn lemma_drop_leading(s: Seq<u32>, b: int)
    requires
        digits_ok(s, b),
    ensures
        digits_ok(drop_leading_zeros(s), b),
        drop_leading_zeros(s).len() > 0 ==> drop_leading_zeros(s)[0] != 0,
    decreases s.len(),
{
    if s.len() > 0 && s[0] == 0 {
        assert(digits_ok(s.drop_first(), b)) by {
            assert(forall|k: int|
                0 <= k < s.drop_first().len() ==> s.drop_first()[k] == s[k + 1]);
        }
        lemma_drop_leading(s.drop_first(), b);
    }
}

/// Trimming trailing zeros leaves no zero tail, and keeps a nonzero
/// head.
pub proof fn lemma_trim_zeros_tail(s: Seq<u32>)
    ensures
        trim_zeros(s).len() > 0 ==> trim_zeros(s).last() != 0,
        s.len() > 0 && s[0] != 0 ==> trim_zeros(s).len() > 0 && trim_zeros(s)[0] == s[0],
    decreases s.len(),
{
    if s.len() > 0 && s.last() == 0 {
        lemma_trim_zeros_tail(s.drop_last());
        if s.len() > 1 {
            assert(s.drop_last()[0] == s[0]);
        }
    }
}

/// Grouped-format law: in a base above 36, the kept fractional digits
/// of an encoding are all below the base and never end in a zero
/// digit, so the rendered segment carries no trailing `:00` token; and
/// each token is two zero-padded decimal characters, with the plain
/// decimal text for digit values of 100 and more.  The one window this
/// does not cover is an all-zero one, whose segment is the single
/// token `00`.
pub proof fn lemma_grouped_fraction_format(f: int, fd: int, b: int)
    requires
        36 < b <= 0x1_0000_0000,
        0 < f < fd,
        drop_leading_zeros(spec_frac_window(f, fd, b, spec_dec_len(b))).len() > 0,
    ensures
        ({
            let kept = spec_radval_digits(f, fd, b);
            &&& digits_ok(kept, b)
            &&& kept.len() > 0
            &&& kept.last() != 0
            &&& forall|k: int|
                0 <= k < kept.len() ==> (#[trigger] kept[k] < 100 ==> spec_digit_text(
                    kept[k],
                    b,
                ).len() == 2) && (kept[k] >= 100 ==> spec_digit_text(kept[k], b).len() >= 3)
                    && (forall|j: int|
                    0 <= j < spec_digit_text(kept[k], b).len() ==> 48 <= #[trigger] spec_digit_text(
                        kept[k],
                        b,
                    )[j] as int <= 57)
        }),
{
    let w = spec_frac_window(f, fd, b, spec_dec_len(b));
    lemma_frac_window_ok(f, fd, b, spec_dec_len(b));
    lemma_drop_leading(w, b);
    let nz = drop_leading_zeros(w);
    lemma_trim_zeros_tail(nz);
    lemma_trim_zeros_tail(cap_groups(nz));
    lemma_cap_groups_ok(nz, b);
    lemma_trim_zeros_ok(nz, b);
    lemma_trim_zeros_ok(cap_groups(nz), b);
    let kept = spec_radval_digits(f, fd, b);
    if nz.len() > 1 {
        assert(cap_groups(nz)[0] == nz[0]);
        assert(kept == trim_zeros(cap_groups(nz)));
    } else {
        assert(kept == nz);
    }
    assert(kept.len() > 0 && kept.last() != 0);
    lemma_tokens_format(kept, b);
}

/// Every digit token of a range-checked grouped sequence is well
/// formed: two zero-padded decimal characters below 100, the plain
/// decimal text (three or more characters) from 100 up.
pub proof fn lemma_tokens_format(ds: Seq<u32>, b: int)
    requires
        36 < b,
        digits_ok(ds, b),
    ensures
        forall|k: int|
            0 <= k < ds.len() ==> (#[trigger] ds[k] < 100 ==> spec_digit_text(ds[k], b).len()
                == 2) && (ds[k] >= 100 ==> spec_digit_text(ds[k], b).len() >= 3) && (forall|j: int|
                0 <= j < spec_digit_text(ds[k], b).len() ==> 48 <= #[trigger] spec_digit_text(
                    ds[k],
                    b,
                )[j] as int <= 57),
{
    assert forall|k: int| 0 <= k < ds.len() implies (#[trigger] ds[k] < 100 ==> spec_digit_text(
        ds[k],
        b,
    ).len() == 2) && (ds[k] >= 100 ==> spec_digit_text(ds[k], b).len() >= 3) && (forall|j: int|
        0 <= j < spec_digit_text(ds[k], b).len() ==> 48 <= #[trigger] spec_digit_text(
            ds[k],
            b,
        )[j] as int <= 57) by {
        let d = ds[k];
        if d >= 100 {
            lemma_dec_chars_digits(d);
            assert(spec_digit_text(d, b) == spec_dec_chars(d));
            assert(spec_dec_chars(d).len() >= 3) by {
                lemma_div_decreases(d as int, 10);
                lemma_dec_chars_digits((d / 10) as u32);
                lemma_dec_chars_digits(((d / 10) / 10) as u32);
                assert(d / 10 >= 10);
                assert(spec_dec_chars(d) == spec_dec_chars((d / 10) as u32).push(
                    nibble_char((d % 10) as u32),
                ));
                assert(spec_dec_chars((d / 10) as u32) == spec_dec_chars(
                    ((d / 10) / 10) as u32,
                ).push(nibble_char(((d / 10) % 10) as u32)));
            }
        } else {
            let tx = spec_digit_text(d, b);
            assert(tx == seq![nibble_char((d / 10) as u32), nibble_char((d % 10) as u32)]);
            assert(d / 10 < 10 && d % 10 < 10);
            assert(48 <= tx[0] as int <= 57);
            assert(48 <= tx[1] as int <= 57);
            assert forall|j: int| 0 <= j < tx.len() implies 48 <= #[trigger] tx[j] as int
                <= 57 by {
                if j == 0 {
                    assert(tx[j] == tx[0]);
                } else {
                    assert(tx[j] == tx[1]);
                }
            }
        }
    }
}

/// Digit characters round-trip: the character of a digit value below
/// 36 reads back as that value.
pub proof fn lemma_char_val_nibble(d: u32)
    requires
        d < 36,
    ensures
        char_val(nibble_char(d)) == d,
{
}

/// In a single-character base the rendered digits are one character
/// each, in order.
pub proof fn lemma_render_flat36(ds: Seq<u32>, b: int)
    requires
        2 <= b <= 36,
        digits_ok(ds, b),
    ensures
        spec_render_digits(ds, b).len() == ds.len(),
        forall|k: int|
            0 <= k < ds.len() ==> #[trigger] spec_render_digits(ds, b)[k] == nibble_char(ds[k]),
    decreases ds.len(),
{
    if ds.len() > 1 {
        assert(digits_ok(ds.drop_first(), b)) by {
            assert(forall|k: int|
                0 <= k < ds.drop_first().len() ==> ds.drop_first()[k] == ds[k + 1]);
        }
        lemma_render_flat36(ds.drop_first(), b);
        let r = spec_render_digits(ds, b);
        let rr = spec_render_digits(ds.drop_first(), b);
        assert(r == spec_digit_text(ds[0], b) + spec_sep(b) + rr);
        assert(r =~= seq![nibble_char(ds[0])] + rr);
        assert forall|k: int| 0 <= k < ds.len() implies #[trigger] r[k] == nibble_char(ds[k]) by {
            if k > 0 {
                assert(r[k] == rr[k - 1]);
                assert(ds.drop_first()[k - 1] == ds[k]);
            }
        }
    }
}

/// Left-folding one appended character.
proof fn lemma_digits_val_push(s: Seq<char>, b: int, acc: int, c: char)
    ensures
        digits_val_acc(s.push(c), b, acc) == digits_val_acc(s, b, acc) * b + char_val(c),
    decreases s.len(),
{
    assert(s.push(c).len() == s.len() + 1);
    if s.len() == 0 {
        assert(s.push(c)[0] == c);
        assert(s.push(c).drop_first() =~= Seq::<char>::empty());
        assert(digits_val_acc(s.push(c), b, acc) == digits_val_acc(
            s.push(c).drop_first(),
            b,
            acc * b + char_val(s.push(c)[0]),
        ));
        assert(digits_val_acc(Seq::<char>::empty(), b, acc * b + char_val(c)) == acc * b
            + char_val(c));
        assert(digits_val_acc(s, b, acc) == acc);
    } else {
        assert(s.push(c)[0] == s[0]);
        assert(s.push(c).drop_first() =~= s.drop_first().push(c));
        lemma_digits_val_push(s.drop_first(), b, acc * b + char_val(s[0]), c);
        assert(digits_val_acc(s.push(c), b, acc) == digits_val_acc(
            s.drop_first().push(c),
            b,
            acc * b + char_val(s[0]),
        ));
        assert(digits_val_acc(s, b, acc) == digits_val_acc(
            s.drop_first(),
            b,
            acc * b + char_val(s[0]),
        ));
    }
}

/// The rendered digits of a sequence read back as its folded value.
proof fn lemma_chars_fold(ds: Seq<u32>, b: int)
    requires
        2 <= b <= 36,
        digits_ok(ds, b),
    ensures
        digits_valid(spec_render_digits(ds, b), b),
        digits_val(spec_render_digits(ds, b), b) == fold_be(ds, b),
    decreases ds.len(),
{
    lemma_render_flat36(ds, b);
    assert forall|k: int|
        0 <= k < spec_render_digits(ds, b).len() implies 0 <= #[trigger] char_val(
        spec_render_digits(ds, b)[k],
    ) < b by {
        lemma_char_val_nibble(ds[k]);
    }
    if ds.len() == 0 {
    } else {
        let hd = ds.drop_last();
        assert(digits_ok(hd, b)) by {
            assert(forall|k: int| 0 <= k < hd.len() ==> hd[k] == ds[k]);
        }
        lemma_chars_fold(hd, b);
        lemma_render_flat36(hd, b);
        let r = spec_render_digits(ds, b);
        let rh = spec_render_digits(hd, b);
        assert(r =~= rh.push(nibble_char(ds.last()))) by {
            assert(forall|k: int| 0 <= k < hd.len() ==> hd[k] == ds[k]);
        }
        lemma_digits_val_push(rh, b, 0, nibble_char(ds.last()));
        lemma_char_val_nibble(ds.last());
    }
}

/// Round-trip law (integer magnitudes): in every single-character
/// base, parsing the rendering of a nonnegative integer returns
/// exactly that integer.
pub proof fn lemma_integer_roundtrip(n: int, b: int)
    requires
        0 <= n,
        2 <= b <= 36,
    ensures
        spec_parse_int36(spec_int_radix_str(n, b, false), b) == Some(n),
{
    lemma_digits_be_props(n, b);
    let ds = spec_digits_be(n, b);
    lemma_render_flat36(ds, b);
    lemma_chars_fold(ds, b);
    let s = spec_int_radix_str(n, b, false);
    assert(s =~= spec_render_digits(ds, b));
    assert(s.len() >= 1);
    lemma_char_val_nibble(ds[0]);
    assert(s[0] == nibble_char(ds[0]));
    assert(char_val(s[0]) >= 0);
    assert(s[0] != '-' && s[0] != '+');
    assert(digits_valid(s, b));
    assert(digits_val(s, b) == n);
}


/// Grouped-format law, integer side: in a base above 36 the integer
/// part's digits all lie below the base and every rendered token is
/// well formed (two zero-padded decimal characters, the plain decimal
/// text for digit values of 100 and more).
pub proof fn lemma_grouped_integer_format(mag: int, b: int)
    requires
        0 <= mag,
        36 < b <= 0x1_0000_0000,
    ensures
        digits_ok(spec_digits_be(mag, b), b),
        spec_digits_be(mag, b).len() >= 1,
        forall|k: int|
            0 <= k < spec_digits_be(mag, b).len() ==> (#[trigger] spec_digits_be(mag, b)[k] < 100
                ==> spec_digit_text(spec_digits_be(mag, b)[k], b).len() == 2) && (spec_digits_be(
                mag,
                b,
            )[k] >= 100 ==> spec_digit_text(spec_digits_be(mag, b)[k], b).len() >= 3) && (forall|
                j: int,
            |
                0 <= j < spec_digit_text(spec_digits_be(mag, b)[k], b).len() ==> 48
                    <= #[trigger] spec_digit_text(spec_digits_be(mag, b)[k], b)[j] as int <= 57),
{
    lemma_digits_be_props(mag, b);
    lemma_tokens_format(spec_digits_be(mag, b), b);
}

/// Fragment-cap law: above base 36 the kept fragment digits are a
/// prefix of the magnitude's canonical digits, at most eight of them,
/// and a multi-digit magnitude keeps a nonzero head and tail digit, so
/// the rendered fragment carries no trailing `:00` token.
pub proof fn lemma_fragment_groups(v: int, b: int)
    requires
        36 < b <= 0x1_0000_0000,
    ensures
        ({
            let ds = spec_digits_be(abs(v) as int, b);
            let kept = spec_fragment_digits(v, b);
            &&& kept.len() <= 8 || ds.len() == 1
            &&& forall|k: int| 0 <= k < kept.len() ==> #[trigger] kept[k] == ds[k]
            &&& digits_ok(kept, b)
            &&& (ds.len() > 1 ==> kept.len() > 0 && kept.last() != 0 && kept[0] == ds[0])
        }),
{
    let ds = spec_digits_be(abs(v) as int, b);
    let kept = spec_fragment_digits(v, b);
    lemma_digits_be_props(abs(v) as int, b);
    lemma_cap_groups_ok(ds, b);
    lemma_trim_zeros_ok(cap_groups(ds), b);
    lemma_trim_zeros_tail(cap_groups(ds));
    if ds.len() > 1 {
        assert(kept == trim_zeros(cap_groups(ds)));
        assert(ds[0] != 0);
        assert(cap_groups(ds)[0] == ds[0]);
        assert(forall|k: int|
            0 <= k < cap_groups(ds).len() ==> #[trigger] cap_groups(ds)[k] == ds[k]);
        assert(kept.len() <= cap_groups(ds).len() <= 8);
        assert forall|k: int| 0 <= k < kept.len() implies #[trigger] kept[k] == ds[k] by {
            assert(kept[k] == cap_groups(ds)[k]);
        }
        assert(kept.len() > 0 && kept.last() != 0 && kept[0] == ds[0]);
    } else {
        assert(kept == ds);
        assert(forall|k: int| 0 <= k < kept.len() ==> #[trigger] kept[k] == ds[k]);
    }
}

/// Grouped-format law for a whole encoding: in a base above 36, both
/// the integer digits and the kept fractional digits of `spec_encode`
/// lie below the base with well-formed tokens (the owed leading zeros
/// are literal `00` tokens by construction), and the kept fractional
/// digits end in a nonzero digit -- so no trailing `:00` -- whenever
/// the digit window is not entirely zero.
pub proof fn lemma_encode_grouped_format(vn: int, vd: int, b: int)
    requires
        36 < b <= 0x1_0000_0000,
        1 <= vd,
    ensures
        ({
            let ext = spec_extract(vn, vd);
            let carry = ext.0 == ext.1 && ext.0 != 0;
            let mag = abs(vn) as int / vd + (if carry {
                1int
            } else {
                0int
            });
            let dn = if carry {
                0int
            } else {
                ext.0
            };
            let dd = if carry {
                1int
            } else {
                ext.1
            };
            let ids = spec_digits_be(mag, b);
            let kept = spec_radval_digits(dn, dd, b);
            &&& digits_ok(ids, b)
            &&& forall|k: int|
                0 <= k < ids.len() ==> (#[trigger] ids[k] < 100 ==> spec_digit_text(
                    ids[k],
                    b,
                ).len() == 2) && (ids[k] >= 100 ==> spec_digit_text(ids[k], b).len() >= 3)
            &&& (dn != 0 && drop_leading_zeros(
                spec_frac_window(dn, dd, b, spec_dec_len(b)),
            ).len() > 0 ==> digits_ok(kept, b) && kept.len() > 0 && kept.last() != 0)
        }),
{
    let ext = spec_extract(vn, vd);
    lemma_extract_bounds(vn, vd);
    let carry = ext.0 == ext.1 && ext.0 != 0;
    let mag = abs(vn) as int / vd + (if carry {
        1int
    } else {
        0int
    });
    vstd::arithmetic::div_mod::lemma_div_pos_is_pos(abs(vn) as int, vd);
    lemma_grouped_integer_format(mag, b);
    let dn = if carry {
        0int
    } else {
        ext.0
    };
    let dd = if carry {
        1int
    } else {
        ext.1
    };
    if dn != 0 && drop_leading_zeros(spec_frac_window(dn, dd, b, spec_dec_len(b))).len() > 0 {
        assert(0 < dn < dd);
        lemma_grouped_fraction_format(dn, dd, b);
    }
}

/// The cleaned fraction is a proper nonnegative fraction: numerator at
/// most the denominator, denominator positive.
pub proof fn lemma_extract_bounds(vn: int, vd: int)
    requires
        1 <= vd,
    ensures
        1 <= spec_extract(vn, vd).1,
        0 <= spec_extract(vn, vd).0 <= spec_extract(vn, vd).1,
{
    let f = abs(vn) as int % vd;
    lemma_mod_bound(abs(vn) as int, vd);
    if f != 0 {
        let fa = crate::fractions::first_accept(f, vd, 512);
        let sn = crate::fractions::round_div(f * fa, vd);
        if fa != 0 && 2 < fa && fa < 256 && crate::fractions::approx_err_num(f, vd, 512) * 512
            < vd && 0 < sn && sn < fa {
            lemma_quant_bounds(sn, fa);
        } else {
            lemma_quant_bounds(f, vd);
        }
    }
}

/// The re-quantized numerator lies in `[1, 10^15]` for a proper
/// positive fraction.
proof fn lemma_quant_bounds(f: int, fd: int)
    requires
        1 <= f <= fd,
    ensures
        1 <= spec_quant_num(f, fd) <= 1000000000000000,
{
    let t = f * 1000000000000000 + fd - 1;
    assert(1000000000000000 + fd - 1 <= t && t <= fd * 1000000000000000 + fd - 1)
        by (nonlinear_arith)
        requires
            t == f * 1000000000000000 + fd - 1,
            1 <= f <= fd,
    ;
    lemma_fundamental_div_mod(t, fd);
    lemma_mod_bound(t, fd);
    assert(1 <= t / fd <= 1000000000000000) by (nonlinear_arith)
        requires
            t == fd * (t / fd) + t % fd,
            0 <= t % fd < fd,
            1 <= fd,
            1000000000000000 + fd - 1 <= t,
            t <= fd * 1000000000000000 + fd - 1,
    ;
}


/// No rendered digit character, nor the sign, is a point.
proof fn lemma_int_str_no_dot(mag: int, b: int, neg: bool)
    requires
        0 <= mag,
        2 <= b <= 36,
    ensures
        find_char_at(spec_int_radix_str(mag, b, neg), '.') == -1,
{
    lemma_digits_be_props(mag, b);
    let ds = spec_digits_be(mag, b);
    lemma_render_flat36(ds, b);
    let s = spec_int_radix_str(mag, b, neg);
    assert forall|j: int| 0 <= j < s.len() implies s[j] != '.' by {
        if neg && j == 0 {
            assert(s[0] == '-');
        } else {
            let off: int = if neg {
                1
            } else {
                0
            };
            assert(s[j] == spec_render_digits(ds, b)[j - off]);
            assert(s[j] == nibble_char(ds[j - off]));
            assert(0 <= ds[j - off] < 36);
        }
    }
    lemma_find_char(s, '.');
    if find_char_at(s, '.') >= 0 {
        assert(s[find_char_at(s, '.')] == '.');
        assert(false);
    }
}

/// Round-trip law (whole values): for every integer-valued input and
/// every single-character base, decoding the encoding returns the
/// value exactly.
pub proof fn lemma_whole_value_roundtrip(vn: int, b: int)
    requires
        2 <= b <= 36,
    ensures
        spec_decode(spec_encode(vn, 1, b), b) == Some((vn, 1int)),
{
    let mag = abs(vn) as int;
    let neg = vn < 0;
    let s = spec_encode(vn, 1, b);
    assert(abs(vn) as int % 1 == 0) by {
        lemma_mod_bound(abs(vn) as int, 1);
    }
    assert(spec_extract(vn, 1) == (0int, 1int));
    assert(abs(vn) as int / 1 == mag) by {
        lemma_fundamental_div_mod(abs(vn) as int, 1);
    }
    assert(s =~= spec_int_radix_str(mag, b, neg));
    lemma_int_str_no_dot(mag, b, neg);
    lemma_parse_int_str(mag, b, neg);
    assert(spec_parse_int36(s, b) == Some(vn));
    assert(spec_decode(s, b) == Some((vn * 1 + 0, 1int)));
    assert(vn * 1 == vn);
}


/// On dot-free strings, decoding agrees exactly with the plain integer
/// parse: the value is that integer over denominator one.
pub proof fn lemma_decode_dot_free(s: Seq<char>, b: int)
    requires
        find_char_at(s, '.') == -1,
    ensures
        spec_decode(s, b) == (match spec_parse_int(s, b) {
            Some(x) => Some((x, 1int)),
            None => None::<(int, int)>,
        }),
{
    lemma_find_char(Seq::<char>::empty(), '.');
    match spec_parse_int(s, b) {
        Some(x) => {
            assert(x * 1 + 0 == x);
            assert(x * 1 + -0 == x);
        },
        None => {
        },
    }
}


/// A window holds exactly as many digits as asked for.
proof fn lemma_window_len(f: int, fd: int, b: int, c: int)
    requires
        0 <= c,
    ensures
        spec_frac_window(f, fd, b, c).len() == c,
    decreases c,
{
    if c > 0 {
        lemma_window_len((f * b) % fd, fd, b, c - 1);
    }
}

/// A window prefix is the shorter window.
proof fn lemma_window_prefix(f: int, fd: int, b: int, c: int, j: int)
    requires
        0 <= j <= c,
    ensures
        spec_frac_window(f, fd, b, c).take(j) == spec_frac_window(f, fd, b, j),
    decreases j,
{
    lemma_window_len(f, fd, b, c);
    lemma_window_len(f, fd, b, j);
    if j == 0 {
        assert(spec_frac_window(f, fd, b, c).take(0) =~= spec_frac_window(f, fd, b, 0));
    } else {
        let t = (f * b) % fd;
        lemma_window_len(t, fd, b, c - 1);
        lemma_window_len(t, fd, b, j - 1);
        lemma_window_prefix(t, fd, b, c - 1, j - 1);
        assert(spec_frac_window(f, fd, b, c) == seq![((f * b) / fd) as u32] + spec_frac_window(
            t,
            fd,
            b,
            c - 1,
        ));
        assert(spec_frac_window(f, fd, b, j) == seq![((f * b) / fd) as u32] + spec_frac_window(
            t,
            fd,
            b,
            j - 1,
        ));
        assert(spec_frac_window(f, fd, b, c).take(j) =~= spec_frac_window(f, fd, b, j));
    }
}

/// An all-zero digit sequence folds to zero.
proof fn lemma_fold_zeros(s: Seq<u32>, b: int)
    requires
        forall|i: int| 0 <= i < s.len() ==> #[trigger] s[i] == 0,
    ensures
        fold_be(s, b) == 0,
    decreases s.len(),
{
    if s.len() > 0 {
        assert(forall|i: int| 0 <= i < s.drop_last().len() ==> #[trigger] s.drop_last()[i] == 0);
        lemma_fold_zeros(s.drop_last(), b);
        assert(s.last() == s[s.len() - 1]);
    }
}

/// Dropping leading zeros takes a suffix: the dropped prefix is all
/// zeros and the head of what remains is nonzero.
proof fn lemma_drop_leading_skip(s: Seq<u32>)
    ensures
        ({
            let l = s.len() - drop_leading_zeros(s).len();
            &&& 0 <= l <= s.len()
            &&& drop_leading_zeros(s) == s.skip(l)
            &&& forall|i: int| 0 <= i < l ==> #[trigger] s[i] == 0
            &&& (l < s.len() ==> s[l] != 0)
        }),
    decreases s.len(),
{
    if s.len() > 0 && s[0] == 0 {
        lemma_drop_leading_skip(s.drop_first());
        let l = s.len() - drop_leading_zeros(s).len();
        assert(drop_leading_zeros(s) == drop_leading_zeros(s.drop_first()));
        assert(s.drop_first().skip(l - 1) =~= s.skip(l));
        assert(forall|i: int| 1 <= i < l ==> s[i] == s.drop_first()[i - 1]);
        if l < s.len() {
            assert(s[l] == s.drop_first()[l - 1]);
        }
    } else {
        assert(s.skip(0int) =~= s);
    }
}

/// Leading zero digits do not change the fold.
proof fn lemma_fold_skip_zeros(s: Seq<u32>, b: int, l: int)
    requires
        2 <= b,
        0 <= l <= s.len(),
        forall|i: int| 0 <= i < l ==> #[trigger] s[i] == 0,
    ensures
        fold_be(s.skip(l), b) == fold_be(s, b),
    decreases l,
{
    if l > 0 {
        assert(s[0] == 0);
        let t = s.drop_first();
        assert(forall|i: int| 0 <= i < l - 1 ==> #[trigger] t[i] == s[i + 1]);
        lemma_fold_skip_zeros(t, b, l - 1);
        assert(t.skip(l - 1) =~= s.skip(l));
        assert(s =~= seq![s[0]] + t);
        lemma_fold_front(s[0], t, b);
        vstd::arithmetic::power::lemma_pow_positive(b, t.len());
        assert(0 * vstd::arithmetic::power::pow(b, t.len()) == 0);
    } else {
        assert(s.skip(0int) =~= s);
    }
}

/// Trimming trailing zeros divides the fold by the base once per digit
/// removed.
proof fn lemma_fold_trim(s: Seq<u32>, b: int)
    ensures
        fold_be(s, b) == fold_be(trim_zeros(s), b) * vstd::arithmetic::power::pow(
            b,
            (s.len() - trim_zeros(s).len()) as nat,
        ),
        trim_zeros(s).len() <= s.len(),
    decreases s.len(),
{
    lemma_pow_step(b, 0);
    if s.len() > 0 && s.last() == 0 {
        lemma_fold_trim(s.drop_last(), b);
        let k = s.drop_last().len() - trim_zeros(s.drop_last()).len();
        lemma_pow_step(b, k as nat);
        assert(fold_be(s, b) == fold_be(s.drop_last(), b) * b + 0);
        let fk = fold_be(trim_zeros(s), b);
        let pk = vstd::arithmetic::power::pow(b, k as nat);
        assert((fk * pk) * b == fk * (b * pk)) by (nonlinear_arith);
    } else {
        assert(fold_be(trim_zeros(s), b) * 1 == fold_be(s, b));
    }
}

/// The digit budget is at least one for every base.
proof fn lemma_dec_len_pos(b: int)
    requires
        2 <= b,
    ensures
        1 <= spec_dec_len(b),
{
    lemma_fundamental_div_mod(2 * b, 3);
    lemma_mod_bound(2 * b, 3);
    lemma_fundamental_div_mod(4 * b, 7);
    lemma_mod_bound(4 * b, 7);
    lemma_fundamental_div_mod(b, 2);
    lemma_mod_bound(b, 2);
    assert(b * 2 == 2 * b);
    assert(b * 4 == 4 * b);
}

/// `count_scale` counts multiplications up to the denominator: the
/// scaled value reaches it, one step fewer does not.
proof fn lemma_count_scale_pow(a: int, fd: int, b: int)
    requires
        1 <= a,
        2 <= b,
    ensures
        a * vstd::arithmetic::power::pow(b, count_scale(a, fd, b) as nat) >= fd,
        count_scale(a, fd, b) > 0 ==> a * vstd::arithmetic::power::pow(
            b,
            (count_scale(a, fd, b) - 1) as nat,
        ) < fd,
        count_scale(a, fd, b) >= 0,
    decreases vstd::math::max(fd - a, 0int),
{
    lemma_pow_step(b, 0);
    if a >= fd {
        assert(a * 1 == a);
    } else {
        assert(a * b >= a + a) by (nonlinear_arith)
            requires
                a >= 1,
                b >= 2,
        ;
        lemma_count_scale_pow(a * b, fd, b);
        let cs = count_scale(a * b, fd, b);
        assert(count_scale(a, fd, b) == 1 + cs);
        let pk = vstd::arithmetic::power::pow(b, cs as nat);
        lemma_pow_step(b, cs as nat);
        assert((a * b) * pk == a * (b * pk)) by (nonlinear_arith);
        if cs > 0 {
            let pk1 = vstd::arithmetic::power::pow(b, (cs - 1) as nat);
            lemma_pow_step(b, (cs - 1) as nat);
            assert((a * b) * pk1 == a * (b * pk1)) by (nonlinear_arith);
        } else {
            assert(a * 1 == a);
        }
    }
}


/// The zero digits owed by the log formula equal the window's leading
/// zeros, whenever the window holds a nonzero digit.
proof fn lemma_num_zeroes_window(dn: int, dd: int, b: int)
    requires
        2 <= b <= 0x1_0000_0000,
        0 < dn < dd,
        drop_leading_zeros(spec_frac_window(dn, dd, b, spec_dec_len(b))).len() > 0,
    ensures
        spec_num_zeroes(dn, dd, b) == spec_dec_len(b) - drop_leading_zeros(
            spec_frac_window(dn, dd, b, spec_dec_len(b)),
        ).len(),
{
    let dec = spec_dec_len(b);
    lemma_dec_len_pos(b);
    let w = spec_frac_window(dn, dd, b, dec);
    lemma_window_len(dn, dd, b, dec);
    lemma_drop_leading_skip(w);
    let l = w.len() - drop_leading_zeros(w).len();
    assert(0 <= l < dec);
    assert(w[l] != 0);
    lemma_pow_step(b, 0);
    // the l-digit prefix is all zeros, so floor(dn * b^l / dd) == 0
    lemma_window_prefix(dn, dd, b, dec, l);
    lemma_window_value(dn, dd, b, l);
    let pl = vstd::arithmetic::power::pow(b, l as nat);
    assert(forall|i: int| 0 <= i < w.take(l).len() ==> #[trigger] w.take(l)[i] == 0) by {
        assert(forall|i: int| 0 <= i < l ==> w.take(l)[i] == w[i]);
    }
    lemma_fold_zeros(w.take(l), b);
    assert(dn * pl / dd == 0);
    lemma_fundamental_div_mod(dn * pl, dd);
    lemma_mod_bound(dn * pl, dd);
    assert(dn * pl < dd);
    // the next digit is nonzero, so floor(dn * b^(l+1) / dd) >= 1
    lemma_window_prefix(dn, dd, b, dec, l + 1);
    lemma_window_value(dn, dd, b, l + 1);
    let w1 = w.take(l + 1);
    assert(w1.drop_last() =~= w.take(l));
    assert(w1.last() == w[l]);
    assert(fold_be(w1, b) == fold_be(w.take(l), b) * b + w[l]);
    assert(0 * b == 0);
    let pl1 = vstd::arithmetic::power::pow(b, (l + 1) as nat);
    let q1 = dn * pl1 / dd;
    assert(q1 >= 1);
    lemma_fundamental_div_mod(dn * pl1, dd);
    lemma_mod_bound(dn * pl1, dd);
    assert(dn * pl1 >= dd) by (nonlinear_arith)
        requires
            dn * pl1 == dd * q1 + dn * pl1 % dd,
            q1 >= 1,
            dn * pl1 % dd >= 0,
            dd >= 1,
    ;
    // hence the scale count is exactly l + 1
    lemma_count_scale_pow(dn, dd, b);
    let cs = count_scale(dn, dd, b);
    if cs == 0 {
        assert(dn * 1 >= dd);
        assert(false);
    }
    vstd::arithmetic::power::lemma_pow_positive(b, l as nat);
    if cs <= l {
        vstd::arithmetic::power::lemma_pow_increases(b as nat, cs as nat, l as nat);
        vstd::arithmetic::power::lemma_pow_positive(b, cs as nat);
        let pcs = vstd::arithmetic::power::pow(b, cs as nat);
        assert(dn * pcs <= dn * pl) by (nonlinear_arith)
            requires
                0 < pcs <= pl,
                0 < dn,
        ;
        assert(false);
    }
    if cs >= l + 2 {
        vstd::arithmetic::power::lemma_pow_increases(b as nat, (l + 1) as nat, (cs - 1) as nat);
        vstd::arithmetic::power::lemma_pow_positive(b, (l + 1) as nat);
        vstd::arithmetic::power::lemma_pow_positive(b, (cs - 1) as nat);
        let pc1 = vstd::arithmetic::power::pow(b, (cs - 1) as nat);
        assert(dn * pl1 <= dn * pc1) by (nonlinear_arith)
            requires
                0 < pl1 <= pc1,
                0 < dn,
        ;
        assert(false);
    }
    assert(cs == l + 1);
}

/// Parsing the rendered integer string of a magnitude gives back the
/// signed magnitude.
proof fn lemma_parse_int_str(mag: int, b: int, neg: bool)
    requires
        0 <= mag,
        2 <= b <= 36,
    ensures
        spec_parse_int36(spec_int_radix_str(mag, b, neg), b) == Some(
            if neg {
                -mag
            } else {
                mag
            },
        ),
{
    lemma_digits_be_props(mag, b);
    let ds = spec_digits_be(mag, b);
    lemma_render_flat36(ds, b);
    lemma_chars_fold(ds, b);
    let s = spec_int_radix_str(mag, b, neg);
    if neg {
        assert(s[0] == '-');
        assert(s.skip(1) =~= spec_render_digits(ds, b));
        assert(s.len() > 1);
    } else {
        assert(s =~= spec_render_digits(ds, b));
        assert(s.len() >= 1);
        lemma_char_val_nibble(ds[0]);
        assert(s[0] == nibble_char(ds[0]));
        assert(char_val(s[0]) >= 0);
        assert(s[0] != '-' && s[0] != '+');
    }
}


/// In a single-character base the owed-zeros text is that many `0`
/// characters.
proof fn lemma_zeros_chars(k: int, b: int)
    requires
        b <= 36,
    ensures
        spec_zeros_text(k, b).len() == (if k >= 0 {
            k
        } else {
            0int
        }),
        forall|i: int| 0 <= i < spec_zeros_text(k, b).len() ==> #[trigger] spec_zeros_text(k, b)[i]
            == '0',
    decreases k,
{
    if k > 0 {
        lemma_zeros_chars(k - 1, b);
        assert(spec_zeros_text(k, b) == seq!['0'] + spec_zeros_text(k - 1, b));
    }
}

/// A string of `0` characters trims away entirely.
proof fn lemma_trim_all_zero_chars(s: Seq<char>)
    requires
        forall|i: int| 0 <= i < s.len() ==> #[trigger] s[i] == '0',
    ensures
        trim_frac_chars(s).len() == 0,
    decreases s.len(),
{
    if s.len() > 0 {
        assert(s.last() == s[s.len() - 1]);
        assert(forall|i: int| 0 <= i < s.drop_last().len() ==> #[trigger] s.drop_last()[i] == s[i]);
        lemma_trim_all_zero_chars(s.drop_last());
    }
}

/// Leading `0` characters do not change a digit string's value.
proof fn lemma_digits_val_zeros(zs: Seq<char>, rest: Seq<char>, b: int)
    requires
        forall|i: int| 0 <= i < zs.len() ==> #[trigger] zs[i] == '0',
    ensures
        digits_val_acc(zs + rest, b, 0) == digits_val_acc(rest, b, 0),
    decreases zs.len(),
{
    if zs.len() == 0 {
        assert(zs + rest =~= rest);
    } else {
        assert((zs + rest)[0] == zs[0]);
        assert(char_val('0') == 0);
        assert((zs + rest).drop_first() =~= zs.drop_first() + rest);
        assert(forall|i: int|
            0 <= i < zs.drop_first().len() ==> #[trigger] zs.drop_first()[i] == zs[i + 1]);
        lemma_digits_val_zeros(zs.drop_first(), rest, b);
        assert(0 * b + 0 == 0);
    }
}

/// Round-trip law: in every single-character base, decoding an
/// encoding returns a rational equal to the encoded pipeline value --
/// the integer magnitude plus the cleaned fractional remainder
/// truncated at the digit budget, over `b` to the budget, with the
/// value's sign.  For values whose cleaned fraction terminates within
/// the budget this is the cleaned value itself.
pub proof fn lemma_encode_roundtrip(vn: int, vd: int, b: int)
    requires
        2 <= b <= 36,
        1 <= vd,
    ensures
        ({
            let ext = spec_extract(vn, vd);
            let carry = ext.0 == ext.1 && ext.0 != 0;
            let mag = abs(vn) as int / vd + (if carry {
                1int
            } else {
                0int
            });
            let dn = if carry {
                0int
            } else {
                ext.0
            };
            let dd = if carry {
                1int
            } else {
                ext.1
            };
            let p = vstd::arithmetic::power::pow(b, spec_dec_len(b) as nat);
            let m = (if vn < 0 {
                -1int
            } else {
                1int
            }) * (mag * p + dn * p / dd);
            spec_decode(spec_encode(vn, vd, b), b) matches Some((n2, d2)) && n2 * p == m * d2 && 1
                <= d2 <= p
        }),
{
    let ext = spec_extract(vn, vd);
    lemma_extract_bounds(vn, vd);
    let carry = ext.0 == ext.1 && ext.0 != 0;
    let mag = abs(vn) as int / vd + (if carry {
        1int
    } else {
        0int
    });
    let dn = if carry {
        0int
    } else {
        ext.0
    };
    let dd = if carry {
        1int
    } else {
        ext.1
    };
    let dec = spec_dec_len(b);
    lemma_dec_len_pos(b);
    let p = vstd::arithmetic::power::pow(b, dec as nat);
    vstd::arithmetic::power::lemma_pow_positive(b, dec as nat);
    let neg = vn < 0;
    let sgn: int = if neg {
        -1
    } else {
        1
    };
    vstd::arithmetic::div_mod::lemma_div_pos_is_pos(abs(vn) as int, vd);
    let istr = spec_int_radix_str(mag, b, neg);
    lemma_int_str_no_dot(mag, b, neg);
    lemma_parse_int_str(mag, b, neg);
    lemma_int_radix_str_head(mag, b, neg);
    lemma_find_char(istr, '.');
    let ip: int = sgn * mag;
    assert(spec_parse_int36(istr, b) == Some(if neg { -mag } else { mag }));
    assert(ip == (if neg { -mag } else { mag }));
    let s = spec_encode(vn, vd, b);
    if dn == 0 {
        assert(s =~= istr);
        lemma_find_char(Seq::<char>::empty(), '.');
        assert(spec_decode(s, b) == Some((ip * 1 + 0, 1int)));
        vstd::arithmetic::div_mod::lemma_basic_div(0int, dd);
        assert(0int / dd == 0);
        assert(dn * p == 0) by (nonlinear_arith)
            requires
                dn == 0,
        ;
        assert(dn * p / dd == 0);
        assert((ip * 1 + 0) * p == (sgn * (mag * p + 0)) * 1) by (nonlinear_arith)
            requires
                ip == sgn * mag,
        ;
    } else {
        assert(0 < dn <= dd);
        assert(dn != dd);
        let w = spec_frac_window(dn, dd, b, dec);
        lemma_window_len(dn, dd, b, dec);
        lemma_window_value(dn, dd, b, dec);
        lemma_frac_window_ok(dn, dd, b, dec);
        let fw = dn * p / dd;
        assert(fold_be(w, b) == fw);
        let nz = drop_leading_zeros(w);
        lemma_drop_leading(w, b);
        lemma_drop_leading_skip(w);
        let l = w.len() - nz.len();
        let kept = spec_radval_digits(dn, dd, b);
        lemma_trim_zeros_ok(nz, b);
        lemma_trim_zeros_tail(nz);
        let k = spec_num_zeroes(dn, dd, b);
        lemma_count_scale_nonneg(dn * b, dd, b);
        assert(count_scale(dn, dd, b) == 1 + count_scale(dn * b, dd, b));
        assert(k >= 0);
        let zt = spec_zeros_text(k, b);
        lemma_zeros_chars(k, b);
        let rv = spec_render_digits(kept, b);
        assert(s == istr + (seq!['.'] + zt + rv));
        let fr = zt + rv;
        assert(s =~= istr + seq!['.'] + fr);
        // the point sits right after the integer text
        assert(s[istr.len() as int] == '.');
        assert(forall|j: int| 0 <= j < istr.len() ==> s[j] == istr[j]);
        lemma_find_first_here(s, '.', istr.len() as int);
        assert(s.take(istr.len() as int) =~= istr);
        assert(s.skip(istr.len() as int + 1) =~= fr);
        // the fractional characters are digits, never a point
        if nz.len() > 0 {
            assert(kept == trim_zeros(nz));
            assert(kept.len() > 0 && kept[0] == nz[0] && kept.last() != 0);
            lemma_render_flat36(kept, b);
        } else {
            assert(kept =~= Seq::<u32>::empty());
            assert(rv =~= Seq::<char>::empty());
        }
        assert forall|i: int| 0 <= i < fr.len() implies #[trigger] fr[i] != '.' && 0 <= char_val(
            fr[i],
        ) < b by {
            if i < zt.len() {
                assert(fr[i] == zt[i]);
                assert(fr[i] == '0');
                assert(char_val('0') == 0);
            } else {
                assert(fr[i] == rv[i - zt.len()]);
                assert(rv[i - zt.len()] == nibble_char(kept[i - zt.len()]));
                assert(0 <= kept[i - zt.len()] < b);
                lemma_char_val_nibble(kept[i - zt.len()]);
            }
        }
        lemma_find_char(fr, '.');
        if find_char_at(fr, '.') >= 0 {
            assert(fr[find_char_at(fr, '.')] == '.');
            assert(false);
        }
        assert(digits_valid(fr, b));
        // trimming the redundant tail
        let tf = trim_frac_chars(fr);
        if nz.len() > 0 {
            assert(fr.last() == rv[rv.len() - 1]);
            assert(fr.last() == nibble_char(kept.last()));
            assert(kept.last() != 0);
            assert(fr.last() != '0');
            assert(tf == fr);
        } else {
            assert(fr =~= zt);
            lemma_trim_all_zero_chars(fr);
            assert(tf =~= Seq::<char>::empty());
        }
        // the decoded pair
        let fvn = digits_val(tf, b);
        let fvd = vstd::arithmetic::power::pow(b, tf.len());
        assert(digits_valid(tf, b)) by {
            if nz.len() == 0 {
                assert(tf.len() == 0);
            }
        }
        assert(spec_frac_val(tf, b) == Some((fvn, fvd)));
        assert(istr[0] == '-' <==> neg);
        assert(spec_decode(s, b) == Some((ip * fvd + sgn * fvn, fvd))) by {
            if neg {
                assert(ip * fvd + (if neg { -fvn } else { fvn }) == ip * fvd + sgn * fvn);
            }
        }
        // value accounting
        lemma_fold_skip_zeros(w, b, l);
        assert(fold_be(nz, b) == fw);
        if nz.len() > 0 {
            lemma_fold_trim(nz, b);
            let t = nz.len() - kept.len();
            lemma_num_zeroes_window(dn, dd, b);
            assert(k == l);
            assert(dec == k + kept.len() + t);
            lemma_zeros_chars(k, b);
            assert(tf.len() == k + kept.len());
            lemma_chars_fold(kept, b);
            lemma_digits_val_zeros(zt, rv, b);
            assert(fvn == fold_be(kept, b));
            let pt = vstd::arithmetic::power::pow(b, t as nat);
            vstd::arithmetic::power::lemma_pow_adds(b, t as nat, (k + kept.len()) as nat);
            assert(p == pt * fvd);
            assert(fvn * p == fw * fvd) by (nonlinear_arith)
                requires
                    p == pt * fvd,
                    fw == fvn * pt,
            ;
            vstd::arithmetic::power::lemma_pow_positive(b, tf.len());
            vstd::arithmetic::power::lemma_pow_increases(b as nat, tf.len(), dec as nat);
            assert(1 <= fvd <= p);
        } else {
            assert(fold_be(nz, b) == 0);
            assert(fw == 0);
            assert(tf.len() == 0);
            lemma_pow_step(b, 0);
            assert(fvd == 1);
            assert(fvn == 0);
            assert(fvn * p == fw * fvd) by (nonlinear_arith)
                requires
                    fvn == 0,
                    fw == 0,
            ;
        }
        assert((ip * fvd + sgn * fvn) * p == (sgn * (mag * p + fw)) * fvd) by (nonlinear_arith)
            requires
                ip == sgn * mag,
                fvn * p == fw * fvd,
        ;
    }
}

// ------------------------------------------------------------------
// String boundary
// ------------------------------------------------------------------

/// Relies on `String`'s `FromIterator` over `char`: collecting an
/// iterator of characters yields the string of exactly those characters.
#[verifier::external_body]
fn chars_to_string(v: &Vec<char>) -> (r: String)
    ensures
        r@ == v@,
{
    v.iter().collect()
}

} // verus!
