//! Exact decimal scalars.
//!
//! A floating-point cell is held as an exact decimal number: an integer
//! mantissa together with a count of fractional digits, so that the value
//! of `Dec { mant, frac }` is the rational number `mant / 10^frac`.
//! The representation is kept normalized (no trailing zero digits in the
//! fraction), which makes structural equality coincide with equality of
//! the represented rational numbers.

use vstd::prelude::*;

verus! {

use vstd::arithmetic::power::{
    pow, lemma_pow_positive, lemma_pow_adds, lemma_pow_strictly_increases,
};

/// `10^n`, the denominator family of decimal scalars.
pub open spec fn pow10(n: nat) -> int {
    pow(10, n)
}

/// Absolute value on mathematical integers.
pub open spec fn spec_abs(a: int) -> int {
    if a >= 0 { a } else { -a }
}

pub proof fn lemma_pow10_pos(n: nat)
    ensures pow10(n) >= 1,
{
    lemma_pow_positive(10, n);
    if n > 0 {
        lemma_pow_strictly_increases(10, 0, n);
    }
}

pub proof fn lemma_pow10_adds(a: nat, b: nat)
    ensures pow10(a + b) == pow10(a) * pow10(b),
{
    lemma_pow_adds(10, a, b);
}

pub proof fn lemma_pow10_increases(a: nat, b: nat)
    requires a <= b,
    ensures pow10(a) <= pow10(b),
{
    if a < b {
        lemma_pow_strictly_increases(10, a, b);
    }
}

/// An exact decimal scalar: the rational number `mant / 10^frac`.
#[derive(Clone, Copy, PartialEq, Eq, Structural, Debug)]
pub struct Dec {
    pub mant: i128,
    pub frac: u32,
}

impl Dec {
    /// Normalized form: a fraction is never carried with a trailing zero
    /// digit, so each rational value has exactly one representation.
    pub open spec fn wf(self) -> bool {
        self.frac > 0 ==> self.mant % 10 != 0
    }

    /// The represented value, as the exact pair (numerator, denominator).
    pub open spec fn num(self) -> int {
        self.mant as int
    }

    pub open spec fn den(self) -> int {
        pow10(self.frac as nat)
    }

    /// Builds a decimal directly from an integer mantissa and fraction
    /// length, normalizing the representation.
    pub fn new(mant: i128, frac: u32) -> (r: Dec)
        ensures
            r.wf(),
            (r.mant as int, r.frac as nat) == spec_norm(mant as int, frac as nat),
    {
        norm_dec(mant, frac)
    }
}

/// Normalization makes the representation canonical: two well-formed
/// decimals that stand for the same rational number are structurally
/// equal, so structural equality of cells compares values.
pub proof fn lemma_dec_value_unique(a: Dec, b: Dec)
    requires
        a.wf(),
        b.wf(),
        a.num() * b.den() == b.num() * a.den(),
    ensures a == b,
{
    if a.frac <= b.frac {
        lemma_dec_value_unique_ordered(a, b);
    } else {
        lemma_dec_value_unique_ordered(b, a);
    }
}

/// The ordered half of canonicity: the shorter fraction's mantissa scaled
/// up would carry a trailing zero, which well-formedness forbids.
proof fn lemma_dec_value_unique_ordered(a: Dec, b: Dec)
    requires
        a.wf(),
        b.wf(),
        a.num() * b.den() == b.num() * a.den(),
        a.frac <= b.frac,
    ensures a == b,
{
    let k = (b.frac - a.frac) as nat;
    let p = pow10(k);
    lemma_pow10_pos(a.frac as nat);
    lemma_pow10_pos(k);
    lemma_pow10_adds(a.frac as nat, k);
    assert(b.den() == a.den() * p);
    assert((a.mant * p) * a.den() == b.mant * a.den()) by (nonlinear_arith)
        requires a.mant as int * (a.den() * p) == b.mant as int * a.den(),
    ;
    assert(a.mant * p == b.mant) by (nonlinear_arith)
        requires (a.mant * p) * a.den() == b.mant as int * a.den(), a.den() >= 1,
    ;
    if k == 0 {
        vstd::arithmetic::power::lemma_pow0(10);
        assert(a.mant == b.mant);
    } else {
        assert(p == 10 * pow10((k - 1) as nat)) by {
            lemma_pow10_adds(1, (k - 1) as nat);
            vstd::arithmetic::power::lemma_pow1(10);
        }
        assert(b.mant == (a.mant * pow10((k - 1) as nat)) * 10) by (nonlinear_arith)
            requires
                a.mant * p == b.mant as int,
                p == 10 * pow10((k - 1) as nat),
        ;
        vstd::arithmetic::div_mod::lemma_mod_multiples_basic(
            a.mant * pow10((k - 1) as nat), 10);
        assert(b.mant % 10 == 0);
        // a trailing zero forces the zero fraction, contradicting k >= 1
        assert(b.frac == 0);
        assert(false);
    }
}

/// Strips trailing zero digits from a fraction: the unique normalized
/// representation of the rational number `m / 10^f`.
pub open spec fn spec_norm(m: int, f: nat) -> (int, nat)
    decreases f,
{
    if f > 0 && m % 10 == 0 {
        spec_norm(m / 10, (f - 1) as nat)
    } else {
        (m, f)
    }
}

/// Normalization keeps the represented rational number unchanged:
/// cross-multiplied, `m / 10^f` equals `m' / 10^f'`.
pub proof fn lemma_norm_value(m: int, f: nat)
    ensures ({
        let (m2, f2) = spec_norm(m, f);
        &&& m * pow10(f2) == m2 * pow10(f)
        &&& f2 <= f
        &&& (f2 > 0 ==> m2 % 10 != 0)
        &&& (m >= 0 ==> m2 >= 0)
        &&& (m <= 0 ==> m2 <= 0)
        &&& spec_abs(m2) <= spec_abs(m)
    })
    decreases f,
{
    if f > 0 && m % 10 == 0 {
        let q = m / 10;
        vstd::arithmetic::div_mod::lemma_fundamental_div_mod(m, 10);
        assert(m == 10 * q);
        lemma_norm_value(q, (f - 1) as nat);
        let (m2, f2) = spec_norm(q, (f - 1) as nat);
        lemma_pow10_adds(1, (f - 1) as nat);
        assert(pow10(1) == 10) by {
            vstd::arithmetic::power::lemma_pow1(10);
        }
        assert(q * pow10(f2) == m2 * pow10((f - 1) as nat));
        assert(m * pow10(f2) == 10 * (q * pow10(f2))) by {
            assert(m * pow10(f2) == (10 * q) * pow10(f2));
            vstd::arithmetic::mul::lemma_mul_is_associative(10, q, pow10(f2));
        }
        assert(pow10(f) == 10 * pow10((f - 1) as nat));
        assert(10 * (m2 * pow10((f - 1) as nat)) == m2 * (10 * pow10((f - 1) as nat)))
            by (nonlinear_arith);
        lemma_pow10_pos(f2);
        lemma_pow10_pos(f);
    } else {
        lemma_pow10_pos(f);
    }
}

/// The magnitude of an `i128`, as a `u128` (total, also at the minimum value).
pub fn i128_mag(m: i128) -> (r: u128)
    ensures r == spec_abs(m as int),
{
    if m >= 0 {
        m as u128
    } else {
        // avoid negating i128::MIN: -(m + 1) always fits
        (-(m + 1)) as u128 + 1
    }
}

/// Rebuilds a signed value from sign and magnitude, when it fits.
pub fn mag_to_i128(neg: bool, mag: u128) -> (r: Option<i128>)
    ensures
        r matches Some(v) ==> v as int == if neg { -(mag as int) } else { mag as int },
        r is None <==> mag > i128::MAX,
{
    if mag <= i128::MAX as u128 {
        if neg {
            Some(-(mag as i128))
        } else {
            Some(mag as i128)
        }
    } else {
        None
    }
}

/// Statistics are computed on integers scaled to this many fractional
/// digits: a scaled value `v` stands for the rational number `v / 10^9`.
pub const STAT_FRAC: u32 = 9;

/// Integer division truncated toward zero (the rounding used throughout
/// the statistics), defined for a positive divisor.
pub open spec fn spec_trunc_div(a: int, b: int) -> int
    recommends b > 0,
{
    if a >= 0 { a / b } else { -((-a) / b) }
}

/// Checked addition on `i128`.
pub fn add_i128_checked(a: i128, b: i128) -> (r: Option<i128>)
    ensures
        r matches Some(v) ==> v == a + b,
        r is None <==> !(i128::MIN <= a + b <= i128::MAX),
{
    if b >= 0 {
        if a > i128::MAX - b { None } else { Some(a + b) }
    } else {
        if a < i128::MIN - b { None } else { Some(a + b) }
    }
}

/// Checked addition on `u128`.
pub fn add_u128_checked(a: u128, b: u128) -> (r: Option<u128>)
    ensures
        r matches Some(v) ==> v == a + b,
        r is None <==> a + b > u128::MAX,
{
    if a > u128::MAX - b { None } else { Some(a + b) }
}

/// Checked multiplication on `u128`.
pub fn mul_u128_checked(a: u128, b: u128) -> (r: Option<u128>)
    ensures
        r matches Some(v) ==> v == a * b,
        r is None <==> a * b > u128::MAX,
{
    if b == 0 {
        Some(0)
    } else if a > u128::MAX / b {
        proof {
            assert(a * b > u128::MAX) by (nonlinear_arith)
                requires b > 0, a > u128::MAX as int / b as int,
            {
                vstd::arithmetic::div_mod::lemma_fundamental_div_mod(u128::MAX as int, b as int);
            }
        }
        None
    } else {
        proof {
            assert(a * b <= u128::MAX) by (nonlinear_arith)
                requires b > 0, a <= u128::MAX as int / b as int,
            {
                vstd::arithmetic::div_mod::lemma_fundamental_div_mod(u128::MAX as int, b as int);
            }
        }
        Some(a * b)
    }
}

/// `10^k` as a `u128`, or `None` where it does not fit.
pub fn pow10_u128(k: u32) -> (r: Option<u128>)
    ensures
        r matches Some(v) ==> v == pow10(k as nat),
        r is None <==> pow10(k as nat) > u128::MAX,
{
    let mut acc: u128 = 1;
    let mut i: u32 = 0;
    proof {
        vstd::arithmetic::power::lemma_pow0(10);
    }
    while i < k
        invariant
            i <= k,
            acc == pow10(i as nat),
            acc >= 1,
        decreases k - i,
    {
        if acc > u128::MAX / 10 {
            proof {
                assert(acc * 10 > u128::MAX) by (nonlinear_arith)
                    requires acc > u128::MAX as int / 10,
                {
                    vstd::arithmetic::div_mod::lemma_fundamental_div_mod(u128::MAX as int, 10);
                }
                assert(pow10((i + 1) as nat) == pow10(i as nat) * 10) by {
                    lemma_pow10_adds(i as nat, 1);
                    vstd::arithmetic::power::lemma_pow1(10);
                }
                lemma_pow10_increases((i + 1) as nat, k as nat);
            }
            return None;
        }
        proof {
            assert(acc * 10 <= u128::MAX) by (nonlinear_arith)
                requires acc <= u128::MAX as int / 10,
            {
                vstd::arithmetic::div_mod::lemma_fundamental_div_mod(u128::MAX as int, 10);
            }
            assert(pow10((i + 1) as nat) == pow10(i as nat) * 10) by {
                lemma_pow10_adds(i as nat, 1);
                vstd::arithmetic::power::lemma_pow1(10);
            }
        }
        acc = acc * 10;
        i = i + 1;
    }
    Some(acc)
}

/// Floor of the square root: the unique `r` with `r^2 <= v < (r+1)^2`.
pub fn isqrt_u128(v: u128) -> (r: u64)
    ensures
        (r as int) * (r as int) <= v as int,
        (v as int) < (r as int + 1) * (r as int + 1),
{
    let mut lo: u64 = 0;
    let mut hi: u64 = u64::MAX;
    proof {
        assert((u64::MAX as int + 1) * (u64::MAX as int + 1) > u128::MAX as int)
            by (nonlinear_arith);
    }
    while lo < hi
        invariant
            (lo as int) * (lo as int) <= v as int,
            (v as int) < (hi as int + 1) * (hi as int + 1),
            lo <= hi,
        decreases hi - lo,
    {
        let mid: u64 = lo + 1 + (hi - lo - 1) / 2;
        proof {
            assert((mid as int) * (mid as int) <= u128::MAX as int) by (nonlinear_arith)
                requires mid <= u64::MAX,
            ;
        }
        if (mid as u128) * (mid as u128) <= v {
            lo = mid;
        } else {
            hi = mid - 1;
        }
    }
    lo
}

/// Signed division by a positive magnitude, truncated toward zero.
pub fn div_trunc_i128(a: i128, b: u128) -> (r: i128)
    requires b >= 1,
    ensures r as int == spec_trunc_div(a as int, b as int),
{
    let neg = a < 0;
    let mag = i128_mag(a) / b;
    proof {
        vstd::arithmetic::div_mod::lemma_div_nonincreasing(spec_abs(a as int), b as int);
        vstd::arithmetic::div_mod::lemma_div_pos_is_pos(spec_abs(a as int), b as int);
    }
    if neg {
        if mag == i128::MAX as u128 + 1 {
            i128::MIN
        } else {
            -(mag as i128)
        }
    } else {
        mag as i128
    }
}

/// A decimal as an integer scaled to `STAT_FRAC` fractional digits,
/// truncated toward zero.
pub open spec fn spec_dec_scaled(d: Dec) -> int {
    if d.frac <= STAT_FRAC {
        d.mant * pow10((STAT_FRAC - d.frac) as nat)
    } else {
        spec_trunc_div(d.mant as int, pow10((d.frac - STAT_FRAC) as nat))
    }
}

/// The scaled form fits in an `i128` (only short fractions can overflow).
pub open spec fn spec_dec_scaled_fits(d: Dec) -> bool {
    spec_abs(spec_dec_scaled(d)) <= i128::MAX
}

/// Converts a decimal to its scaled form, or reports that it does not fit.
pub fn dec_to_scaled(d: Dec) -> (r: Option<i128>)
    ensures
        r matches Some(v) ==> v as int == spec_dec_scaled(d),
        r is None <==> !spec_dec_scaled_fits(d),
{
    let neg = d.mant < 0;
    let mag = i128_mag(d.mant);
    if d.frac <= STAT_FRAC {
        let k = STAT_FRAC - d.frac;
        let p = match pow10_u128(k) {
            Some(p) => p,
            None => {
                // 10^k with k <= 9 always fits; unreachable
                proof {
                    lemma_pow10_increases(k as nat, 9);
                    lemma_pow10_nine();
                }
                proof { assert(false); }
                1
            },
        };
        let scaled_mag = match mul_u128_checked(mag, p) {
            Some(m) => m,
            None => {
                proof { lemma_scaled_mag_mismatch(d, mag as int, p as int); }
                return None;
            },
        };
        match mag_to_i128(neg, scaled_mag) {
            Some(v) => {
                proof {
                    lemma_scaled_sign(d, mag as int, p as int, v as int);
                    assert(spec_abs(spec_dec_scaled(d)) == scaled_mag);
                }
                Some(v)
            },
            None => {
                proof { lemma_scaled_mag_mismatch(d, mag as int, p as int); }
                None
            },
        }
    } else {
        let k = d.frac - STAT_FRAC;
        match pow10_u128(k) {
            Some(p) => {
                proof {
                    lemma_pow10_pos(k as nat);
                    lemma_pow10_increases(1, k as nat);
                    vstd::arithmetic::power::lemma_pow1(10);
                    assert(p >= 10);
                }
                let r = div_trunc_i128(d.mant, p);
                proof {
                    lemma_trunc_div_small(d.mant as int, p as int);
                    let m = spec_abs(d.mant as int);
                    vstd::arithmetic::div_mod::lemma_div_is_ordered_by_denominator(m, 10, p as int);
                    vstd::arithmetic::div_mod::lemma_div_is_ordered(
                        m, 170141183460469231731687303715884105728, 10);
                    assert(spec_abs(spec_trunc_div(d.mant as int, p as int)) == m / (p as int));
                }
                Some(r)
            },
            None => {
                // the divisor exceeds u128::MAX, so the quotient is zero
                proof {
                    lemma_pow10_pos(k as nat);
                    lemma_trunc_div_small(d.mant as int, pow10(k as nat));
                    assert(spec_abs(d.mant as int) < pow10(k as nat));
                }
                Some(0)
            },
        }
    }
}

/// `10^9` written out, for bounds on small scale factors.
pub proof fn lemma_pow10_nine()
    ensures pow10(9) == 1000000000,
{
    reveal_with_fuel(vstd::arithmetic::power::pow, 10);
}

/// Truncated quotients never grow in magnitude; a divisor larger than the
/// dividend gives zero.
pub proof fn lemma_trunc_div_small(a: int, b: int)
    requires b >= 1,
    ensures
        spec_abs(spec_trunc_div(a, b)) <= spec_abs(a),
        spec_abs(a) < b ==> spec_trunc_div(a, b) == 0,
{
    let m = spec_abs(a);
    vstd::arithmetic::div_mod::lemma_div_is_ordered_by_denominator(m, 1, b);
    vstd::arithmetic::div_mod::lemma_div_by_self(1);
    if m < b {
        vstd::arithmetic::div_mod::lemma_basic_div(m, b);
    }
}

/// Where the checked scaling of the magnitude fails, the scaled value is
/// out of the `i128` range.
proof fn lemma_scaled_mag_mismatch(d: Dec, mag: int, p: int)
    requires
        d.frac <= STAT_FRAC,
        mag == spec_abs(d.mant as int),
        p == pow10((STAT_FRAC - d.frac) as nat),
        mag * p > i128::MAX,
    ensures !spec_dec_scaled_fits(d),
{
    lemma_pow10_pos((STAT_FRAC - d.frac) as nat);
    assert(spec_abs(d.mant * p) == mag * p) by (nonlinear_arith)
        requires mag == spec_abs(d.mant as int), p >= 1,
    ;
    assert(spec_dec_scaled(d) == d.mant * p);
}

/// The signed scaled value equals sign times the scaled magnitude.
proof fn lemma_scaled_sign(d: Dec, mag: int, p: int, v: int)
    requires
        d.frac <= STAT_FRAC,
        mag == spec_abs(d.mant as int),
        p == pow10((STAT_FRAC - d.frac) as nat),
        v == if d.mant < 0 { -(mag * p) } else { mag * p },
    ensures v == spec_dec_scaled(d), spec_abs(v) == mag * p,
{
    lemma_pow10_pos((STAT_FRAC - d.frac) as nat);
    assert(v == d.mant * p && spec_abs(v) == mag * p) by (nonlinear_arith)
        requires
            mag == spec_abs(d.mant as int),
            p >= 1,
            v == if d.mant < 0 { -(mag * p) } else { mag * p },
    ;
}

/// Normalizes a raw (mantissa, fraction) pair.
pub fn norm_dec(mant: i128, frac: u32) -> (r: Dec)
    ensures
        r.wf(),
        (r.mant as int, r.frac as nat) == spec_norm(mant as int, frac as nat),
{
    let mut m = mant;
    let mut f = frac;
    while f > 0 && m % 10 == 0
        invariant spec_norm(m as int, f as nat) == spec_norm(mant as int, frac as nat),
        decreases f,
    {
        m = m / 10;
        f = f - 1;
    }
    Dec { mant: m, frac: f }
}

} // verus!
