//! Token classification grammar.
//!
//! A raw text token is read as the most specific scalar it can be: first
//! as a signed base-10 integer, then as a finite decimal number (optional
//! sign, optional decimal point, optional exponent), and otherwise kept
//! as text.  The grammar and the value of each accepted token are defined
//! here as specification functions, and the executable parsers are proved
//! against them.

use vstd::prelude::*;

verus! {

use crate::dec::{
    Dec, pow10, spec_abs, spec_norm, norm_dec, mag_to_i128, mul_u128_checked, pow10_u128,
};

/// An ASCII decimal digit.
pub open spec fn is_digit(c: char) -> bool {
    48 <= c as u32 && c as u32 <= 57
}

/// The value of one digit.
pub open spec fn digit_val(c: char) -> int {
    c as u32 - 48
}

pub open spec fn all_digits(s: Seq<char>) -> bool {
    forall|i: int| 0 <= i < s.len() ==> is_digit(#[trigger] s[i])
}

/// The base-10 value of a digit string.
pub open spec fn digits_val(s: Seq<char>) -> int
    decreases s.len(),
{
    if s.len() == 0 {
        0
    } else {
        digits_val(s.drop_last()) * 10 + digit_val(s.last())
    }
}

/// A leading `+` or `-`.
pub open spec fn has_sign(s: Seq<char>) -> bool {
    s.len() > 0 && (s[0] == '+' || s[0] == '-')
}

pub open spec fn is_neg(s: Seq<char>) -> bool {
    s.len() > 0 && s[0] == '-'
}

/// The token with any sign stripped.
pub open spec fn sign_body(s: Seq<char>) -> Seq<char> {
    if has_sign(s) { s.drop_first() } else { s }
}

/// An integer token: an optional sign followed by one or more digits.
pub open spec fn int_token(s: Seq<char>) -> bool {
    sign_body(s).len() > 0 && all_digits(sign_body(s))
}

/// The signed value of an integer token.
pub open spec fn int_token_val(s: Seq<char>) -> int {
    if is_neg(s) { -digits_val(sign_body(s)) } else { digits_val(sign_body(s)) }
}

/// The token is an integer that a 64-bit signed cell can hold.
pub open spec fn int_token_i64(s: Seq<char>) -> bool {
    int_token(s) && i64::MIN <= int_token_val(s) <= i64::MAX
}

/// Index of the first exponent marker (`e` or `E`), or the length.
pub open spec fn find_e(s: Seq<char>) -> int
    decreases s.len(),
{
    if s.len() == 0 {
        0
    } else if s[0] == 'e' || s[0] == 'E' {
        0
    } else {
        1 + find_e(s.drop_first())
    }
}

/// Index of the first decimal point, or the length.
pub open spec fn find_dot(s: Seq<char>) -> int
    decreases s.len(),
{
    if s.len() == 0 {
        0
    } else if s[0] == '.' {
        0
    } else {
        1 + find_dot(s.drop_first())
    }
}

/// The digits before the decimal point of a mantissa.
pub open spec fn mant_ipart(m: Seq<char>) -> Seq<char> {
    m.take(find_dot(m))
}

/// The digits after the decimal point of a mantissa (empty without one).
pub open spec fn mant_fpart(m: Seq<char>) -> Seq<char> {
    if find_dot(m) < m.len() {
        m.subrange(find_dot(m) + 1, m.len() as int)
    } else {
        Seq::empty()
    }
}

/// A decimal mantissa: digits with at most one point and at least one digit.
pub open spec fn mant_ok(m: Seq<char>) -> bool {
    &&& all_digits(mant_ipart(m))
    &&& all_digits(mant_fpart(m))
    &&& mant_ipart(m).len() + mant_fpart(m).len() >= 1
}

/// An exponent: an optional sign followed by one or more digits.
pub open spec fn exp_ok(x: Seq<char>) -> bool {
    sign_body(x).len() > 0 && all_digits(sign_body(x))
}

/// The mantissa region of a signed decimal token body.
pub open spec fn dec_mant(b: Seq<char>) -> Seq<char> {
    b.take(find_e(b))
}

/// The exponent region of a signed decimal token body (without marker).
pub open spec fn dec_exp(b: Seq<char>) -> Seq<char> {
    b.subrange(find_e(b) + 1, b.len() as int)
}

/// A decimal token: sign? digits ( `.` digits )? ( (`e`|`E`) sign? digits )?
pub open spec fn dec_token(s: Seq<char>) -> bool {
    let b = sign_body(s);
    &&& mant_ok(dec_mant(b))
    &&& (find_e(b) < b.len() ==> exp_ok(dec_exp(b)))
}

/// All mantissa digits, with the point removed.
pub open spec fn dec_digits(s: Seq<char>) -> Seq<char> {
    let m = dec_mant(sign_body(s));
    mant_ipart(m) + mant_fpart(m)
}

/// The unsigned mantissa value.
pub open spec fn dec_mag(s: Seq<char>) -> int {
    digits_val(dec_digits(s))
}

/// The signed exponent value.
pub open spec fn dec_exp_val(s: Seq<char>) -> int {
    let b = sign_body(s);
    if find_e(b) < b.len() {
        let x = dec_exp(b);
        if is_neg(x) { -digits_val(sign_body(x)) } else { digits_val(sign_body(x)) }
    } else {
        0
    }
}

/// Count of fractional digits net of the exponent: the value of the token
/// is `sign * dec_mag * 10^(-dec_scale)`.
pub open spec fn dec_scale(s: Seq<char>) -> int {
    mant_fpart(dec_mant(sign_body(s))).len() - dec_exp_val(s)
}

/// The representation limits under which a decimal token becomes a
/// decimal cell: the mantissa fits an `i128`, and a nonzero value needs
/// an exponent a `u32` can hold and a scaled form in range.
pub open spec fn dec_token_fits(s: Seq<char>) -> bool {
    &&& dec_token(s)
    &&& dec_mag(s) <= i128::MAX
    &&& (dec_mag(s) != 0 ==> {
        let b = sign_body(s);
        &&& (find_e(b) < b.len() ==> digits_val(sign_body(dec_exp(b))) <= u32::MAX)
        &&& (dec_scale(s) <= 0 ==> dec_mag(s) * pow10((-dec_scale(s)) as nat) <= i128::MAX)
        &&& (dec_scale(s) > 0 ==> dec_scale(s) <= u32::MAX)
    })
}

/// The normalized (mantissa, fraction) pair an accepted decimal token
/// denotes.
pub open spec fn dec_token_rep(s: Seq<char>) -> (int, nat) {
    let mag = dec_mag(s);
    let signed = if is_neg(s) { -mag } else { mag };
    let scale = dec_scale(s);
    if mag == 0 {
        (0, 0)
    } else if scale <= 0 {
        (signed * pow10((-scale) as nat), 0)
    } else {
        spec_norm(signed, scale as nat)
    }
}

/// Digit strings have nonnegative values.
pub proof fn lemma_digits_val_nonneg(s: Seq<char>)
    requires all_digits(s),
    ensures digits_val(s) >= 0,
    decreases s.len(),
{
    if s.len() > 0 {
        assert(all_digits(s.drop_last()));
        lemma_digits_val_nonneg(s.drop_last());
    }
}

/// Extending a digit string never shrinks its value.
pub proof fn lemma_digits_prefix_le(s: Seq<char>, i: int)
    requires all_digits(s), 0 <= i <= s.len(),
    ensures digits_val(s.take(i)) <= digits_val(s),
    decreases s.len() - i,
{
    if i < s.len() {
        assert(s.take(i + 1).drop_last() =~= s.take(i));
        assert(all_digits(s.take(i)));
        lemma_digits_val_nonneg(s.take(i));
        assert(digits_val(s.take(i + 1))
            == digits_val(s.take(i)) * 10 + digit_val(s[i]));
        assert(digits_val(s.take(i)) * 10 >= digits_val(s.take(i))) by (nonlinear_arith)
            requires digits_val(s.take(i)) >= 0,
        ;
        lemma_digits_prefix_le(s, i + 1);
    } else {
        assert(s.take(i) =~= s);
    }
}

/// `find_e` is characterized by "no marker before, a marker or the end at".
pub proof fn lemma_find_e_at(s: Seq<char>, i: int)
    requires
        0 <= i <= s.len(),
        forall|j: int| 0 <= j < i ==> s[j] != 'e' && s[j] != 'E',
        i < s.len() ==> (s[i] == 'e' || s[i] == 'E'),
    ensures find_e(s) == i,
    decreases i,
{
    if s.len() == 0 {
    } else if i == 0 {
    } else {
        lemma_find_e_at(s.drop_first(), i - 1);
    }
}

/// `find_dot` is characterized the same way.
pub proof fn lemma_find_dot_at(s: Seq<char>, i: int)
    requires
        0 <= i <= s.len(),
        forall|j: int| 0 <= j < i ==> s[j] != '.',
        i < s.len() ==> s[i] == '.',
    ensures find_dot(s) == i,
    decreases i,
{
    if s.len() == 0 {
    } else if i == 0 {
    } else {
        lemma_find_dot_at(s.drop_first(), i - 1);
    }
}

/// Accumulates the digits `v[from..to]` on top of `acc0`, which holds the
/// value of the first `done` digits of `whole`; guards against prefix
/// values beyond `bound`.
fn accum_digits(v: &Vec<char>, from: usize, to: usize, acc0: u128, bound: u128, whole: Ghost<Seq<char>>, done: Ghost<int>)
    -> (r: Option<u128>)
    requires
        from <= to <= v@.len(),
        all_digits(whole@),
        0 <= done@,
        done@ + (to - from) <= whole@.len(),
        forall|j: int| done@ <= j < done@ + (to - from)
            ==> whole@[j] == v@[from + (j - done@)],
        acc0 == digits_val(whole@.take(done@)),
        acc0 <= bound,
        bound <= u128::MAX - 9,
    ensures
        r matches Some(a) ==> a == digits_val(whole@.take(done@ + (to - from))) && a <= bound,
        r is None <==> digits_val(whole@.take(done@ + (to - from))) > bound,
{
    let mut acc = acc0;
    let mut i = from;
    let ghost w = whole@;
    let ghost tend = done@ + (to - from);
    while i < to
        invariant
            from <= i <= to,
            acc == digits_val(w.take(done@ + (i - from))),
            acc <= bound,
        decreases to - i,
    {
        let ghost k = done@ + (i - from);
        let c = v[i];
        assert(w[k] == c);
        assert(is_digit(c));
        let d: u128 = (c as u32 as u128) - 48;
        proof {
            assert(w.take(k + 1).drop_last() =~= w.take(k));
            assert(digits_val(w.take(k + 1)) == digits_val(w.take(k)) * 10 + digit_val(c));
            vstd::arithmetic::div_mod::lemma_fundamental_div_mod(bound as int, 10);
        }
        if acc > bound / 10 {
            proof {
                assert(acc * 10 > bound) by (nonlinear_arith)
                    requires acc >= bound as int / 10 + 1, bound == 10 * (bound as int / 10) + bound as int % 10, bound as int % 10 < 10,
                ;
                assert(digits_val(w.take(k + 1)) > bound);
                assert(w.take(tend).take(k + 1) =~= w.take(k + 1));
                lemma_digits_prefix_le(w.take(tend), k + 1);
            }
            return None;
        }
        proof {
            assert(acc * 10 <= bound) by (nonlinear_arith)
                requires acc <= bound as int / 10, bound == 10 * (bound as int / 10) + bound as int % 10, bound as int % 10 >= 0,
            ;
        }
        let next = acc * 10 + d;
        if next > bound {
            proof {
                assert(digits_val(w.take(k + 1)) > bound);
                assert(w.take(tend).take(k + 1) =~= w.take(k + 1));
                lemma_digits_prefix_le(w.take(tend), k + 1);
            }
            return None;
        }
        acc = next;
        i = i + 1;
    }
    Some(acc)
}

/// Tries to read the token as a 64-bit signed integer, exactly when the
/// integer grammar matches and the value is in range.
pub fn try_parse_int(v: &Vec<char>) -> (r: Option<i64>)
    ensures
        r matches Some(i) ==> int_token_i64(v@) && i as int == int_token_val(v@),
        r is None <==> !int_token_i64(v@),
{
    let n = v.len();
    let mut start: usize = 0;
    let mut neg = false;
    if n > 0 && (v[0] == '+' || v[0] == '-') {
        neg = v[0] == '-';
        start = 1;
    }
    let ghost body = sign_body(v@);
    proof {
        assert(body =~= v@.subrange(start as int, n as int));
        assert(forall|j: int| 0 <= j < body.len() ==> #[trigger] body[j] == v@[start + j]);
        assert(neg == is_neg(v@));
    }
    if start == n {
        return None;
    }
    // every character must be a digit
    let mut i = start;
    while i < n
        invariant
            start <= i <= n,
            n == v@.len(),
            forall|j: int| start <= j < i ==> is_digit(#[trigger] v@[j]),
        decreases n - i,
    {
        let c = v[i];
        let u = c as u32;
        if u < 48 || u > 57 {
            proof {
                assert(body[i - start] == v@[i as int]);
                assert(!is_digit(body[i - start]));
            }
            return None;
        }
        i = i + 1;
    }
    proof {
        assert(all_digits(body));
    }
    proof {
        assert(body.take(body.len() as int) =~= body);
        assert(body.take(0) =~= Seq::<char>::empty());
    }
    let bound: u128 = if neg { 9223372036854775808 } else { 9223372036854775807 };
    let mag = match accum_digits(v, start, n, 0, bound, Ghost(body), Ghost(0)) {
        Some(m) => m,
        None => {
            proof {
                if neg {
                    assert(int_token_val(v@) == -digits_val(body));
                } else {
                    assert(int_token_val(v@) == digits_val(body));
                }
            }
            return None;
        },
    };
    if neg {
        if mag == 9223372036854775808 {
            Some(i64::MIN)
        } else {
            Some(-(mag as i64))
        }
    } else {
        Some(mag as i64)
    }
}

/// A nonzero magnitude scaled by a factor beyond `u128` overflows `i128`.
proof fn lemma_mag_pow_overflow(mg: int, p: int)
    requires mg >= 1, p > u128::MAX,
    ensures mg * p > i128::MAX,
{
    assert(mg * p >= p) by (nonlinear_arith)
        requires mg >= 1, p > 0,
    ;
}

/// Applying a sign to a scaled magnitude gives the signed scaled value.
proof fn lemma_signed_scaled(mg: int, p: int, smag: int, m: int, neg: bool)
    requires
        smag == mg * p,
        p >= 1,
        mg >= 0,
        m == if neg { -smag } else { smag },
    ensures ({
        let sgn = if neg { -mg } else { mg };
        m == sgn * p && spec_abs(sgn * p) == smag
    }),
{
    let sgn = if neg { -mg } else { mg };
    assert(m == sgn * p && spec_abs(sgn * p) == smag) by (nonlinear_arith)
        requires
            smag == mg * p,
            p >= 1,
            mg >= 0,
            m == if neg { -smag } else { smag },
            sgn == if neg { -mg } else { mg },
    ;
}

/// The positions of the pieces of a decimal token within the character
/// vector: sign, mantissa, decimal point, exponent.
struct DecShape {
    neg: bool,
    start: usize,
    dp: usize,
    ep: usize,
    fstart: usize,
    estart: usize,
    eneg: bool,
}

/// How a shape describes a token: each index agrees with the grammar's
/// own split of the token.
spec fn shape_ok(s: Seq<char>, sh: DecShape) -> bool {
    let b = sign_body(s);
    let m = dec_mant(b);
    &&& sh.start as int == if has_sign(s) { 1int } else { 0int }
    &&& sh.neg == is_neg(s)
    &&& sh.start <= sh.dp <= sh.ep <= s.len()
    &&& find_e(b) == sh.ep - sh.start
    &&& find_dot(m) == sh.dp - sh.start
    &&& sh.fstart as int == if sh.dp == sh.ep { sh.ep as int } else { sh.dp + 1 }
    &&& sh.fstart <= sh.ep
    &&& (sh.ep < s.len() ==> {
        &&& sh.ep + 1 <= sh.estart < s.len()
        &&& sign_body(dec_exp(b)) == s.subrange(sh.estart as int, s.len() as int)
        &&& sh.eneg == is_neg(dec_exp(b))
    })
    &&& (sh.ep == s.len() ==> sh.estart == s.len() && sh.eneg == false)
}

/// Checks the decimal grammar and finds the token's pieces.
#[verifier::rlimit(100)]
#[verifier::spinoff_prover]
fn dec_scan(v: &Vec<char>) -> (r: Option<DecShape>)
    ensures
        r matches Some(sh) ==> dec_token(v@) && shape_ok(v@, sh),
        r is None <==> !dec_token(v@),
{
    let n = v.len();
    let mut start: usize = 0;
    let mut neg = false;
    if n > 0 && (v[0] == '+' || v[0] == '-') {
        neg = v[0] == '-';
        start = 1;
    }
    let ghost body = sign_body(v@);
    proof {
        assert(body =~= v@.subrange(start as int, n as int));
        assert(neg == is_neg(v@));
    }

    // locate the exponent marker
    let mut ep: usize = start;
    while ep < n && !(v[ep] == 'e' || v[ep] == 'E')
        invariant
            start <= ep <= n,
            forall|j: int| start <= j < ep ==> v@[j] != 'e' && v@[j] != 'E',
        decreases n - ep,
    {
        ep = ep + 1;
    }
    proof {
        if ep < n {
            assert(body[ep - start] == v@[ep as int]);
        }
        lemma_find_e_at(body, ep - start);
        assert(find_e(body) == ep - start);
    }
    let ghost mant = dec_mant(body);
    proof {
        assert(mant =~= v@.subrange(start as int, ep as int));
        assert(forall|j: int| 0 <= j < mant.len() ==> #[trigger] mant[j] == v@[start + j]);
    }

    // locate the decimal point within the mantissa
    let mut dp: usize = start;
    while dp < ep && !(v[dp] == '.')
        invariant
            start <= dp <= ep,
            forall|j: int| start <= j < dp ==> v@[j] != '.',
        decreases ep - dp,
    {
        dp = dp + 1;
    }
    proof {
        if dp < ep {
            assert(mant[dp - start] == v@[dp as int]);
        }
        lemma_find_dot_at(mant, dp - start);
        assert(find_dot(mant) == dp - start);
    }
    let ghost ipart = mant_ipart(mant);
    let ghost fpart = mant_fpart(mant);
    proof {
        assert(ipart =~= v@.subrange(start as int, dp as int));
        assert(forall|j: int| 0 <= j < ipart.len() ==> #[trigger] ipart[j] == v@[start + j]);
        if dp < ep {
            assert(fpart =~= v@.subrange(dp + 1, ep as int));
            assert(forall|j: int| 0 <= j < fpart.len() ==> #[trigger] fpart[j] == v@[dp + 1 + j]);
        }
    }

    // the mantissa must hold only digits, at least one of them
    let fstart = if dp == ep { ep } else { dp + 1 };
    let mut i3 = start;
    while i3 < dp
        invariant
            start <= i3 <= dp,
            forall|j: int| start <= j < i3 ==> is_digit(#[trigger] v@[j]),
        decreases dp - i3,
    {
        let c = v[i3];
        let u = c as u32;
        if u < 48 || u > 57 {
            proof {
                assert(ipart[i3 - start] == v@[i3 as int]);
                assert(!is_digit(ipart[i3 - start]));
            }
            return None;
        }
        i3 = i3 + 1;
    }
    let mut i4 = fstart;
    while i4 < ep
        invariant
            fstart <= i4 <= ep,
            forall|j: int| fstart <= j < i4 ==> is_digit(#[trigger] v@[j]),
        decreases ep - i4,
    {
        let c = v[i4];
        let u = c as u32;
        if u < 48 || u > 57 {
            proof {
                assert(fpart[i4 - fstart] == v@[i4 as int]);
                assert(!is_digit(fpart[i4 - fstart]));
            }
            return None;
        }
        i4 = i4 + 1;
    }
    proof {
        assert(all_digits(ipart));
        assert(all_digits(fpart));
    }
    if dp == start && fstart == ep {
        // no digits at all
        return None;
    }

    // the exponent, when present, must be sign? digits+
    let mut eneg = false;
    let mut estart = n;
    if ep < n {
        estart = ep + 1;
        if estart < n && (v[estart] == '+' || v[estart] == '-') {
            eneg = v[estart] == '-';
            estart = estart + 1;
        }
        if estart == n {
            return None;
        }
        let mut i5 = estart;
        while i5 < n
            invariant
                estart <= i5 <= n,
                forall|j: int| estart <= j < i5 ==> is_digit(#[trigger] v@[j]),
            decreases n - i5,
        {
            let c = v[i5];
            let u = c as u32;
            if u < 48 || u > 57 {
                proof {
                    let x = dec_exp(body);
                    assert(x =~= v@.subrange(ep + 1, n as int));
                    assert(forall|j: int| 0 <= j < x.len() ==> #[trigger] x[j] == v@[ep + 1 + j]);
                    assert(sign_body(x) =~= v@.subrange(estart as int, n as int));
                    assert(sign_body(x)[i5 - estart] == v@[i5 as int]);
                    assert(!is_digit(sign_body(x)[i5 - estart]));
                }
                return None;
            }
            i5 = i5 + 1;
        }
        proof {
            let x = dec_exp(body);
            assert(x =~= v@.subrange(ep + 1, n as int));
            assert(forall|j: int| 0 <= j < x.len() ==> #[trigger] x[j] == v@[ep + 1 + j]);
            assert(sign_body(x) =~= v@.subrange(estart as int, n as int));
            assert(all_digits(v@.subrange(estart as int, n as int)));
            assert(eneg == is_neg(x));
        }
    }
    proof {
        assert(dec_token(v@));
    }
    Some(DecShape { neg, start, dp, ep, fstart, estart, eneg })
}

/// Tries to read the token as a finite decimal number, exactly when the
/// decimal grammar matches and the representation limits hold.
#[verifier::rlimit(100)]
#[verifier::spinoff_prover]
pub fn try_parse_dec(v: &Vec<char>) -> (r: Option<Dec>)
    ensures
        r matches Some(d) ==> {
            &&& dec_token_fits(v@)
            &&& d.wf()
            &&& (d.mant as int, d.frac as nat) == dec_token_rep(v@)
        },
        r is None <==> !dec_token_fits(v@),
{
    let sh = match dec_scan(v) {
        Some(sh) => sh,
        None => return None,
    };
    let n = v.len();
    let DecShape { neg, start, dp, ep, fstart, estart, eneg } = sh;
    let ghost body = sign_body(v@);
    let ghost mant = dec_mant(body);
    let ghost ipart = mant_ipart(mant);
    let ghost fpart = mant_fpart(mant);
    let ghost edigits = if find_e(body) < body.len() { sign_body(dec_exp(body)) } else { Seq::<char>::empty() };
    proof {
        assert(body =~= v@.subrange(start as int, n as int));
        assert(mant =~= v@.subrange(start as int, ep as int));
        assert(ipart =~= v@.subrange(start as int, dp as int));
        assert(forall|j: int| 0 <= j < ipart.len() ==> #[trigger] ipart[j] == v@[start + j]);
        assert(fpart =~= v@.subrange(fstart as int, ep as int));
        assert(forall|j: int| 0 <= j < fpart.len() ==> #[trigger] fpart[j] == v@[fstart + j]);
        if ep < n {
            assert(edigits =~= v@.subrange(estart as int, n as int));
            assert(forall|j: int| 0 <= j < edigits.len() ==> #[trigger] edigits[j] == v@[estart + j]);
        }
    }
    // mantissa digits value
    let ghost digs = dec_digits(v@);
    proof {
        assert(digs =~= ipart + fpart);
        assert(all_digits(digs));
        assert(forall|j: int| 0 <= j < ipart.len() ==> digs[j] == v@[start + j]);
        assert(digs.take(ipart.len() as int) =~= ipart);
    }
    let imax: u128 = 170141183460469231731687303715884105727;
    proof {
        assert(digs.take(0) =~= Seq::<char>::empty());
    }
    let acc1 = match accum_digits(v, start, dp, 0, imax, Ghost(digs), Ghost(0)) {
        Some(a) => a,
        None => {
            proof { lemma_digits_prefix_le(digs, ipart.len() as int); }
            return None;
        },
    };
    proof {
        assert(forall|j: int| ipart.len() <= j < digs.len()
            ==> #[trigger] digs[j] == v@[fstart + (j - ipart.len())]);
        assert(digs.take(digs.len() as int) =~= digs);
    }
    let mag = match accum_digits(v, fstart, ep, acc1, imax, Ghost(digs), Ghost(ipart.len() as int)) {
        Some(a) => a,
        None => return None,
    };

    if mag == 0 {
        proof { lemma_digits_val_nonneg(digs); }
        Some(Dec { mant: 0, frac: 0 })
    } else {
        // exponent value
        let ev_opt: Option<u128> = if ep < n {
            proof {
                assert(edigits.take(0) =~= Seq::<char>::empty());
                assert(edigits.take(edigits.len() as int) =~= edigits);
            }
            accum_digits(v, estart, n, 0, 4294967295, Ghost(edigits), Ghost(0))
        } else {
            Some(0)
        };
        match ev_opt {
            None => None,
            Some(ev) => {
                // net scale: fractional digits minus the exponent
                let flen: usize = ep - fstart;
                let scale: i128 = if eneg {
                    flen as i128 + ev as i128
                } else {
                    flen as i128 - ev as i128
                };
                proof {
                    assert(fpart.len() == flen);
                    assert(dec_scale(v@) == scale);
                }
                if scale <= 0 {
                    let k = (-scale) as u32;
                    match pow10_u128(k) {
                        None => {
                            proof {
                                crate::dec::lemma_pow10_pos(k as nat);
                                lemma_digits_val_nonneg(dec_digits(v@));
                                lemma_mag_pow_overflow(dec_mag(v@), pow10(k as nat));
                            }
                            None
                        },
                        Some(p) => {
                            match mul_u128_checked(mag, p) {
                                None => None,
                                Some(smag) => {
                                    match mag_to_i128(neg, smag) {
                                        Some(m) => {
                                            proof {
                                                crate::dec::lemma_pow10_pos(k as nat);
                                                lemma_digits_val_nonneg(dec_digits(v@));
                                                lemma_signed_scaled(
                                                    dec_mag(v@), pow10(k as nat),
                                                    smag as int, m as int, is_neg(v@));
                                            }
                                            Some(Dec { mant: m, frac: 0 })
                                        },
                                        None => {
                                            proof {
                                                crate::dec::lemma_pow10_pos(k as nat);
                                            }
                                            None
                                        },
                                    }
                                },
                            }
                        },
                    }
                } else if scale > 4294967295 {
                    None
                } else {
                    let signed_opt = mag_to_i128(neg, mag);
                    assert(signed_opt is Some);
                    let signed = signed_opt.unwrap();
                    let d = norm_dec(signed, scale as u32);
                    proof {
                        let sgn = if is_neg(v@) { -dec_mag(v@) } else { dec_mag(v@) };
                        assert(signed == sgn);
                    }
                    Some(d)
                }
            },
        }
    }
}

} // verus!
