//! The engine's numeric domain: two's-complement fixed point with 32
//! fractional bits, extended with signed infinities and a not-a-number
//! marker so that overflow and division by zero propagate as values
//! instead of aborting, in the spirit of IEEE-754 special values.

use vstd::prelude::*;
use vstd::arithmetic::div_mod::lemma_fundamental_div_mod;
use vstd::arithmetic::div_mod::lemma_div_multiples_vanish;
use vstd::arithmetic::div_mod::lemma_mod_multiples_basic;
use vstd::arithmetic::div_mod::lemma_div_pos_is_pos;
use vstd::arithmetic::div_mod::lemma_div_is_ordered;
use vstd::arithmetic::div_mod::lemma_div_is_ordered_by_denominator;
use vstd::arithmetic::div_mod::lemma_div_nonincreasing;
use vstd::arithmetic::div_mod::lemma_div_denominator;
use vstd::arithmetic::div_mod::lemma_fundamental_div_mod_converse_mod;
use vstd::arithmetic::div_mod::lemma_fundamental_div_mod_converse_div;
use vstd::arithmetic::power2::pow2;
use vstd::arithmetic::power2::lemma_pow2_unfold;
use vstd::arithmetic::power2::lemma2_to64;
use vstd::arithmetic::power2::lemma2_to64_rest;

verus! {

/// Denominator of the fixed-point representation: a stored payload `p`
/// denotes the number `p / SCALE`.
pub const SCALE: i64 = 0x1_0000_0000;

/// A scalar value of the engine.
#[derive(Clone, Copy, Debug, PartialEq, Eq, Structural)]
pub enum Scalar {
    /// A finite value; the payload holds the value times `SCALE`.
    Finite(i64),
    /// An infinity; `true` marks the negative one.
    Inf(bool),
    /// Not a number, produced by ill-defined operations.
    Nan,
}

/// Magnitude of a mathematical integer.
pub open spec fn mag(v: int) -> int {
    if v < 0 { -v } else { v }
}

/// Division rounding toward zero, the rounding the executable operations use.
pub open spec fn tdiv(p: int, q: int) -> int
    recommends q != 0,
{
    if (p < 0) != (q < 0) { -(mag(p) / mag(q)) } else { mag(p) / mag(q) }
}

/// Saturate an exact scaled value into the representable payload range;
/// values beyond it become the infinity of the matching sign.
pub open spec fn sat(v: int) -> Scalar {
    if v > i64::MAX { Scalar::Inf(false) }
    else if v < i64::MIN { Scalar::Inf(true) }
    else { Scalar::Finite(v as i64) }
}

/// Exact addition: `Nan` is absorbing, opposite infinities are ill-defined,
/// a finite sum saturates.
pub open spec fn add_s(a: Scalar, b: Scalar) -> Scalar {
    match (a, b) {
        (Scalar::Nan, _) => Scalar::Nan,
        (_, Scalar::Nan) => Scalar::Nan,
        (Scalar::Inf(s1), Scalar::Inf(s2)) => if s1 == s2 { Scalar::Inf(s1) } else { Scalar::Nan },
        (Scalar::Inf(s1), Scalar::Finite(_)) => Scalar::Inf(s1),
        (Scalar::Finite(_), Scalar::Inf(s2)) => Scalar::Inf(s2),
        (Scalar::Finite(x), Scalar::Finite(y)) => sat(x + y),
    }
}

/// Multiplication: `Nan` is absorbing, an infinity times zero is
/// ill-defined, infinities multiply by the sign rule, and a finite
/// product is rounded toward zero and saturated.
pub open spec fn mul_s(a: Scalar, b: Scalar) -> Scalar {
    match (a, b) {
        (Scalar::Nan, _) => Scalar::Nan,
        (_, Scalar::Nan) => Scalar::Nan,
        (Scalar::Inf(s1), Scalar::Inf(s2)) => Scalar::Inf(s1 != s2),
        (Scalar::Inf(s1), Scalar::Finite(y)) =>
            if y == 0 { Scalar::Nan } else { Scalar::Inf(s1 != (y < 0)) },
        (Scalar::Finite(x), Scalar::Inf(s2)) =>
            if x == 0 { Scalar::Nan } else { Scalar::Inf(s2 != (x < 0)) },
        (Scalar::Finite(x), Scalar::Finite(y)) => sat(tdiv(x * y, SCALE as int)),
    }
}

/// Division: `Nan` is absorbing, an infinity over an infinity is
/// ill-defined, a finite value over an infinity is zero, a nonzero value
/// over zero is the infinity of the resulting sign, zero over zero is
/// `Nan`, and a finite quotient is rounded toward zero and saturated.
pub open spec fn div_s(a: Scalar, b: Scalar) -> Scalar {
    match (a, b) {
        (Scalar::Nan, _) => Scalar::Nan,
        (_, Scalar::Nan) => Scalar::Nan,
        (Scalar::Inf(_), Scalar::Inf(_)) => Scalar::Nan,
        (Scalar::Inf(s1), Scalar::Finite(y)) => Scalar::Inf(s1 != (y < 0)),
        (Scalar::Finite(_), Scalar::Inf(_)) => Scalar::Finite(0),
        (Scalar::Finite(x), Scalar::Finite(y)) =>
            if y == 0 {
                if x == 0 { Scalar::Nan } else { Scalar::Inf(x < 0) }
            } else {
                sat(tdiv(x * SCALE, y as int))
            },
    }
}

/// Rectification: positive values pass through, everything else clamps
/// to zero except the positive infinity, which passes through. An
/// undefined input clamps to zero, as taking the maximum with zero does.
pub open spec fn relu_s(a: Scalar) -> Scalar {
    match a {
        Scalar::Nan => Scalar::Finite(0),
        Scalar::Inf(s) => if s { Scalar::Finite(0) } else { Scalar::Inf(false) },
        Scalar::Finite(x) => if x > 0 { Scalar::Finite(x) } else { Scalar::Finite(0) },
    }
}

/// Whether a scalar is strictly positive; `Nan` is not.
pub open spec fn is_pos(a: Scalar) -> bool {
    match a {
        Scalar::Nan => false,
        Scalar::Inf(s) => !s,
        Scalar::Finite(x) => x > 0,
    }
}

/// The integer square root, found digit by digit from the high end:
/// each step keeps the largest candidate root whose square does not
/// exceed `v`.
pub open spec fn isqrt_rec(v: int, r: int, k: nat) -> int
    decreases k,
{
    let c = r + pow2(k);
    let r2: int = if c * c <= v { c } else { r };
    if k == 0 { r2 } else { isqrt_rec(v, r2, (k - 1) as nat) }
}

/// The integer square root of a value below two to the 96th.
pub open spec fn isqrt_s(v: int) -> int {
    isqrt_rec(v, 0, 47)
}

/// The square root on scalars: the floor root of a nonnegative finite
/// value on the fixed-point grid; a negative operand is ill-defined.
pub open spec fn sqrt_sc(x: Scalar) -> Scalar {
    match x {
        Scalar::Nan => Scalar::Nan,
        Scalar::Inf(s) => if s { Scalar::Nan } else { Scalar::Inf(false) },
        Scalar::Finite(p) => if p < 0 {
            Scalar::Nan
        } else {
            Scalar::Finite(isqrt_s(p * SCALE) as i64)
        },
    }
}

/// The fractional power by square-and-multiply over the exponent's
/// fractional bits, highest first: `mask` walks the bit weights, `x`
/// holds the repeatedly rooted base, and `acc` the saturating product
/// of the roots the set bits select.
pub open spec fn frac_pow(x: Scalar, rem: int, mask: int, acc: Scalar) -> Scalar
    decreases mask,
{
    if mask <= 0 {
        acc
    } else {
        let x2 = sqrt_sc(x);
        if rem >= mask {
            frac_pow(x2, rem - mask, mask / 2, mul_s(acc, x2))
        } else {
            frac_pow(x2, rem, mask / 2, acc)
        }
    }
}

/// `a` raised to the positive integer `k` by repeated multiplication,
/// associating to the left.
pub open spec fn pow_int_s(a: Scalar, k: nat) -> Scalar
    decreases k,
{
    if k <= 1 { a } else { mul_s(pow_int_s(a, (k - 1) as nat), a) }
}

/// `a` raised to the scalar exponent `n`. A zero exponent gives one for
/// every base; an exponent denoting a nonzero integer gives the repeated
/// product (through the reciprocal when negative); a fractional
/// exponent combines that with square-and-multiply over the fractional
/// bits, and is ill-defined on a negative base.
pub open spec fn pow_s(a: Scalar, n: Scalar) -> Scalar {
    if n == Scalar::Finite(0) {
        Scalar::Finite(SCALE)
    } else {
        match n {
            Scalar::Nan => Scalar::Nan,
            Scalar::Inf(_) => Scalar::Nan,
            Scalar::Finite(e) =>
                if a == Scalar::Nan {
                    Scalar::Nan
                } else if (e as int) % (SCALE as int) == 0 {
                    let k = (e as int) / (SCALE as int);
                    if k > 0 {
                        pow_int_s(a, k as nat)
                    } else {
                        div_s(Scalar::Finite(SCALE), pow_int_s(a, (-k) as nat))
                    }
                } else {
                    pow_frac_s(a, e as int)
                },
        }
    }
}

/// A power with a fractional exponent: the integer part by repeated
/// multiplication, the fractional part by square-and-multiply over the
/// exponent's bits. A negative base with a fractional exponent is
/// ill-defined.
pub open spec fn pow_frac_s(a: Scalar, e: int) -> Scalar {
    let q = e / (SCALE as int);
    let r = e % (SCALE as int);
    match a {
        Scalar::Nan => Scalar::Nan,
        Scalar::Inf(s) => if s {
            Scalar::Nan
        } else if e > 0 {
            Scalar::Inf(false)
        } else {
            Scalar::Finite(0)
        },
        Scalar::Finite(p) => if p < 0 {
            Scalar::Nan
        } else {
            let fr = frac_pow(a, r, (SCALE as int) / 2, Scalar::Finite(SCALE));
            if q == 0 {
                fr
            } else if q > 0 {
                mul_s(pow_int_s(a, q as nat), fr)
            } else {
                div_s(fr, pow_int_s(a, (-q) as nat))
            }
        },
    }
}

/// Payload magnitude beyond which the hyperbolic tangent saturates to
/// one on this grid: the value sixteen.
pub const TANH_SAT: i64 = 0x10_0000_0000;

/// One doubling of a tangent value: `2 t / (1 + t^2)` in fixed point,
/// capped at one.
pub open spec fn tanh_dbl(t: int) -> int {
    let s = SCALE as int;
    let q = (2 * t * s) / (s + (t * t) / s);
    if q > s { s } else { q }
}

/// `k` doublings applied to `t`.
pub open spec fn tanh_double(t: int, k: nat) -> int
    decreases k,
{
    if k == 0 { t } else { tanh_dbl(tanh_double(t, (k - 1) as nat)) }
}

/// The odd series `y - y^3/3 + 2 y^5/15 - 17 y^7/315` evaluated in
/// fixed point on the reduced range.
pub open spec fn tanh_series(y: int) -> int {
    let s = SCALE as int;
    let y2 = (y * y) / s;
    let y3 = (y2 * y) / s;
    let y5 = (y3 * y2) / s;
    let y7 = (y5 * y2) / s;
    (y + (2 * y5) / 15) - (y3 / 3 + (17 * y7) / 315)
}

/// The hyperbolic tangent on payloads: odd; saturating to one beyond
/// `TANH_SAT`; below it, the magnitude is halved eight times into the
/// series' range and the doubling identity undoes each halving.
pub open spec fn tanh_fix(x: int) -> int {
    let m = mag(x);
    let t = if m >= TANH_SAT { SCALE as int } else { tanh_double(tanh_series(m / 256), 8) };
    if x < 0 { -t } else { t }
}

/// The hyperbolic tangent: `Nan` propagates, the infinities map to the
/// exact ones of the matching sign, and a finite value goes through
/// `tanh_fix`.
pub open spec fn tanh_s(a: Scalar) -> Scalar {
    match a {
        Scalar::Nan => Scalar::Nan,
        Scalar::Inf(s) => if s {
            Scalar::Finite((-(SCALE as int)) as i64)
        } else {
            Scalar::Finite(SCALE)
        },
        Scalar::Finite(x) => Scalar::Finite(tanh_fix(x as int) as i64),
    }
}

/// Exact subtraction, the mirror image of `add_s`.
pub open spec fn sub_s(a: Scalar, b: Scalar) -> Scalar {
    match (a, b) {
        (Scalar::Nan, _) => Scalar::Nan,
        (_, Scalar::Nan) => Scalar::Nan,
        (Scalar::Inf(s1), Scalar::Inf(s2)) => if s1 == s2 { Scalar::Nan } else { Scalar::Inf(s1) },
        (Scalar::Inf(s1), Scalar::Finite(_)) => Scalar::Inf(s1),
        (Scalar::Finite(_), Scalar::Inf(s2)) => Scalar::Inf(!s2),
        (Scalar::Finite(x), Scalar::Finite(y)) => sat(x - y),
    }
}

/// Sign and magnitude of an exact product.
proof fn lemma_mul_sign_mag(x: int, y: int)
    ensures
        mag(x * y) == mag(x) * mag(y),
        (x * y < 0) <==> (((x < 0) != (y < 0)) && x != 0 && y != 0),
{
    if x >= 0 && y >= 0 {
        assert(x * y >= 0) by (nonlinear_arith)
            requires x >= 0 && y >= 0;
    } else if x < 0 && y < 0 {
        assert(x * y >= 0 && x * y == (-x) * (-y)) by (nonlinear_arith)
            requires x < 0 && y < 0;
    } else if x < 0 && y >= 0 {
        assert(x * y <= 0 && -(x * y) == (-x) * y) by (nonlinear_arith)
            requires x < 0 && y >= 0;
        if y != 0 {
            assert(x * y < 0) by (nonlinear_arith)
                requires x < 0 && y > 0;
        }
    } else {
        assert(x * y <= 0 && -(x * y) == x * (-y)) by (nonlinear_arith)
            requires x >= 0 && y < 0;
        if x != 0 {
            assert(x * y < 0) by (nonlinear_arith)
                requires x > 0 && y < 0;
        }
    }
}

/// Divisibility and quotients are unchanged by negating the dividend.
proof fn lemma_neg_divisible(me: int, s: int)
    requires
        s > 0,
        me >= 0,
    ensures
        ((-me) % s == 0) <==> (me % s == 0),
        (me % s == 0) ==> (-me) / s == -(me / s),
{
    if me % s == 0 {
        lemma_fundamental_div_mod(me, s);
        assert(me == s * (me / s));
        lemma_mod_multiples_basic(-(me / s), s);
        assert((-(me / s) * s) % s == 0);
        assert(-(me / s) * s == -(s * (me / s))) by (nonlinear_arith);
        assert(-me == -(me / s) * s);
        lemma_div_multiples_vanish(-(me / s), s);
        assert((s * -(me / s)) / s == -(me / s));
        assert(s * -(me / s) == -me);
    } else if (-me) % s == 0 {
        lemma_fundamental_div_mod(-me, s);
        assert(-me == s * ((-me) / s));
        lemma_mod_multiples_basic(-((-me) / s), s);
        assert((-((-me) / s) * s) % s == 0);
        assert(-((-me) / s) * s == -(s * ((-me) / s))) by (nonlinear_arith);
        assert(me == -((-me) / s) * s);
    }
}

/// One multiplication by a reduced factor shrinks a series term by at
/// least the reduction ratio.
proof fn lemma_term_step(w: int, f: int)
    requires
        0 <= w,
        0 <= f <= 0x1000000,
    ensures
        0 <= (w * f) / (SCALE as int) <= w / 256,
{
    let s = SCALE as int;
    assert(w * f <= w * 0x1000000) by (nonlinear_arith)
        requires 0 <= w && f <= 0x1000000;
    assert(w * f >= 0) by (nonlinear_arith)
        requires 0 <= w && 0 <= f;
    lemma_div_pos_is_pos(w * f, s);
    lemma_div_is_ordered(w * f, w * 0x1000000, s);
    lemma_div_multiples_vanish(w, 0x1000000);
    assert(0x1000000 * w == w * 0x1000000) by (nonlinear_arith);
    lemma_div_denominator(w * 0x1000000, 0x1000000, 256);
    assert((w * 0x1000000) / s == ((w * 0x1000000) / 0x1000000) / 256);
}

/// Within the closed unit interval, or undefined.
pub open spec fn unit_or_nan(s: Scalar) -> bool {
    match s {
        Scalar::Finite(v) => -SCALE <= v <= SCALE,
        Scalar::Inf(_) => false,
        Scalar::Nan => true,
    }
}

/// The series value is nonnegative and at most twice its argument on
/// the reduced range.
proof fn lemma_tanh_series_bounds(y: int)
    requires
        0 <= y <= 0x1000_0000,
    ensures
        0 <= tanh_series(y) <= 0x2000_0000,
{
    let s = SCALE as int;
    let y2 = (y * y) / s;
    let y3 = (y2 * y) / s;
    let y5 = (y3 * y2) / s;
    let y7 = (y5 * y2) / s;
    assert(y * y <= 0x1000_0000int * 0x1000_0000int) by (nonlinear_arith)
        requires 0 <= y <= 0x1000_0000;
    assert(y * y >= 0) by (nonlinear_arith)
        requires y >= 0;
    lemma_div_pos_is_pos(y * y, s);
    lemma_div_is_ordered(y * y, 0x1000_0000int * 0x1000_0000int, s);
    lemma_div_multiples_vanish(0x100_0000, s);
    assert(s * 0x100_0000 == 0x1000_0000int * 0x1000_0000int);
    assert(0 <= y2 <= 0x100_0000);
    assert(y2 * y == y * y2) by (nonlinear_arith);
    lemma_term_step(y, y2);
    assert(0 <= y3 <= y / 256);
    lemma_term_step(y3, y2);
    assert(0 <= y5 <= y3 / 256);
    lemma_div_nonincreasing(y3, 256);
    lemma_term_step(y5, y2);
    assert(0 <= y7 <= y5 / 256);
    lemma_div_nonincreasing(y5, 256);
    lemma_div_nonincreasing(y, 256);
    assert(2 * y5 <= 15 * y5);
    lemma_div_pos_is_pos(2 * y5, 15);
    lemma_div_is_ordered(2 * y5, 15 * y5, 15);
    lemma_div_multiples_vanish(y5, 15);
    assert(0 <= (2 * y5) / 15 <= y5);
    lemma_div_pos_is_pos(y3, 3);
    lemma_div_nonincreasing(y3, 3);
    assert(17 * y7 <= 315 * y7);
    lemma_div_pos_is_pos(17 * y7, 315);
    lemma_div_is_ordered(17 * y7, 315 * y7, 315);
    lemma_div_multiples_vanish(y7, 315);
    assert((17 * y7) / 315 <= y7);
    lemma_div_is_ordered_by_denominator(y, 2, 256);
    lemma_fundamental_div_mod(y, 2);
    assert(y / 256 + y / 256 <= y);
    assert(y3 / 3 + (17 * y7) / 315 <= y);
}

/// Each doubling lands in the unit interval.
proof fn lemma_tanh_dbl_bounds(t: int)
    requires
        0 <= t,
    ensures
        0 <= tanh_dbl(t) <= SCALE as int,
{
    let s = SCALE as int;
    assert(t * t >= 0) by (nonlinear_arith);
    lemma_div_pos_is_pos(t * t, s);
    assert(2 * t * s >= 0) by (nonlinear_arith)
        requires t >= 0, s > 0;
    lemma_div_pos_is_pos(2 * t * s, s + (t * t) / s);
}

/// Any positive number of doublings lands in the unit interval.
proof fn lemma_tanh_double_bounds(t: int, k: nat)
    requires
        0 <= t,
        k >= 1,
    ensures
        0 <= tanh_double(t, k) <= SCALE as int,
    decreases k,
{
    if k == 1 {
        lemma_tanh_dbl_bounds(t);
    } else {
        lemma_tanh_double_bounds(t, (k - 1) as nat);
        lemma_tanh_dbl_bounds(tanh_double(t, (k - 1) as nat));
    }
}

/// The payload tangent lies in the closed unit interval.
pub proof fn lemma_tanh_fix_bounds(x: int)
    ensures
        -(SCALE as int) <= tanh_fix(x) <= SCALE as int,
{
    let m = mag(x);
    if m < TANH_SAT {
        lemma_div_pos_is_pos(m, 256);
        lemma_div_is_ordered(m, 0x10_0000_0000, 256);
        lemma_div_multiples_vanish(0x1000_0000, 256);
        assert(256 * 0x1000_0000 == 0x10_0000_0000);
        assert(0 <= m / 256 <= 0x1000_0000);
        lemma_tanh_series_bounds(m / 256);
        lemma_tanh_double_bounds(tanh_series(m / 256), 8);
    }
}

/// The hyperbolic tangent maps every scalar into the closed unit
/// interval, except that an undefined input stays undefined.
pub proof fn lemma_tanh_unit(s: Scalar)
    ensures
        unit_or_nan(tanh_s(s)),
        (tanh_s(s) == Scalar::Nan) <==> (s == Scalar::Nan),
{
    match s {
        Scalar::Nan => {},
        Scalar::Inf(_) => {},
        Scalar::Finite(x) => {
            lemma_tanh_fix_bounds(x as int);
        },
    }
}

/// One is the multiplicative unit on finite scalars.
pub proof fn lemma_mul_one(d: i64)
    ensures
        mul_s(Scalar::Finite(SCALE), Scalar::Finite(d)) == Scalar::Finite(d),
{
    let s = SCALE as int;
    lemma_mul_sign_mag(s, d as int);
    if d as int >= 0 {
        lemma_div_multiples_vanish(d as int, s);
        assert(s * d as int == mag(s * d as int));
    } else {
        lemma_div_multiples_vanish(-(d as int), s);
        assert(s * -(d as int) == -(s * d as int)) by (nonlinear_arith);
        assert(mag(s * d as int) == s * -(d as int));
        assert((s * -(d as int)) / s == -(d as int));
    }
}

/// Assemble a saturated scalar from a sign and a payload magnitude.
fn from_sign_mag(neg: bool, q: u128) -> (r: Scalar)
    ensures
        r == sat(if neg { -(q as int) } else { q as int }),
{
    if neg {
        if q > i64::MAX as u128 + 1 {
            Scalar::Inf(true)
        } else if q == i64::MAX as u128 + 1 {
            Scalar::Finite(i64::MIN)
        } else {
            Scalar::Finite(-(q as i64))
        }
    } else {
        if q > i64::MAX as u128 {
            Scalar::Inf(false)
        } else {
            Scalar::Finite(q as i64)
        }
    }
}

/// The magnitude of an `i64`, widened so the minimum value needs no care.
fn mag_u64(x: i64) -> (r: u64)
    ensures
        r as int == mag(x as int),
{
    if x >= 0 { x as u64 } else { (-(x as i128)) as u64 }
}

impl Scalar {
    /// The scalar zero.
    pub fn zero() -> (r: Scalar)
        ensures r == Scalar::Finite(0),
    {
        Scalar::Finite(0)
    }

    /// The scalar one.
    pub fn one() -> (r: Scalar)
        ensures r == Scalar::Finite(SCALE),
    {
        Scalar::Finite(SCALE)
    }

    /// The scalar denoting the integer `n`.
    pub fn from_int(n: i32) -> (r: Scalar)
        ensures r == Scalar::Finite((n as i64 * SCALE) as i64),
    {
        Scalar::Finite(n as i64 * SCALE)
    }

    /// Addition.
    pub fn add(self, other: Scalar) -> (r: Scalar)
        ensures r == add_s(self, other),
    {
        match (self, other) {
            (Scalar::Nan, _) => Scalar::Nan,
            (_, Scalar::Nan) => Scalar::Nan,
            (Scalar::Inf(s1), Scalar::Inf(s2)) => if s1 == s2 { Scalar::Inf(s1) } else { Scalar::Nan },
            (Scalar::Inf(s1), Scalar::Finite(_)) => Scalar::Inf(s1),
            (Scalar::Finite(_), Scalar::Inf(s2)) => Scalar::Inf(s2),
            (Scalar::Finite(x), Scalar::Finite(y)) => {
                let s: i128 = x as i128 + y as i128;
                if s > i64::MAX as i128 { Scalar::Inf(false) }
                else if s < i64::MIN as i128 { Scalar::Inf(true) }
                else { Scalar::Finite(s as i64) }
            }
        }
    }

    /// Subtraction.
    pub fn sub(self, other: Scalar) -> (r: Scalar)
        ensures r == sub_s(self, other),
    {
        match (self, other) {
            (Scalar::Nan, _) => Scalar::Nan,
            (_, Scalar::Nan) => Scalar::Nan,
            (Scalar::Inf(s1), Scalar::Inf(s2)) => if s1 == s2 { Scalar::Nan } else { Scalar::Inf(s1) },
            (Scalar::Inf(s1), Scalar::Finite(_)) => Scalar::Inf(s1),
            (Scalar::Finite(_), Scalar::Inf(s2)) => Scalar::Inf(!s2),
            (Scalar::Finite(x), Scalar::Finite(y)) => {
                let s: i128 = x as i128 - y as i128;
                if s > i64::MAX as i128 { Scalar::Inf(false) }
                else if s < i64::MIN as i128 { Scalar::Inf(true) }
                else { Scalar::Finite(s as i64) }
            }
        }
    }

    /// Multiplication.
    pub fn mul(self, other: Scalar) -> (r: Scalar)
        ensures r == mul_s(self, other),
    {
        match (self, other) {
            (Scalar::Nan, _) => Scalar::Nan,
            (_, Scalar::Nan) => Scalar::Nan,
            (Scalar::Inf(s1), Scalar::Inf(s2)) => Scalar::Inf(s1 != s2),
            (Scalar::Inf(s1), Scalar::Finite(y)) =>
                if y == 0 { Scalar::Nan } else { Scalar::Inf(s1 != (y < 0)) },
            (Scalar::Finite(x), Scalar::Inf(s2)) =>
                if x == 0 { Scalar::Nan } else { Scalar::Inf(s2 != (x < 0)) },
            (Scalar::Finite(x), Scalar::Finite(y)) => {
                let neg = (x < 0) != (y < 0);
                let mx: u64 = mag_u64(x);
                let my: u64 = mag_u64(y);
                proof {
                    lemma_mul_sign_mag(x as int, y as int);
                    assert(mx as int * my as int <= 0x8000000000000000 * 0x8000000000000000)
                        by (nonlinear_arith)
                        requires
                            mx as int <= 0x8000000000000000,
                            my as int <= 0x8000000000000000;
                }
                let q: u128 = (mx as u128 * my as u128) / (SCALE as u128);
                proof {
                    assert(q as int == mag(x as int * y as int) / (SCALE as int));
                }
                from_sign_mag(neg, q)
            }
        }
    }

    /// Division.
    pub fn div(self, other: Scalar) -> (r: Scalar)
        ensures r == div_s(self, other),
    {
        match (self, other) {
            (Scalar::Nan, _) => Scalar::Nan,
            (_, Scalar::Nan) => Scalar::Nan,
            (Scalar::Inf(_), Scalar::Inf(_)) => Scalar::Nan,
            (Scalar::Inf(s1), Scalar::Finite(y)) => Scalar::Inf(s1 != (y < 0)),
            (Scalar::Finite(_), Scalar::Inf(_)) => Scalar::Finite(0),
            (Scalar::Finite(x), Scalar::Finite(y)) => {
                if y == 0 {
                    if x == 0 { Scalar::Nan } else { Scalar::Inf(x < 0) }
                } else {
                    let neg = (x < 0) != (y < 0);
                    let mx: u64 = mag_u64(x);
                    let my: u64 = mag_u64(y);
                    proof {
                        lemma_mul_sign_mag(x as int, SCALE as int);
                        assert(mx as int * SCALE as int <= 0x8000000000000000 * 0x100000000)
                            by (nonlinear_arith)
                            requires
                                mx as int <= 0x8000000000000000;
                    }
                    let q: u128 = (mx as u128 * (SCALE as u128)) / (my as u128);
                    proof {
                        assert(q as int == mag(x as int * SCALE as int) / mag(y as int));
                    }
                    from_sign_mag(neg, q)
                }
            }
        }
    }

    /// Whether the value is strictly positive; `Nan` is not.
    pub fn is_positive(self) -> (b: bool)
        ensures b == is_pos(self),
    {
        match self {
            Scalar::Nan => false,
            Scalar::Inf(s) => !s,
            Scalar::Finite(x) => x > 0,
        }
    }

    /// Rectification: the maximum of the value and zero.
    pub fn relu(self) -> (r: Scalar)
        ensures r == relu_s(self),
    {
        match self {
            Scalar::Nan => Scalar::Finite(0),
            Scalar::Inf(s) => if s { Scalar::Finite(0) } else { Scalar::Inf(false) },
            Scalar::Finite(x) => if x > 0 { Scalar::Finite(x) } else { Scalar::Finite(0) },
        }
    }

    /// Hyperbolic tangent.
    pub fn tanh(self) -> (r: Scalar)
        ensures r == tanh_s(self),
    {
        match self {
            Scalar::Nan => Scalar::Nan,
            Scalar::Inf(s) => if s { Scalar::Finite(-SCALE) } else { Scalar::Finite(SCALE) },
            Scalar::Finite(x) => {
                let m: u64 = mag_u64(x);
                let t: u64 = if m >= TANH_SAT as u64 {
                    SCALE as u64
                } else {
                    let s64: u64 = SCALE as u64;
                    let y: u64 = m / 256;
                    proof {
                        lemma_div_is_ordered(m as int, 0x10_0000_0000, 256);
                        lemma_div_multiples_vanish(0x1000_0000, 256);
                        assert(256 * 0x1000_0000 == 0x10_0000_0000);
                        assert(y <= 0x1000_0000);
                        lemma_div_pos_is_pos(m as int, 256);
                    }
                    proof {
                        assert(y as int * y as int <= 0x1000_0000 * 0x1000_0000)
                            by (nonlinear_arith)
                            requires y as int <= 0x1000_0000, y as int >= 0;
                    }
                    let y2: u64 = (y * y) / s64;
                    proof {
                        lemma_div_pos_is_pos(y as int * y as int, SCALE as int);
                        lemma_div_is_ordered(
                            y as int * y as int,
                            0x1000_0000int * 0x1000_0000int,
                            SCALE as int,
                        );
                        lemma_div_multiples_vanish(0x100_0000, SCALE as int);
                        assert(SCALE as int * 0x100_0000 == 0x1000_0000 * 0x1000_0000);
                        assert(y2 <= 0x100_0000);
                        lemma_term_step(y as int, y2 as int);
                        assert(y2 as int * y as int == y as int * y2 as int)
                            by (nonlinear_arith);
                    }
                    let y3: u64 = (y2 * y) / s64;
                    proof {
                        assert(y3 as int <= y as int / 256);
                        lemma_term_step(y3 as int, y2 as int);
                    }
                    let y5: u64 = (y3 * y2) / s64;
                    proof {
                        assert(y5 as int <= y3 as int / 256);
                        lemma_div_nonincreasing(y3 as int, 256);
                        lemma_term_step(y5 as int, y2 as int);
                    }
                    let y7: u64 = (y5 * y2) / s64;
                    proof {
                        assert(y7 as int <= y5 as int / 256);
                        lemma_div_nonincreasing(y5 as int, 256);
                        lemma_div_nonincreasing(y as int, 256);
                        // the positive part stays within a doubled argument
                        assert(2 * y5 as int <= 15 * y5 as int);
                        lemma_div_pos_is_pos(2 * y5 as int, 15);
                        lemma_div_is_ordered(2 * y5 as int, 15 * y5 as int, 15);
                        lemma_div_multiples_vanish(y5 as int, 15);
                        assert((2 * y5 as int) / 15 <= y5 as int);
                    }
                    let pos: u64 = y + (2 * y5) / 15;
                    proof {
                        // the negative part is at most the argument
                        lemma_div_pos_is_pos(y3 as int, 3);
                        lemma_div_nonincreasing(y3 as int, 3);
                        assert(17 * y7 as int <= 315 * y7 as int);
                        lemma_div_pos_is_pos(17 * y7 as int, 315);
                        lemma_div_is_ordered(17 * y7 as int, 315 * y7 as int, 315);
                        lemma_div_multiples_vanish(y7 as int, 315);
                        assert((17 * y7 as int) / 315 <= y7 as int);
                        lemma_div_is_ordered_by_denominator(y as int, 2, 256);
                        lemma_fundamental_div_mod(y as int, 2);
                        assert(y as int / 256 + y as int / 256 <= y as int);
                        assert(y7 as int <= y as int / 256);
                        assert(y3 as int / 3 + (17 * y7 as int) / 315 <= y as int);
                    }
                    let negp: u64 = y3 / 3 + (17 * y7) / 315;
                    let t0: u64 = pos - negp;
                    proof {
                        assert(t0 as int == tanh_series(y as int));
                        assert(t0 as int <= 2 * y as int);
                        assert(t0 <= 2 * s64);
                    }
                    let mut t: u64 = t0;
                    let mut j: u64 = 0;
                    while j < 8
                        invariant
                            j <= 8,
                            0 <= t as int,
                            j == 0 ==> t as int <= 2 * SCALE as int,
                            j >= 1 ==> t as int <= SCALE as int,
                            t as int == tanh_double(t0 as int, j as nat),
                            t0 as int == tanh_series(y as int),
                            y == m / 256,
                        decreases 8 - j,
                    {
                        let tu: u128 = t as u128;
                        let su: u128 = SCALE as u128;
                        proof {
                            assert(tu * tu <= 0x2_0000_0000 * 0x2_0000_0000)
                                by (nonlinear_arith)
                                requires tu <= 0x2_0000_0000;
                            lemma_div_pos_is_pos(tu as int * tu as int, SCALE as int);
                            assert(2 * tu as int * SCALE as int
                                <= 2 * 0x2_0000_0000 * 0x1_0000_0000)
                                by (nonlinear_arith)
                                requires tu as int <= 0x2_0000_0000;
                            assert(2 * tu as int * SCALE as int >= 0)
                                by (nonlinear_arith)
                                requires tu as int >= 0;
                        }
                        let num: u128 = 2 * tu * su;
                        let den: u128 = su + (tu * tu) / su;
                        proof {
                            lemma_div_pos_is_pos(num as int, den as int);
                        }
                        let q: u128 = num / den;
                        t = if q > su { SCALE as u64 } else { q as u64 };
                        proof {
                            assert(t as int == tanh_dbl(tanh_double(t0 as int, j as nat)));
                        }
                        j = j + 1;
                        proof {
                            assert(t as int == tanh_double(t0 as int, j as nat));
                        }
                    }
                    t
                };
                proof {
                    assert(t as int == (if mag(x as int) >= TANH_SAT {
                        SCALE as int
                    } else {
                        tanh_double(tanh_series(mag(x as int) / 256), 8)
                    }));
                }
                if x < 0 { Scalar::Finite(-(t as i64)) } else { Scalar::Finite(t as i64) }
            }
        }
    }

    /// The floor square root by binary digit descent.
    fn isqrt(v: u128) -> (r: u64)
        requires
            (v as int) < 0x1_0000_0000_0000_0000_0000_0000,
        ensures
            r as int == isqrt_s(v as int),
            (r as int) * (r as int) <= v as int,
            (v as int) < (r as int + 1) * (r as int + 1),
    {
        let mut r: u64 = 0;
        let mut bit: u64 = 0x8000_0000_0000;
        let ghost mut kp: nat = 47;
        proof {
            lemma2_to64();
            lemma2_to64_rest();
            assert(pow2(47) == 0x8000_0000_0000);
            assert(2 * pow2(47) == 0x1_0000_0000_0000int);
            assert((0int + 2 * pow2(47)) * (0int + 2 * pow2(47))
                == 0x1_0000_0000_0000_0000_0000_0000int) by (nonlinear_arith)
                requires 2 * pow2(47) == 0x1_0000_0000_0000int;
        }
        while bit > 0
            invariant
                (r as int) * (r as int) <= v as int,
                (v as int) < 0x1_0000_0000_0000_0000_0000_0000,
                bit > 0 ==> bit as int == pow2(kp),
                bit > 0 ==> kp <= 47,
                bit > 0 ==> (v as int)
                    < (r as int + 2 * pow2(kp)) * (r as int + 2 * pow2(kp)),
                bit > 0 ==> r as int + 2 * pow2(kp) <= 0x1_0000_0000_0000,
                bit == 0 ==> (v as int) < (r as int + 1) * (r as int + 1),
                bit > 0 ==> isqrt_rec(v as int, r as int, kp) == isqrt_s(v as int),
                bit == 0 ==> r as int == isqrt_s(v as int),
            decreases bit,
        {
            proof {
                vstd::arithmetic::power2::lemma_pow2_pos(kp);
            }
            let cand: u64 = r + bit;
            proof {
                assert(cand as int * (cand as int)
                    <= 0x1_0000_0000_0000int * 0x1_0000_0000_0000int)
                    by (nonlinear_arith)
                    requires 0 <= cand as int <= 0x1_0000_0000_0000int;
            }
            let c2: u128 = (cand as u128) * (cand as u128);
            let ghost kold = kp;
            let ghost rold = r as int;
            if c2 <= v {
                r = cand;
            }
            bit = bit / 2;
            proof {
                assert(rold + pow2(kold) == cand as int);
                if kold > 0 {
                    lemma_pow2_unfold(kold);
                    kp = (kold - 1) as nat;
                    assert(bit as int == pow2(kp));
                    assert(r as int + 2 * pow2(kp) == (if c2 <= v {
                        rold + 2 * pow2(kold)
                    } else {
                        cand as int
                    }));
                } else {
                    lemma2_to64();
                    assert(pow2(0nat) == 1);
                    assert(bit == 0);
                    assert(r as int + 1 == (if c2 <= v { rold + 2 } else { cand as int }));
                }
            }
        }
        r
    }

    /// The floor square root on the fixed-point grid.
    fn sqrt_floor(self) -> (res: Scalar)
        ensures
            res == sqrt_sc(self),
    {
        match self {
            Scalar::Nan => Scalar::Nan,
            Scalar::Inf(s) => if s { Scalar::Nan } else { Scalar::Inf(false) },
            Scalar::Finite(p) => {
                if p < 0 {
                    Scalar::Nan
                } else {
                    proof {
                        vstd::arithmetic::mul::lemma_mul_inequality(
                            p as int, 0x7fff_ffff_ffff_ffff, SCALE as int);
                        assert((p as int) * (SCALE as int)
                            < 0x1_0000_0000_0000_0000_0000_0000);
                    }
                    let v: u128 = (p as u128) * (SCALE as u128);
                    let root = Self::isqrt(v);
                    proof {
                        assert(root as int * (root as int) <= v as int);
                        if root as int >= 0x1_0000_0000_0000 {
                            assert(root as int * (root as int)
                                >= 0x1_0000_0000_0000int * 0x1_0000_0000_0000int)
                                by (nonlinear_arith)
                                requires root as int >= 0x1_0000_0000_0000int;
                        }
                        assert(root as int <= i64::MAX);
                    }
                    Scalar::Finite(root as i64)
                }
            }
        }
    }

    /// The fractional-bit power walk.
    fn frac_pow_run(x0: Scalar, rem0: u64) -> (res: Scalar)
        ensures
            res == frac_pow(x0, rem0 as int, (SCALE as int) / 2, Scalar::Finite(SCALE)),
    {
        let mut x = x0;
        let mut acc = Scalar::Finite(SCALE);
        let mut rem: u64 = rem0;
        let mut mask: u64 = (SCALE as u64) / 2;
        while mask > 0
            invariant
                frac_pow(x0, rem0 as int, (SCALE as int) / 2, Scalar::Finite(SCALE))
                    == frac_pow(x, rem as int, mask as int, acc),
            decreases mask,
        {
            let x2 = x.sqrt_floor();
            if rem >= mask {
                acc = acc.mul(x2);
                rem = rem - mask;
            }
            x = x2;
            mask = mask / 2;
        }
        acc
    }

    /// Raise to the positive integer `k` by repeated multiplication.
    fn pow_int(self, k: u64) -> (r: Scalar)
        requires
            k >= 1,
        ensures
            r == pow_int_s(self, k as nat),
    {
        let mut acc = self;
        let mut i: u64 = 1;
        while i < k
            invariant
                1 <= i <= k,
                acc == pow_int_s(self, i as nat),
            decreases k - i,
        {
            acc = acc.mul(self);
            i = i + 1;
        }
        acc
    }

    /// Raise to a scalar exponent.
    pub fn pow(self, n: Scalar) -> (r: Scalar)
        ensures r == pow_s(self, n),
    {
        match n {
            Scalar::Nan => Scalar::Nan,
            Scalar::Inf(_) => Scalar::Nan,
            Scalar::Finite(e) => {
                if e == 0 {
                    Scalar::Finite(SCALE)
                } else if matches!(self, Scalar::Nan) {
                    Scalar::Nan
                } else {
                    let me: u64 = mag_u64(e);
                    proof {
                        lemma_neg_divisible(me as int, SCALE as int);
                    }
                    if me % (SCALE as u64) == 0 {
                        let k: u64 = me / (SCALE as u64);
                        proof {
                            assert(e as int % (SCALE as int) == 0);
                            if e > 0 {
                                assert(e as int / (SCALE as int) == k as int);
                            } else {
                                assert(e as int / (SCALE as int) == -(k as int));
                            }
                            assert(k >= 1) by {
                                if k == 0 {
                                    lemma_fundamental_div_mod(me as int, SCALE as int);
                                }
                            }
                        }
                        let p = self.pow_int(k);
                        if e > 0 { p } else { Scalar::Finite(SCALE).div(p) }
                    } else {
                        proof {
                            assert(e as int % (SCALE as int) != 0);
                        }
                        let rm: u64 = me % (SCALE as u64);
                        proof {
                            if e > 0 {
                                lemma_fundamental_div_mod(me as int, SCALE as int);
                                lemma_fundamental_div_mod_converse_div(
                                    e as int, SCALE as int,
                                    (me as int) / (SCALE as int), rm as int);
                                lemma_fundamental_div_mod_converse_mod(
                                    e as int, SCALE as int,
                                    (me as int) / (SCALE as int), rm as int);
                            } else {
                                lemma_fundamental_div_mod(me as int, SCALE as int);
                                assert(e as int == (-((me as int) / (SCALE as int)) - 1)
                                    * (SCALE as int) + (SCALE as int - rm as int));
                                lemma_fundamental_div_mod_converse_div(
                                    e as int, SCALE as int,
                                    -((me as int) / (SCALE as int)) - 1,
                                    SCALE as int - rm as int);
                                lemma_fundamental_div_mod_converse_mod(
                                    e as int, SCALE as int,
                                    -((me as int) / (SCALE as int)) - 1,
                                    SCALE as int - rm as int);
                            }
                        }
                        match self {
                            Scalar::Nan => Scalar::Nan,
                            Scalar::Inf(s1) => if s1 {
                                Scalar::Nan
                            } else if e > 0 {
                                Scalar::Inf(false)
                            } else {
                                Scalar::Finite(0)
                            },
                            Scalar::Finite(p) => {
                                if p < 0 {
                                    Scalar::Nan
                                } else {
                                    let qm: u64 = me / (SCALE as u64);
                                    let re: u64 = if e > 0 { rm } else { (SCALE as u64) - rm };
                                    let fr = Self::frac_pow_run(Scalar::Finite(p), re);
                                    if e > 0 {
                                        if qm == 0 {
                                            fr
                                        } else {
                                            self.pow_int(qm).mul(fr)
                                        }
                                    } else {
                                        fr.div(self.pow_int(qm + 1))
                                    }
                                }
                            }
                        }
                    }
                }
            }
        }
    }
}

} // verus!
