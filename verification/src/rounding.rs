//! Rounding of exact ratios to the magnitudes of the binary32 format.
//!
//! The non-negative magnitudes of the format, infinity included, are numbered in increasing order
//! by their 31-bit patterns. Every finite magnitude is a whole number of units, the unit being
//! the least positive magnitude, two to the power of minus 149. Rounding picks the magnitude
//! nearest to an exact ratio of units, and the even pattern when two are equally near.

use vstd::arithmetic::mul::*;
use vstd::arithmetic::power2::*;
use vstd::prelude::*;

verus! {

/// The pattern of infinity, which is the greatest magnitude.
pub const INFINITE: u32 = 0x7f80_0000;

/// The number of magnitudes that share one exponent.
pub const BINADE: u32 = 0x80_0000;

/// The size of the magnitude with the given pattern, in units. Infinity is given the size that
/// the format would have as its next power of two.
pub open spec fn units(mag: nat) -> nat {
    let field = mag / (BINADE as nat);
    let fraction = mag % (BINADE as nat);
    if field == 0 {
        fraction
    } else {
        (BINADE + fraction) as nat * pow2((field - 1) as nat)
    }
}

/// Twice the midpoint between a magnitude and the next one, in units.
pub open spec fn twice_midpoint(mag: nat) -> nat {
    units(mag) + units(mag + 1)
}

/// Whether `mag` is the magnitude nearest to `num / den` units, the even one at a tie.
pub open spec fn rounds_to(num: nat, den: nat, mag: nat) -> bool {
    &&& mag <= INFINITE
    &&& mag > 0 ==> {
        let low = twice_midpoint((mag - 1) as nat) * den;
        low < 2 * num || (low == 2 * num && mag % 2 == 0)
    }
    &&& mag < INFINITE ==> {
        let high = twice_midpoint(mag) * den;
        2 * num < high || (2 * num == high && mag % 2 == 0)
    }
}

/// The magnitude nearest to `num / den` units.
pub open spec fn nearest(num: nat, den: nat) -> nat {
    choose|mag: nat| rounds_to(num, den, mag)
}

/// The magnitude that is `sig` steps of `pow2(x)` units wide.
pub proof fn lemma_units_at(x: nat, sig: nat)
    requires
        x == 0 || BINADE <= sig,
        sig <= 2 * BINADE,
    ensures
        units(x * (BINADE as nat) + sig) == sig * pow2(x),
{
    let mag = x * (BINADE as nat) + sig;
    lemma2_to64();
    if sig < BINADE {
        assert(mag / (BINADE as nat) == 0);
        assert(sig * pow2(0) == sig);
    } else if sig < 2 * BINADE {
        assert(mag / (BINADE as nat) == x + 1);
        assert(mag % (BINADE as nat) == sig - BINADE);
    } else {
        assert(mag / (BINADE as nat) == x + 2);
        assert(mag % (BINADE as nat) == 0);
        lemma_pow2_unfold(x + 1);
        assert(BINADE as nat * (2 * pow2(x)) == (2 * BINADE as nat) * pow2(x)) by (nonlinear_arith);
    }
}

/// The exponent step of a magnitude: its units are a multiple of two to this power.
pub open spec fn step_of(mag: nat) -> nat {
    if mag < BINADE {
        0
    } else {
        (mag / (BINADE as nat) - 1) as nat
    }
}

proof fn lemma_units_next(mag: nat)
    ensures
        units(mag) < units(mag + 1),
{
    let x = step_of(mag);
    let sig = (mag - x * (BINADE as nat)) as nat;
    lemma_units_at(x, sig);
    lemma_units_at(x, sig + 1);
    lemma_pow2_pos(x);
    lemma_mul_is_distributive_add_other_way(pow2(x) as int, sig as int, 1);
}

/// Greater patterns are greater magnitudes.
pub proof fn lemma_units_increase(a: nat, b: nat)
    requires
        a < b,
    ensures
        units(a) < units(b),
    decreases b - a,
{
    lemma_units_next(a);
    if a + 1 < b {
        lemma_units_increase(a + 1, b);
    }
}

proof fn lemma_not_above(num: nat, den: nat, a: nat, b: nat)
    requires
        den > 0,
        rounds_to(num, den, a),
        rounds_to(num, den, b),
    ensures
        b <= a,
{
    let high = twice_midpoint(a) * den;
    let low = twice_midpoint((b - 1) as nat) * den;
    if a + 1 < b {
        lemma_units_increase(a, (b - 1) as nat);
        lemma_units_increase(a + 1, b);
        lemma_mul_strict_inequality(
            twice_midpoint(a) as int,
            twice_midpoint((b - 1) as nat) as int,
            den as int,
        );
        assert(high < low);
    }
}

/// A ratio has at most one nearest magnitude.
pub proof fn lemma_nearest_is(num: nat, den: nat, mag: nat)
    requires
        den > 0,
        rounds_to(num, den, mag),
    ensures
        nearest(num, den) == mag,
{
    let other = nearest(num, den);
    assert(rounds_to(num, den, other));
    lemma_not_above(num, den, other, mag);
    lemma_not_above(num, den, mag, other);
}

/// Rounds a ratio that lies between a magnitude and the next one: up exactly when it is above
/// the midpoint, or at the midpoint with an odd pattern below it.
proof fn lemma_rounds_between(num: nat, den: nat, mag: nat, up: bool)
    requires
        den > 0,
        mag < INFINITE,
        units(mag) * den <= num < units(mag + 1) * den,
        up <==> (twice_midpoint(mag) * den < 2 * num || (twice_midpoint(mag) * den == 2 * num && mag
            % 2 == 1)),
    ensures
        rounds_to(num, den, if up { mag + 1 } else { mag }),
{
    lemma_mul_is_distributive_add_other_way(den as int, units(mag) as int, units(mag + 1) as int);
    if up {
        if mag + 1 < INFINITE {
            lemma_units_next(mag + 1);
            lemma_mul_strict_inequality(units(mag + 1) as int, units(mag + 2) as int, den as int);
            lemma_mul_is_distributive_add_other_way(
                den as int,
                units(mag + 1) as int,
                units(mag + 2) as int,
            );
        }
    } else if mag > 0 {
        let before = (mag - 1) as nat;
        lemma_units_next(before);
        lemma_mul_strict_inequality(units(before) as int, units(mag) as int, den as int);
        lemma_mul_is_distributive_add_other_way(den as int, units(before) as int, units(mag) as int);
    }
}

/// A ratio of at least the size of infinity rounds to infinity.
proof fn lemma_rounds_to_infinity(num: nat, den: nat)
    requires
        den > 0,
        units(INFINITE as nat) * den <= num,
    ensures
        rounds_to(num, den, INFINITE as nat),
{
    let before = (INFINITE - 1) as nat;
    lemma_units_next(before);
    lemma_mul_strict_inequality(units(before) as int, units(INFINITE as nat) as int, den as int);
    lemma_mul_is_distributive_add_other_way(
        den as int,
        units(before) as int,
        units(INFINITE as nat) as int,
    );
}

proof fn lemma_some_nearest(num: nat, den: nat, mag: nat)
    requires
        den > 0,
        mag <= INFINITE,
        num < units(mag) * den || mag == INFINITE,
    ensures
        exists|found: nat| rounds_to(num, den, found),
    decreases mag,
{
    if units(mag) * den <= num {
        lemma_rounds_to_infinity(num, den);
    } else if mag == 0 {
        assert(units(0) == 0);
        assert(0 * den == 0) by (nonlinear_arith);
    } else {
        let before = (mag - 1) as nat;
        if units(before) * den <= num {
            let up = twice_midpoint(before) * den < 2 * num || (twice_midpoint(before) * den == 2
                * num && before % 2 == 1);
            lemma_rounds_between(num, den, before, up);
        } else {
            lemma_some_nearest(num, den, before);
        }
    }
}

/// Every ratio has a nearest magnitude.
pub proof fn lemma_nearest(num: nat, den: nat)
    requires
        den > 0,
    ensures
        rounds_to(num, den, nearest(num, den)),
{
    lemma_some_nearest(num, den, INFINITE as nat);
}

/// Rounding keeps order: a ratio that is no greater than another does not round to a greater
/// magnitude.
pub proof fn lemma_nearest_keeps_order(num1: nat, den1: nat, num2: nat, den2: nat)
    requires
        den1 > 0,
        den2 > 0,
        num1 * den2 <= num2 * den1,
    ensures
        nearest(num1, den1) <= nearest(num2, den2),
{
    lemma_nearest(num1, den1);
    lemma_nearest(num2, den2);
    let a = nearest(num1, den1);
    let b = nearest(num2, den2);
    if b < a {
        let before = (a - 1) as nat;
        let low = twice_midpoint(before);
        let high = twice_midpoint(b);
        if b < before {
            lemma_units_increase(b, before);
            lemma_units_increase(b + 1, a);
        }
        assert(low * den1 <= 2 * num1);
        assert(2 * num2 <= high * den2);
        assert(low * den1 * den2 <= 2 * num1 * den2 <= 2 * num2 * den1 <= high * den2 * den1
            && (low * den1 < 2 * num1 ==> low * den1 * den2 < 2 * num1 * den2)
            && (2 * num2 < high * den2 ==> 2 * num2 * den1 < high * den2 * den1)) by (nonlinear_arith)
            requires
                low * den1 <= 2 * num1,
                2 * num2 <= high * den2,
                num1 * den2 <= num2 * den1,
                den1 > 0,
                den2 > 0,
        ;
        assert(low * den1 * den2 == low * (den1 * den2)) by (nonlinear_arith);
        assert(high * den2 * den1 == high * (den1 * den2)) by (nonlinear_arith);
        assert(den1 * den2 > 0) by (nonlinear_arith)
            requires
                den1 > 0,
                den2 > 0,
        ;
        if high < low {
            lemma_mul_strict_inequality(high as int, low as int, (den1 * den2) as int);
        }
        assert(high == low);
    }
}

/// A magnitude rounds to itself.
pub proof fn lemma_nearest_exact(mag: nat, den: nat)
    requires
        den > 0,
        mag <= INFINITE,
    ensures
        nearest(units(mag) * den, den) == mag,
{
    let num = units(mag) * den;
    lemma_units_next(mag);
    lemma_mul_strict_inequality(units(mag) as int, units(mag + 1) as int, den as int);
    if mag < INFINITE {
        lemma_mul_is_distributive_add_other_way(
            den as int,
            units(mag) as int,
            units(mag + 1) as int,
        );
        lemma_rounds_between(num, den, mag, false);
    } else {
        lemma_rounds_to_infinity(num, den);
    }
    lemma_nearest_is(num, den, mag);
}

/// How many binary places below the unit the scale of `round_scaled` starts.
pub const SUBUNIT: u32 = 200;

/// Two to the power of `n`.
pub fn power_of_two(n: u32) -> (p: u128)
    requires
        n < 128,
    ensures
        p == pow2(n as nat),
        p > 0,
{
    let mut p: u128 = 1;
    let mut i: u32 = 0;
    proof {
        lemma2_to64();
    }
    while i < n
        invariant
            i <= n < 128,
            p == pow2(i as nat),
            p > 0,
        decreases n - i,
    {
        proof {
            lemma_pow2_unfold((i + 1) as nat);
            lemma2_to64();
            lemma_pow2_adds(64, 64);
            lemma_pow2_strictly_increases((i + 1) as nat, 128);
        }
        p = 2 * p;
        i = i + 1;
    }
    p
}

pub proof fn lemma_pow2_le(a: nat, b: nat)
    requires
        a <= b,
    ensures
        0 < pow2(a) <= pow2(b),
{
    lemma_pow2_pos(a);
    if a < b {
        lemma_pow2_strictly_increases(a, b);
    }
}

/// The number of binary digits of `m`.
fn bit_length(m: u128) -> (n: u32)
    requires
        m > 0,
    ensures
        0 < n <= 128,
        pow2((n - 1) as nat) <= m < pow2(n as nat),
{
    let mut rest: u128 = m / 2;
    let mut n: u32 = 1;
    proof {
        lemma2_to64();
    }
    while rest > 0
        invariant
            0 < n <= 128,
            rest * pow2(n as nat) <= m < (rest + 1) * pow2(n as nat),
            rest == 0 ==> pow2((n - 1) as nat) <= m,
            m > 0,
            rest <= m,
        decreases rest,
    {
        proof {
            lemma_pow2_unfold((n + 1) as nat);
            let p = pow2(n as nat);
            let half = rest / 2;
            assert(half * (2 * p) <= rest * p && (rest + 1) * p <= (half + 1) * (2 * p)) by (nonlinear_arith)
                requires
                    half == rest / 2,
                    p >= 0,
            ;
            assert(p <= rest * p) by (nonlinear_arith)
                requires
                    rest > 0,
                    p >= 0,
            ;
            if n == 128 {
                lemma2_to64();
                lemma_pow2_adds(64, 64);
                assert(pow2(128) == 0x1_0000_0000_0000_0000 * 0x1_0000_0000_0000_0000);
            }
        }
        rest = rest / 2;
        n = n + 1;
    }
    assert((rest + 1) * pow2(n as nat) == pow2(n as nat)) by (nonlinear_arith)
        requires
            rest == 0,
    ;
    n
}

/// Rounding does not change when both sides of the ratio are multiplied by one factor.
pub proof fn lemma_nearest_scales(num: nat, den: nat, factor: nat)
    requires
        den > 0,
        factor > 0,
    ensures
        nearest(num * factor, den * factor) == nearest(num, den),
{
    assert(den * factor > 0 && num * factor * den == num * (den * factor)) by (nonlinear_arith)
        requires
            den > 0,
            factor > 0,
    ;
    lemma_nearest_keeps_order(num * factor, den * factor, num, den);
    lemma_nearest_keeps_order(num, den, num * factor, den * factor);
}

/// Whether `num / den` units are exactly `m` steps of `pow2(e)` sub-units, or, when `inexact`,
/// more than `m` and less than `m + 1` such steps.
pub open spec fn scaled(m: nat, e: nat, inexact: bool, num: nat, den: nat) -> bool {
    let step = pow2(e) * den;
    let value = num * pow2(SUBUNIT as nat);
    if inexact {
        m * step < value < (m + 1) * step
    } else {
        m * step == value
    }
}

/// The rounding of `m` steps, of which `m / d` whole quanta of `d` steps are at magnitude `mag`.
proof fn lemma_rounds_quanta(
    num: nat,
    den: nat,
    x: nat,
    sig: nat,
    m: nat,
    d: nat,
    step: nat,
    inexact: bool,
    up: bool,
)
    requires
        den > 0,
        x == 0 || BINADE <= sig,
        sig < 2 * BINADE,
        x * BINADE + sig < INFINITE,
        d > 0,
        d == 1 && !inexact || d % 2 == 0,
        sig == m / d,
        d * step == pow2(x) * den,
        inexact ==> m * step < num < (m + 1) * step,
        !inexact ==> m * step == num,
        up <==> (2 * (m % d) > d || (2 * (m % d) == d && (inexact || sig % 2 == 1))),
    ensures
        nearest(num, den) == x * BINADE + sig + (if up {
            1int
        } else {
            0
        }),
{
    let mag = x * (BINADE as nat) + sig;
    let w = d * step;
    let rem = m % d;
    lemma_units_at(x, sig);
    lemma_units_at(x, sig + 1);
    assert(mag % 2 == sig % 2);
    assert(sig * pow2(x) * den == sig * w) by (nonlinear_arith)
        requires
            w == pow2(x) * den,
    ;
    assert((sig + 1) * pow2(x) * den == (sig + 1) * w) by (nonlinear_arith)
        requires
            w == pow2(x) * den,
    ;
    lemma_pow2_pos(x);
    assert(step > 0) by (nonlinear_arith)
        requires
            d * step == pow2(x) * den,
            pow2(x) > 0,
            den > 0,
    ;
    assert(m == sig * d + rem && rem < d) by (nonlinear_arith)
        requires
            sig == m / d,
            rem == m % d,
            d > 0,
    ;
    assert(m * step == sig * w + rem * step && (m + 1) * step == m * step + step) by (nonlinear_arith)
        requires
            m == sig * d + rem,
            w == d * step,
    ;
    assert((sig + 1) * w == sig * w + w) by (nonlinear_arith);
    assert((rem + 1) * step <= w && 0 <= rem * step) by (nonlinear_arith)
        requires
            rem + 1 <= d,
            w == d * step,
            step > 0,
    ;
    assert((rem + 1) * step == rem * step + step) by (nonlinear_arith);
    assert(twice_midpoint(mag) * den == sig * w + sig * w + w) by {
        lemma_mul_is_distributive_add_other_way(
            den as int,
            units(mag) as int,
            units(mag + 1) as int,
        );
    }
    if 2 * rem > d {
        assert(2 * (rem * step) > w) by (nonlinear_arith)
            requires
                2 * rem > d,
                w == d * step,
                step > 0,
        ;
    } else if 2 * rem == d {
        assert(2 * (rem * step) == w) by (nonlinear_arith)
            requires
                2 * rem == d,
                w == d * step,
        ;
    } else if d % 2 == 0 {
        assert(2 * (rem * step) + 2 * step <= w) by (nonlinear_arith)
            requires
                2 * rem + 2 <= d,
                w == d * step,
                step > 0,
        ;
    } else {
        assert(rem == 0);
        assert(rem * step == 0) by (nonlinear_arith)
            requires
                rem == 0,
        ;
    }
    lemma_rounds_between(num, den, mag, up);
    lemma_nearest_is(num, den, if up {
        mag + 1
    } else {
        mag
    });
}

/// A value of at least two to the power of 277 units rounds to infinity.
proof fn lemma_rounds_large(num: nat, den: nat, m: nat, step: nat, top: nat)
    requires
        den > 0,
        top >= 277,
        m * step <= num,
        pow2(top) * den <= m * step,
    ensures
        nearest(num, den) == INFINITE,
{
    lemma_units_at(254, BINADE as nat);
    lemma2_to64();
    lemma_pow2_adds(23, 254);
    lemma_pow2_le(277, top);
    lemma_mul_inequality(pow2(277) as int, pow2(top) as int, den as int);
    lemma_rounds_to_infinity(num, den);
    lemma_nearest_is(num, den, INFINITE as nat);
}

/// A value below half a unit rounds to zero.
pub proof fn lemma_rounds_small(num: nat, den: nat)
    requires
        den > 0,
        2 * num < den,
    ensures
        nearest(num, den) == 0,
{
    assert(units(0) == 0);
    lemma_units_at(0, 1);
    lemma2_to64();
    assert(units(1) == 1);
    assert(units(0) * den == 0 && units(1) * den == den && twice_midpoint(0) * den == den)
        by (nonlinear_arith)
        requires
            units(0) == 0,
            units(1) == 1,
            twice_midpoint(0) == 1,
    ;
    lemma_rounds_between(num, den, 0, false);
    lemma_nearest_is(num, den, 0);
}

/// Rounds `m` steps to quanta of `quantum` steps each, which are `pow2(x)` units wide.
fn round_quanta(
    m: u128,
    quantum: u128,
    x: u32,
    inexact: bool,
    Ghost(num): Ghost<nat>,
    Ghost(den): Ghost<nat>,
    Ghost(step): Ghost<nat>,
) -> (mag: u32)
    requires
        den > 0,
        quantum > 0,
        quantum == 1 && !inexact || quantum % 2 == 0,
        x <= 253,
        m / quantum < 2 * BINADE,
        x == 0 || BINADE <= m / quantum,
        quantum * step == pow2(x as nat) * den,
        inexact ==> m * step < num < (m + 1) * step,
        !inexact ==> m * step == num,
    ensures
        mag == nearest(num, den),
{
    let sig: u32 = (m / quantum) as u32;
    let rem: u128 = m % quantum;
    let rest: u128 = quantum - rem;
    let up: bool = rem > rest || (rem == rest && (inexact || sig % 2 == 1));
    proof {
        lemma_rounds_quanta(
            num,
            den,
            x as nat,
            sig as nat,
            m as nat,
            quantum as nat,
            step,
            inexact,
            up,
        );
    }
    if up {
        x * BINADE + sig + 1
    } else {
        x * BINADE + sig
    }
}

/// The quantum of a shift is worth `pow2(x)` units.
proof fn lemma_quantum(shift: nat, e: nat, x: nat, den: nat)
    requires
        shift + e == x + SUBUNIT,
    ensures
        pow2(shift) * (pow2(e) * den) == pow2(x) * (den * pow2(SUBUNIT as nat)),
{
    lemma_pow2_adds(shift, e);
    lemma_pow2_adds(x, SUBUNIT as nat);
    assert(pow2(shift) * (pow2(e) * den) == pow2(x) * (den * pow2(SUBUNIT as nat)))
        by (nonlinear_arith)
        requires
            pow2(shift) * pow2(e) == pow2(x) * pow2(SUBUNIT as nat),
    ;
}

/// The whole quanta of `m` when `m` has `len` binary digits.
proof fn lemma_whole_quanta(m: nat, len: nat, shift: nat)
    requires
        len >= 1,
        pow2((len - 1) as nat) <= m < pow2(len),
        len <= shift + 24,
    ensures
        m / pow2(shift) < 2 * BINADE,
        len == shift + 24 ==> BINADE <= m / pow2(shift),
{
    let d = pow2(shift);
    lemma2_to64();
    lemma_pow2_pos(shift);
    lemma_pow2_adds(24, shift);
    lemma_pow2_le(len, shift + 24);
    assert(m / d < 0x100_0000) by (nonlinear_arith)
        requires
            m < 0x100_0000 * d,
            d > 0,
    ;
    if len == shift + 24 {
        lemma_pow2_adds(23, shift);
        assert(m / d >= 0x80_0000) by (nonlinear_arith)
            requires
                m >= 0x80_0000 * d,
                d > 0,
        ;
    }
}

/// A step that is narrowed by a power of two is taken that many more times.
proof fn lemma_narrow(m: nat, e: nat, shift: nat, den: nat)
    requires
        shift <= e,
    ensures
        (m * pow2(shift)) * (pow2((e - shift) as nat) * den) == m * (pow2(e) * den),
{
    lemma_pow2_adds(shift, (e - shift) as nat);
    assert((m * pow2(shift)) * (pow2((e - shift) as nat) * den) == m * (pow2(e) * den))
        by (nonlinear_arith)
        requires
            pow2(shift) * pow2((e - shift) as nat) == pow2(e),
    ;
}

/// A number of `len` binary digits, widened by `shift` places, has `len + shift` of them.
proof fn lemma_widened(m: nat, len: nat, shift: nat, top: nat)
    requires
        len >= 1,
        pow2((len - 1) as nat) <= m < pow2(len),
        len + shift <= top,
    ensures
        m * pow2(shift) < pow2(top),
        len + shift == top ==> pow2((top - 1) as nat) <= m * pow2(shift),
{
    lemma_pow2_pos(shift);
    lemma_pow2_adds(len, shift);
    lemma_pow2_adds((len - 1) as nat, shift);
    lemma_pow2_le(len + shift, top);
    lemma_mul_strict_inequality(m as int, pow2(len) as int, pow2(shift) as int);
    lemma_mul_inequality(pow2((len - 1) as nat) as int, m as int, pow2(shift) as int);
}

/// The magnitude nearest to `m` steps of `pow2(e)` sub-units, or to a value between `m` and
/// `m + 1` such steps when `inexact`.
pub(crate) fn round_scaled(
    m: u128,
    e: u32,
    inexact: bool,
    Ghost(num): Ghost<nat>,
    Ghost(den): Ghost<nat>,
) -> (mag: u32)
    requires
        0 < m < pow2(126),
        e <= 1000,
        den > 0,
        inexact ==> m >= pow2(24),
        scaled(m as nat, e as nat, inexact, num, den),
    ensures
        mag == nearest(num, den),
        mag <= INFINITE,
{
    let ghost fine = pow2(SUBUNIT as nat);
    let ghost n = num * fine;
    let ghost d = den * fine;
    let ghost step = pow2(e as nat) * den;
    proof {
        lemma_pow2_pos(SUBUNIT as nat);
        lemma_nearest_scales(num, den, fine);
        lemma_nearest(num, den);
        assert(d > 0) by (nonlinear_arith)
            requires
                d == den * fine,
                den > 0,
                fine > 0,
        ;
        lemma_pow2_pos(e as nat);
        lemma2_to64();
    }
    let len: u32 = bit_length(m);
    proof {
        if len > 126 {
            lemma_pow2_le(126, (len - 1) as nat);
        }
        if inexact && len <= 24 {
            lemma_pow2_le(len as nat, 24);
        }
    }
    if len + e >= SUBUNIT + 24 {
        let x: u32 = len + e - 24 - SUBUNIT;
        if x > 253 {
            proof {
                let top = (x + 23) as nat;
                lemma_pow2_adds(top, SUBUNIT as nat);
                lemma_pow2_adds((len - 1) as nat, e as nat);
                let low = pow2((len - 1) as nat);
                assert(pow2(top) * d == low * step) by (nonlinear_arith)
                    requires
                        pow2(top) * fine == low * pow2(e as nat),
                        d == den * fine,
                        step == pow2(e as nat) * den,
                ;
                lemma_mul_inequality(low as int, m as int, step as int);
                lemma_rounds_large(n, d, m as nat, step, top);
            }
            return INFINITE;
        }
        if len > 24 {
            let quantum: u128 = power_of_two(len - 24);
            proof {
                lemma_quantum((len - 24) as nat, e as nat, x as nat, den);
                lemma_whole_quanta(m as nat, len as nat, (len - 24) as nat);
                lemma_pow2_unfold((len - 24) as nat);
            }
            round_quanta(m, quantum, x, inexact, Ghost(n), Ghost(d), Ghost(step))
        } else {
            let widen: u128 = power_of_two(24 - len);
            let ghost rest = (e - (24 - len)) as nat;
            proof {
                lemma_widened(m as nat, len as nat, (24 - len) as nat, 24);
                lemma_narrow(m as nat, e as nat, (24 - len) as nat, den);
                lemma_quantum(0, rest, x as nat, den);
            }
            round_quanta(m * widen, 1, x, false, Ghost(n), Ghost(d), Ghost(pow2(rest) * den))
        }
    } else if e >= SUBUNIT {
        let widen: u128 = power_of_two(e - SUBUNIT);
        proof {
            lemma_widened(m as nat, len as nat, (e - SUBUNIT) as nat, 24);
            lemma_narrow(m as nat, e as nat, (e - SUBUNIT) as nat, den);
            lemma_quantum(0, SUBUNIT as nat, 0, den);
        }
        round_quanta(m * widen, 1, 0, false, Ghost(n), Ghost(d), Ghost(fine * den))
    } else if SUBUNIT - e < 127 {
        let quantum: u128 = power_of_two(SUBUNIT - e);
        proof {
            lemma_quantum((SUBUNIT - e) as nat, e as nat, 0, den);
            lemma_whole_quanta(m as nat, len as nat, (SUBUNIT - e) as nat);
            lemma_pow2_unfold((SUBUNIT - e) as nat);
        }
        round_quanta(m, quantum, 0, inexact, Ghost(n), Ghost(d), Ghost(step))
    } else {
        proof {
            let shift = (SUBUNIT - e) as nat;
            lemma_quantum(shift, e as nat, 0, den);
            lemma_pow2_le(127, shift);
            lemma_pow2_unfold(127);
            let bound = pow2(126);
            assert(2 * ((m + 1) * step) <= pow2(shift) * step) by (nonlinear_arith)
                requires
                    m + 1 <= bound,
                    2 * bound <= pow2(shift),
                    step >= 0,
            ;
            assert((m + 1) * step == m * step + step) by (nonlinear_arith);
            assert(step > 0) by (nonlinear_arith)
                requires
                    step == pow2(e as nat) * den,
                    pow2(e as nat) > 0,
                    den > 0,
            ;
            assert(pow2(0) * d == d);
            lemma_rounds_small(n, d);
        }
        0
    }
}

/// From the first full binade on, a step to the next magnitude is a small part of the magnitude.
proof fn lemma_step_is_small(mag: nat)
    requires
        mag >= BINADE,
    ensures
        BINADE * (units(mag + 1) - units(mag)) <= units(mag),
{
    let x = step_of(mag);
    let sig = (mag - x * (BINADE as nat)) as nat;
    lemma_units_at(x, sig);
    lemma_units_at(x, sig + 1);
    lemma_pow2_pos(x);
    assert((sig + 1) * pow2(x) - sig * pow2(x) == pow2(x) && 0x80_0000 * pow2(x) <= sig * pow2(x))
        by (nonlinear_arith)
        requires
            sig >= 0x80_0000,
            pow2(x) > 0,
    ;
}

/// Rounding of a ratio of at least one full binade changes it by at most one part in two to the
/// power of 24 of the result.
pub proof fn lemma_relative_error(num: nat, den: nat)
    requires
        den > 0,
        BINADE * den <= num,
        nearest(num, den) < INFINITE,
    ensures
        ({
            let size = units(nearest(num, den)) * den;
            &&& num * 0x100_0000 <= size * 0x100_0001
            &&& size * 0xff_ffff <= num * 0x100_0000
        }),
{
    let mag = nearest(num, den);
    lemma_nearest(num, den);
    lemma_units_at(0, BINADE as nat);
    lemma2_to64();
    lemma_nearest_exact(BINADE as nat, 1);
    assert(units(BINADE as nat) * 1 == BINADE);
    assert((BINADE as nat) * den <= num * 1);
    lemma_nearest_keeps_order(BINADE as nat, 1, num, den);
    lemma_step_is_small(mag);
    let before = (mag - 1) as nat;
    if mag == BINADE {
        lemma_units_at(0, before);
    } else {
        lemma_step_is_small(before);
        lemma_units_next(before);
    }
    let u = units(mag);
    let above = units(mag + 1);
    let below = units(before);
    assert(num * 0x100_0000 <= u * den * 0x100_0001) by (nonlinear_arith)
        requires
            2 * num <= (u + above) * den,
            0x80_0000 * (above - u) <= u,
            den > 0,
    ;
    assert(u * den * 0xff_ffff <= num * 0x100_0000) by (nonlinear_arith)
        requires
            (below + u) * den <= 2 * num,
            0x80_0000 * (u - below) <= u,
            den > 0,
    ;
}

/// How far two whole numbers are apart.
pub open spec fn distance(a: int, b: int) -> int {
    if a >= b {
        a - b
    } else {
        b - a
    }
}

/// No magnitude is nearer to a ratio than the one it is rounded to, and none with another pattern
/// is as near unless the pattern of the result is even. The size of infinity is that of the next
/// power of two.
pub proof fn lemma_none_is_nearer(num: nat, den: nat, other: nat)
    requires
        den > 0,
        other <= INFINITE,
    ensures
        ({
            let mag = nearest(num, den);
            let gap = distance(units(mag) * den as int, num as int);
            let other_gap = distance(units(other) * den as int, num as int);
            &&& mag <= INFINITE
            &&& gap <= other_gap
            &&& gap == other_gap && other != mag ==> mag % 2 == 0
        }),
{
    let mag = nearest(num, den);
    lemma_nearest(num, den);
    let u = units(mag);
    let v = units(other);
    if mag < other {
        let w = units(mag + 1);
        lemma_units_next(mag);
        if mag + 1 < other {
            lemma_units_increase(mag + 1, other);
            lemma_mul_strict_inequality(w as int, v as int, den as int);
        }
        lemma_mul_strict_inequality(u as int, w as int, den as int);
        lemma_mul_is_distributive_add_other_way(den as int, u as int, w as int);
    } else if other < mag {
        let before = (mag - 1) as nat;
        let w = units(before);
        lemma_units_next(before);
        if other < before {
            lemma_units_increase(other, before);
            lemma_mul_strict_inequality(v as int, w as int, den as int);
        }
        lemma_mul_strict_inequality(w as int, u as int, den as int);
        lemma_mul_is_distributive_add_other_way(den as int, w as int, u as int);
    }
}

/// A ratio is rounded to infinity exactly when it is at least halfway from the greatest finite
/// magnitude to the next power of two.
pub proof fn lemma_overflow(num: nat, den: nat)
    requires
        den > 0,
    ensures
        nearest(num, den) == INFINITE <==> 0x1ff_ffff * pow2(252) * den <= num,
{
    let before = (INFINITE - 1) as nat;
    let half = pow2(252);
    lemma_nearest(num, den);
    lemma_units_at(253, 0xff_ffff);
    lemma_units_at(253, 0x100_0000);
    lemma_pow2_unfold(253);
    let middle = twice_midpoint(before);
    assert(middle == 2 * (0x1ff_ffff * half));
    assert(middle * den == 2 * (0x1ff_ffff * half * den)) by (nonlinear_arith)
        requires
            middle == 2 * (0x1ff_ffff * half),
    ;
    let mag = nearest(num, den);
    if mag < INFINITE {
        lemma_mid_order(mag, before);
        lemma_mul_inequality(twice_midpoint(mag) as int, middle as int, den as int);
        if mag == before {
            assert(mag % 2 == 1);
        } else {
            lemma_units_increase(mag, before);
            lemma_units_increase(mag + 1, INFINITE as nat);
            lemma_mul_strict_inequality(twice_midpoint(mag) as int, middle as int, den as int);
        }
    }
}

proof fn lemma_mid_order(a: nat, b: nat)
    requires
        a <= b,
    ensures
        twice_midpoint(a) <= twice_midpoint(b),
{
    if a < b {
        lemma_units_increase(a, b);
        lemma_units_increase(a + 1, b + 1);
    }
}

/// Rounding to a finite magnitude moves a ratio by at most one part in two to the power of 24 of
/// it, or by half a unit.
pub proof fn lemma_rounding_error(num: nat, den: nat)
    requires
        den > 0,
        nearest(num, den) < INFINITE,
    ensures
        ({
            let gap = distance(units(nearest(num, den)) * den as int, num as int);
            &&& 0x100_0000 * gap <= num + 0x80_0000 * den
            &&& BINADE * den <= num ==> 0x100_0000 * gap <= num
        }),
{
    let mag = nearest(num, den);
    let u = units(mag);
    lemma_nearest(num, den);
    if BINADE * den <= num {
        lemma_units_at(0, BINADE as nat);
        lemma2_to64();
        lemma_nearest_exact(BINADE as nat, 1);
        assert(units(BINADE as nat) * 1 == BINADE);
        lemma_nearest_keeps_order(BINADE as nat, 1, num, den);
    }
    if u * den <= num {
        let w = units(mag + 1);
        lemma_mul_is_distributive_add_other_way(den as int, u as int, w as int);
        if mag >= BINADE {
            lemma_step_is_small(mag);
            assert(0x80_0000 * (w * den - u * den) <= u * den) by (nonlinear_arith)
                requires
                    0x80_0000 * (w - u) <= u,
                    den > 0,
            ;
        } else {
            lemma_units_at(0, mag);
            lemma_units_at(0, mag + 1);
            lemma2_to64();
            assert(w * den == u * den + den) by (nonlinear_arith)
                requires
                    w == u + 1,
            ;
        }
    } else {
        assert(units(0) == 0);
        assert(0 * den == 0) by (nonlinear_arith);
        let before = (mag - 1) as nat;
        let w = units(before);
        lemma_mul_is_distributive_add_other_way(den as int, w as int, u as int);
        if before >= BINADE {
            lemma_step_is_small(before);
            assert(0x80_0000 * (u * den - w * den) <= w * den) by (nonlinear_arith)
                requires
                    0x80_0000 * (u - w) <= w,
                    den > 0,
            ;
            lemma_units_next(before);
            lemma_mul_strict_inequality(w as int, u as int, den as int);
        } else {
            lemma_units_at(0, before);
            lemma_units_at(0, mag);
            lemma2_to64();
            assert(u * den == w * den + den) by (nonlinear_arith)
                requires
                    u == w + 1,
            ;
        }
    }
}

/// Whole counts of units below two to the power of 24 are kept exactly.
pub proof fn lemma_small_counts_exact(count: nat)
    requires
        count <= 0x100_0000,
    ensures
        nearest(count, 1) == count,
        units(count) == count,
{
    lemma_units_at(0, count);
    lemma2_to64();
    lemma_nearest_exact(count, 1);
    assert(units(count) * 1 == count);
}

} // verus!
