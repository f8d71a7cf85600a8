//! Powers of one thousand with exponents between minus one and one.
//!
//! The exponents from zero to one are cut into a grid of `pow2(DEPTH)` equal parts by halving.
//! The power at the middle of a part is the geometric mean of the powers at its ends, and all
//! powers are counted in parts of `SCALE`.

use crate::accuracy;
use crate::binary32;
use crate::binary32::{parts, Binary32, Datum, ONE_EXPONENT};
use crate::rounding;
use crate::rounding::{power_of_two, round_scaled, BINADE, INFINITE, SUBUNIT};
use vstd::arithmetic::div_mod::*;
use vstd::arithmetic::mul::*;
use vstd::arithmetic::power::*;
use vstd::arithmetic::power2::*;
use vstd::prelude::*;

verus! {

/// How many parts make one: two to the power of 53.
pub const SCALE: u64 = 0x20_0000_0000_0000;

/// How many times the range of exponents is halved.
pub const DEPTH: u32 = 56;

/// How many grid steps make an exponent of one: two to the power of `DEPTH`.
pub const STEPS: u64 = 0x100_0000_0000_0000;

/// Whether `r` is the square root of `n`, rounded down.
pub open spec fn is_root(n: nat, r: nat) -> bool {
    r * r <= n < (r + 1) * (r + 1)
}

/// The square root of `n`, rounded down.
pub open spec fn root(n: nat) -> nat {
    choose|r: nat| is_root(n, r)
}

proof fn lemma_root_is(n: nat, r: nat)
    requires
        is_root(n, r),
    ensures
        root(n) == r,
{
    let other = root(n);
    assert(is_root(n, other));
    assert(other == r) by (nonlinear_arith)
        requires
            r * r <= n < (r + 1) * (r + 1),
            other * other <= n < (other + 1) * (other + 1),
            r >= 0,
            other >= 0,
    ;
}

proof fn lemma_some_root(n: nat, high: nat)
    requires
        n < (high + 1) * (high + 1),
    ensures
        exists|r: nat| is_root(n, r),
    decreases high,
{
    if high * high <= n {
        assert(is_root(n, high));
    } else {
        assert(high > 0) by (nonlinear_arith)
            requires
                high * high > n,
                n >= 0,
                high >= 0,
        ;
        lemma_some_root(n, (high - 1) as nat);
    }
}

/// Every number has a square root, rounded down.
pub proof fn lemma_root(n: nat)
    ensures
        is_root(n, root(n)),
{
    assert(n < (n + 1) * (n + 1)) by (nonlinear_arith);
    lemma_some_root(n, n);
}

/// The square root of `n`, rounded down, by Newton's method from a guess that is not below it.
fn integer_root(n: u128, guess: u128) -> (r: u128)
    requires
        0 < n,
        0 < guess <= 0xffff_ffff_ffff_ffff,
        n < (guess + 1) * (guess + 1),
    ensures
        r == root(n as nat),
        r <= guess,
{
    let mut x: u128 = guess;
    loop
        invariant
            0 < n,
            0 < x <= guess <= 0xffff_ffff_ffff_ffff,
            n < (x + 1) * (x + 1),
        ensures
            x <= guess,
            is_root(n as nat, x as nat),
        decreases x,
    {
        let q: u128 = n / x;
        proof {
            assert(q * x <= n < q * x + x) by (nonlinear_arith)
                requires
                    q == n / x,
                    x > 0,
            ;
            assert(q <= x + 2) by (nonlinear_arith)
                requires
                    q * x <= n,
                    n < (x + 1) * (x + 1),
                    x > 0,
            ;
        }
        let y: u128 = (x + q) / 2;
        if y >= x {
            assert(x * x <= n) by (nonlinear_arith)
                requires
                    q >= x,
                    q * x <= n,
                    x > 0,
            ;
            break;
        }
        proof {
            assert(n < (y + 1) * (y + 1)) by (nonlinear_arith)
                requires
                    n < q * x + x,
                    2 * (y + 1) >= x + q + 1,
                    x > 0,
                    q >= 0,
                    y >= 0,
            ;
            assert(x > 1 || q >= 1) by (nonlinear_arith)
                requires
                    n < q * x + x,
                    n > 0,
                    x > 0,
                    q >= 0,
            ;
        }
        x = y;
    }
    proof {
        lemma_root_is(n as nat, x as nat);
    }
    x
}

/// The power of one thousand with the exponent `k / pow2(depth)`, in parts of `SCALE`.
pub open spec fn grid(k: nat, depth: nat) -> nat
    decreases depth,
{
    if depth == 0 {
        if k == 0 {
            SCALE as nat
        } else {
            (1000 * SCALE) as nat
        }
    } else {
        let below = grid(k / 2, (depth - 1) as nat);
        if k % 2 == 0 {
            below
        } else {
            root(below * grid(k / 2 + 1, (depth - 1) as nat))
        }
    }
}

/// A geometric mean lies between its two sides.
proof fn lemma_mean_between(a: nat, b: nat)
    requires
        a <= b,
    ensures
        a <= root(a * b) <= b,
{
    let r = root(a * b);
    lemma_root(a * b);
    assert(a <= r <= b) by (nonlinear_arith)
        requires
            a <= b,
            r * r <= a * b < (r + 1) * (r + 1),
            r >= 0,
            a >= 0,
    ;
}

/// Neighbouring grid points are in order.
proof fn lemma_grid_next(k: nat, depth: nat)
    ensures
        SCALE <= grid(k, depth) <= grid(k + 1, depth) <= 1000 * SCALE,
    decreases depth,
{
    if depth > 0 {
        let j = k / 2;
        let up = (depth - 1) as nat;
        lemma_grid_next(j, up);
        lemma_mean_between(grid(j, up), grid(j + 1, up));
        if k % 2 == 0 {
            assert((k + 1) / 2 == j && (k + 1) % 2 == 1);
        } else {
            assert((k + 1) / 2 == j + 1 && (k + 1) % 2 == 0);
        }
    }
}

/// Greater exponents have greater powers.
pub proof fn lemma_grid_order(k: nat, l: nat, depth: nat)
    requires
        k <= l,
    ensures
        SCALE <= grid(k, depth) <= grid(l, depth) <= 1000 * SCALE,
    decreases l - k,
{
    lemma_grid_next(k, depth);
    if k < l {
        lemma_grid_order(k + 1, l, depth);
    }
}

/// The power at the greatest grid point is one thousand.
proof fn lemma_grid_top(depth: nat)
    ensures
        grid(pow2(depth), depth) == 1000 * SCALE,
        grid(0, depth) == SCALE,
    decreases depth,
{
    lemma2_to64();
    if depth > 0 {
        lemma_pow2_unfold(depth);
        lemma_grid_top((depth - 1) as nat);
    }
}

/// The power at a grid point.
fn grid_value(k: u64) -> (value: u64)
    requires
        k <= STEPS,
    ensures
        value == grid(k as nat, DEPTH as nat),
        SCALE <= value <= 1000 * SCALE,
{
    proof {
        lemma2_to64_rest();
        lemma2_to64();
        lemma_grid_top(DEPTH as nat);
    }
    if k == STEPS {
        return 1000 * SCALE;
    }
    let mut lo: u64 = SCALE;
    let mut hi: u64 = 1000 * SCALE;
    let mut rest: u64 = k;
    let mut width: u64 = STEPS;
    let mut depth: u32 = 0;
    let ghost mut j: nat = 0;
    while depth < DEPTH
        invariant
            depth <= DEPTH,
            width == pow2((DEPTH - depth) as nat),
            rest < width,
            k == j * width + rest,
            lo == grid(j, depth as nat),
            hi == grid(j + 1, depth as nat),
            SCALE <= lo <= hi <= 1000 * SCALE,
        decreases DEPTH - depth,
    {
        proof {
            lemma_pow2_unfold((DEPTH - depth) as nat);
            assert(0 < lo * hi < (hi + 1) * (hi + 1)) by (nonlinear_arith)
                requires
                    0 < lo <= hi,
            ;
            assert(lo * hi <= 0x8000_0000_0000_0000 * 0x8000_0000_0000_0000) by (nonlinear_arith)
                requires
                    lo <= 0x8000_0000_0000_0000,
                    hi <= 0x8000_0000_0000_0000,
            ;
            lemma_mean_between(lo as nat, hi as nat);
            assert((2 * j + 1) / 2 == j && (2 * j + 2) / 2 == j + 1);
            assert(j * width == 2 * j * (width / 2) && (2 * j + 1) * (width / 2) == 2 * j * (width / 2)
                + width / 2) by (nonlinear_arith)
                requires
                    width % 2 == 0,
            ;
        }
        let mid: u64 = integer_root(lo as u128 * hi as u128, hi as u128) as u64;
        width = width / 2;
        depth = depth + 1;
        if rest >= width {
            rest = rest - width;
            lo = mid;
            proof {
                j = 2 * j + 1;
            }
        } else {
            hi = mid;
            proof {
                j = 2 * j;
            }
        }
    }
    proof {
        lemma2_to64();
        assert(j * width == j) by (nonlinear_arith)
            requires
                width == 1,
        ;
    }
    lo
}

/// The last grid point that is not above an exponent.
pub open spec fn exponent_steps(t: Datum) -> int {
    binary32::signed(t) / (pow2((ONE_EXPONENT - DEPTH) as nat) as int)
}

/// One thousand to the power of `t`, taken at the last grid point that is not above `t` and
/// rounded to the nearest magnitude.
pub open spec fn thousand_to(t: Datum) -> Datum {
    let k = exponent_steps(t);
    let one = pow2(ONE_EXPONENT as nat);
    binary32::number(
        false,
        if k >= 0 {
            rounding::nearest(grid(k as nat, DEPTH as nat) * one, SCALE as nat)
        } else {
            rounding::nearest(
                grid((k + STEPS) as nat, DEPTH as nat) * one,
                (1000 * SCALE) as nat,
            )
        },
    )
}

/// Whether `p` is within one part in two to the power of 23 of one thousand to the power of `t`.
/// With `t` and `p` as fractions of `pow2(ONE_EXPONENT)`, both sides are multiplied by one
/// thousand and taken to the power of that denominator.
pub open spec fn is_near_power(p: Datum, t: Datum) -> bool {
    let one = pow2(ONE_EXPONENT as nat);
    let size = binary32::signed(p);
    let power = pow(1000, (one + binary32::signed(t)) as nat) * pow((one * 0x100_0000) as int, one);
    pow(1000 * size * 0xff_ffff, one) <= power <= pow(1000 * size * 0x100_0002, one)
}

/// How many whole grid steps a size holds, and whether something is left over.
fn steps_of(sig: u32, exp: u32) -> (steps: (u64, bool))
    requires
        sig < 0x100_0000,
        exp <= 253,
        exp > 0 ==> sig >= 0x80_0000,
        sig as nat * pow2(exp as nat) <= pow2(ONE_EXPONENT as nat),
    ensures
        ({
            let width = pow2((ONE_EXPONENT - DEPTH) as nat);
            let size = sig as nat * pow2(exp as nat);
            steps.0 == size / width && (steps.1 <==> size % width != 0)
        }),
        steps.0 <= STEPS,
        steps.0 == STEPS ==> !steps.1,
{
    let base: u32 = ONE_EXPONENT - DEPTH;
    let ghost width = pow2(base as nat);
    let ghost size = sig as nat * pow2(exp as nat);
    proof {
        lemma2_to64();
        lemma2_to64_rest();
        lemma_pow2_pos(base as nat);
        lemma_pow2_adds(DEPTH as nat, base as nat);
    }
    if exp >= base {
        let shift: u32 = exp - base;
        proof {
            if exp > 126 {
                lemma_pow2_strictly_increases(126, exp as nat);
                lemma_pow2_adds(23, 126);
                assert(size > pow2(149)) by (nonlinear_arith)
                    requires
                        size == sig as nat * pow2(exp as nat),
                        sig >= 0x80_0000,
                        pow2(exp as nat) > pow2(126),
                        0x80_0000 * pow2(126) == pow2(149),
                ;
            }
            lemma_pow2_adds(shift as nat, base as nat);
            rounding::lemma_pow2_le(shift as nat, 33);
        }
        let spread: u128 = power_of_two(shift);
        proof {
            assert(size == sig * spread * width) by (nonlinear_arith)
                requires
                    size == sig as nat * pow2(exp as nat),
                    pow2(exp as nat) == spread * width,
            ;
            assert(sig * spread <= STEPS) by (nonlinear_arith)
                requires
                    sig * spread * width <= STEPS * width,
                    width > 0,
            ;
            lemma_steps(size, width, (sig * spread) as nat, 0);
        }
        ((sig as u128 * spread) as u64, false)
    } else {
        let shift: u32 = base - exp;
        let ghost fine = pow2(exp as nat);
        proof {
            lemma_pow2_adds(shift as nat, exp as nat);
            lemma_pow2_pos(exp as nat);
        }
        if shift >= 24 {
            proof {
                rounding::lemma_pow2_le(24, shift as nat);
                assert(size < width && (sig == 0 <==> size == 0)) by (nonlinear_arith)
                    requires
                        size == sig as nat * fine,
                        width == pow2(shift as nat) * fine,
                        sig < pow2(shift as nat),
                        fine > 0,
                ;
                assert(0 * width == 0) by (nonlinear_arith);
                lemma_steps(size, width, 0, size);
            }
            return (0, sig != 0);
        }
        let whole: u128 = power_of_two(shift);
        let q: u128 = sig as u128 / whole;
        let r: u128 = sig as u128 % whole;
        proof {
            rounding::lemma_pow2_le(shift as nat, 24);
            assert(sig == q * whole + r && r < whole && q <= sig) by (nonlinear_arith)
                requires
                    q == sig as u128 / whole,
                    r == sig as u128 % whole,
                    whole > 0,
            ;
            assert(size == q * width + r * fine && r * fine < width && (r == 0 <==> r * fine == 0))
                by (nonlinear_arith)
                requires
                    size == sig as nat * fine,
                    width == whole * fine,
                    sig == q * whole + r,
                    r < whole,
                    fine > 0,
            ;
            lemma_steps(size, width, q as nat, (r * fine) as nat);
        }
        (q as u64, r != 0)
    }
}

proof fn lemma_steps(size: nat, width: nat, q: nat, r: nat)
    requires
        r < width,
        size == q * width + r,
    ensures
        size / width == q,
        size % width == r,
{
    assert(size / width == q && size % width == r) by (nonlinear_arith)
        requires
            r < width,
            size == q * width + r,
    ;
}

/// The power at a grid point, counted in sub-units.
proof fn lemma_grid_scaled(g: nat)
    ensures
        rounding::scaled(
            g,
            (ONE_EXPONENT + SUBUNIT - 53) as nat,
            false,
            g * pow2(ONE_EXPONENT as nat),
            SCALE as nat,
        ),
{
    let one = pow2(ONE_EXPONENT as nat);
    let fine = pow2(SUBUNIT as nat);
    let e = (ONE_EXPONENT + SUBUNIT - 53) as nat;
    lemma2_to64_rest();
    lemma_pow2_adds(e, 53);
    lemma_pow2_adds(ONE_EXPONENT as nat, SUBUNIT as nat);
    assert(g * (pow2(e) * SCALE) == g * one * fine) by (nonlinear_arith)
        requires
            pow2(e) * SCALE == one * fine,
    ;
}

/// One thousand to the power of a number between minus one and one.
pub fn thousand_power(t: Binary32) -> (power: Binary32)
    requires
        t@ is Number,
        -pow2(ONE_EXPONENT as nat) <= binary32::signed(t@) <= pow2(ONE_EXPONENT as nat),
    ensures
        power@ == thousand_to(t@),
        is_near_power(power@, t@),
        binary32::is_plain(power@),
        exists|num: nat, den: nat|
            {
                let one = pow2(ONE_EXPONENT as nat);
                let exact = pow(1000, (one + binary32::signed(t@)) as nat);
                &&& den > 0
                &&& #[trigger] binary32::is_rounding(
                    power@,
                    (num * pow2(ONE_EXPONENT as nat)) as int,
                    den,
                )
                &&& pow((1000 * num) as int, one) <= exact * pow(den as int, one)
                &&& exact * pow((den * 0x1000_0000_0000) as int, one) <= pow(
                    (1000 * num * 0x1000_0000_0001) as int,
                    one,
                )
            },
{
    proof {
        accuracy::lemma_thousand_near_power(t@);
        accuracy::lemma_thousand_rounds_power(t@);
    }
    let mag: u32 = t.magnitude();
    let ghost size = rounding::units(mag as nat);
    let ghost width = pow2((ONE_EXPONENT - DEPTH) as nat);
    proof {
        if mag >= INFINITE {
            rounding::lemma_units_at(254, BINADE as nat);
            lemma2_to64();
            lemma_pow2_adds(23, 254);
            lemma_pow2_strictly_increases(149, 277);
        }
        lemma2_to64_rest();
        lemma_pow2_pos((ONE_EXPONENT - DEPTH) as nat);
        lemma_pow2_adds(64, 62);
        lemma2_to64();
    }
    let (sig, exp): (u32, u32) = parts(mag);
    let (steps, more): (u64, bool) = steps_of(sig, exp);
    let above: u64 = if more {
        steps + 1
    } else {
        steps
    };
    if t.is_negative() && above > 0 {
        proof {
            lemma_floor_negative(size, width, above as nat);
        }
        let g: u64 = grid_value(STEPS - above);
        let wide: u128 = g as u128 * 0x1_0000_0000_0000_0000;
        let q: u128 = wide / 1000;
        let r: u128 = wide % 1000;
        proof {
            lemma2_to64();
            lemma2_to64_rest();
            binary32::lemma_quotient_scaled(g as nat, 1000, 0, 53, q as nat, r as nat);
            assert(g as nat * pow2(0) == g);
        }
        let mag: u32 = round_scaled(
            q,
            ONE_EXPONENT + SUBUNIT - 64 - 53,
            r > 0,
            Ghost(g as nat * pow2(ONE_EXPONENT as nat)),
            Ghost((1000 * SCALE) as nat),
        );
        Binary32::with_sign(false, mag)
    } else {
        proof {
            if t.bits >= 0x8000_0000 {
                lemma_fundamental_div_mod(size as int, width as int);
                assert(width * 0 == 0) by (nonlinear_arith);
                assert(size == 0);
            }
        }
        let g: u64 = grid_value(steps);
        proof {
            lemma_grid_scaled(g as nat);
        }
        let mag: u32 = round_scaled(
            g as u128,
            ONE_EXPONENT + SUBUNIT - 53,
            false,
            Ghost(g as nat * pow2(ONE_EXPONENT as nat)),
            Ghost(SCALE as nat),
        );
        Binary32::with_sign(false, mag)
    }
}

/// Division of a negated size rounds away from zero.
proof fn lemma_floor_negative(size: nat, width: nat, above: nat)
    requires
        width > 0,
        above == size / width + (if size % width != 0 {
            1nat
        } else {
            0
        }),
    ensures
        (-(size as int)) / (width as int) == -above,
{
    let q = size / width;
    let r = size % width;
    let neg = -(size as int);
    assert(size == q * width + r && r < width) by (nonlinear_arith)
        requires
            q == size / width,
            r == size % width,
            width > 0,
    ;
    assert(neg / (width as int) == -above) by (nonlinear_arith)
        requires
            neg == -(q * width + r),
            0 <= r < width,
            r == 0 ==> above == q,
            r != 0 ==> above == q + 1,
    ;
}

/// Greater exponents between zero and one do not have lesser powers.
pub proof fn lemma_thousand_order(s: Datum, t: Datum)
    requires
        s is Number,
        t is Number,
        0 <= binary32::signed(s) <= binary32::signed(t) <= pow2(ONE_EXPONENT as nat),
    ensures
        binary32::is_plain(thousand_to(s)),
        binary32::is_plain(thousand_to(t)),
        thousand_to(s)->magnitude <= thousand_to(t)->magnitude,
{
    let width = pow2((ONE_EXPONENT - DEPTH) as nat) as int;
    let one = pow2(ONE_EXPONENT as nat);
    let k = exponent_steps(s);
    let l = exponent_steps(t);
    lemma_pow2_pos((ONE_EXPONENT - DEPTH) as nat);
    lemma_div_is_ordered(binary32::signed(s), binary32::signed(t), width);
    lemma_div_pos_is_pos(binary32::signed(s), width);
    lemma_grid_order(k as nat, l as nat, DEPTH as nat);
    let a = grid(k as nat, DEPTH as nat);
    let b = grid(l as nat, DEPTH as nat);
    assert(a * one * SCALE <= b * one * SCALE) by (nonlinear_arith)
        requires
            a <= b,
            one >= 0,
    ;
    rounding::lemma_nearest_keeps_order(a * one, SCALE as nat, b * one, SCALE as nat);
    let top = binary32::lemma_exact_size(1000, ONE_EXPONENT as nat);
    rounding::lemma_nearest_exact(top, 1);
    assert(rounding::units(top) * 1 == 1000 * one);
    assert(b * one * 1 <= (1000 * one) * SCALE) by (nonlinear_arith)
        requires
            b <= 1000 * SCALE,
            one >= 0,
    ;
    rounding::lemma_nearest_keeps_order(b * one, SCALE as nat, 1000 * one, 1);
}

/// The powers with the exponents zero and one are exact.
pub proof fn lemma_thousand_ends(s: Datum, t: Datum)
    requires
        binary32::signed(s) == 0,
        binary32::signed(t) == pow2(ONE_EXPONENT as nat),
    ensures
        thousand_to(s) == binary32::whole(1),
        thousand_to(t) == binary32::whole(1000),
{
    let width = pow2((ONE_EXPONENT - DEPTH) as nat);
    let one = pow2(ONE_EXPONENT as nat);
    lemma_pow2_pos((ONE_EXPONENT - DEPTH) as nat);
    lemma2_to64_rest();
    lemma_pow2_adds(DEPTH as nat, (ONE_EXPONENT - DEPTH) as nat);
    lemma_steps(one, width, STEPS as nat, 0);
    assert(0 * width == 0) by (nonlinear_arith);
    lemma_steps(0, width, 0, 0);
    lemma_grid_top(DEPTH as nat);
    let scale = SCALE as nat;
    rounding::lemma_nearest_scales(1 * one, 1, scale);
    rounding::lemma_nearest_scales(1000 * one, 1, scale);
    assert((1 * one) * scale == scale * one) by (nonlinear_arith);
    assert((1000 * one) * scale == (1000 * scale) * one) by (nonlinear_arith);
}

} // verus!
