//! How close the boundaries of a partition are to a geometric progression.
//!
//! A fraction `c / d` is compared with one thousand to the power of `a / b` by the whole numbers
//! `pow(c, b)` and `pow(1000, a) * pow(d, b)`.

use crate::binary32;
use crate::binary32::{Datum, ONE_EXPONENT};
use crate::log_partition;
use crate::nearness;
use crate::power;
use crate::power::{DEPTH, SCALE, STEPS};
use crate::rounding;
use crate::rounding::{BINADE, INFINITE};
use vstd::arithmetic::div_mod::*;
use vstd::arithmetic::mul::*;
use vstd::arithmetic::power::*;
use vstd::arithmetic::power2::*;
use vstd::prelude::*;

verus! {

/// A greater base has a greater power.
proof fn lemma_pow_base(a: nat, b: nat, e: nat)
    requires
        a <= b,
    ensures
        0 <= pow(a as int, e) <= pow(b as int, e),
        a < b && e > 0 ==> pow(a as int, e) < pow(b as int, e),
    decreases e,
{
    reveal(pow);
    if e > 0 {
        let f = (e - 1) as nat;
        lemma_pow_base(a, b, f);
        let x = pow(a as int, f);
        let y = pow(b as int, f);
        if b > 0 {
            lemma_pow_positive(b as int, f);
        }
        assert(0 <= a * x <= b * y) by (nonlinear_arith)
            requires
                0 <= a <= b,
                0 <= x <= y,
        ;
        if a < b {
            assert(a * x < b * y) by (nonlinear_arith)
                requires
                    0 <= a < b,
                    0 <= x <= y,
                    y > 0,
            ;
        }
    }
}

/// A greater power has a greater base.
proof fn lemma_pow_root(a: nat, b: nat, e: nat)
    requires
        e > 0,
        pow(a as int, e) <= pow(b as int, e),
    ensures
        a <= b,
{
    if b < a {
        lemma_pow_base(b, a, e);
    }
}

/// Bernoulli's inequality.
proof fn lemma_bernoulli(d: nat, c: nat, e: nat)
    ensures
        pow(d as int, e) * (d + e * c) <= pow((d + c) as int, e) * d,
        0 <= pow(d as int, e),
    decreases e,
{
    reveal(pow);
    if e == 0 {
        assert(1 * (d + 0 * c) <= 1 * d) by (nonlinear_arith);
    } else {
        let f = (e - 1) as nat;
        lemma_bernoulli(d, c, f);
        let x = pow(d as int, f);
        let y = pow((d + c) as int, f);
        assert(d * x * (d + e * c) <= (d + c) * y * d && 0 <= d * x) by (nonlinear_arith)
            requires
                x * (d + f * c) <= y * d,
                0 <= x,
                e == f + 1,
                c >= 0,
                d >= 0,
                f >= 0,
        ;
    }
}

/// A change of the exponent by one part of `e` changes the power by at most eight such parts.
proof fn lemma_near_power(e: nat)
    requires
        e > 0,
        e % 32 == 0,
    ensures
        1000 * pow(e as int, e) <= pow((e + 8) as int, e),
{
    let f = e / 32;
    let x = pow(e as int, f);
    let y = pow((e + 8) as int, f);
    lemma_bernoulli(e, 8, f);
    assert(5 * x <= 4 * y) by (nonlinear_arith)
        requires
            x * (e + f * 8) <= y * e,
            e == 32 * f,
            f > 0,
    ;
    lemma_pow_base((5 * x) as nat, (4 * y) as nat, 32);
    lemma_pow_distributes(5, x, 32);
    lemma_pow_distributes(4, y, 32);
    lemma_pow_multiplies(e as int, f, 32);
    lemma_pow_multiplies((e + 8) as int, f, 32);
    assert(pow(5, 32) >= 1000 * pow(4, 32) && pow(4, 32) > 0) by {
        reveal_with_fuel(pow, 33);
    }
    let a = pow(e as int, e);
    let b = pow((e + 8) as int, e);
    lemma_pow_positive(e as int, e);
    assert(1000 * a <= b) by (nonlinear_arith)
        requires
            pow(5, 32) * a <= pow(4, 32) * b,
            pow(5, 32) >= 1000 * pow(4, 32),
            pow(4, 32) > 0,
            a >= 0,
    ;
}

/// A power of a power, taken in either order.
proof fn lemma_pow_swap(x: nat, a: nat, b: nat)
    ensures
        pow(pow(x as int, a), b) == pow(x as int, a * b),
        pow(pow(x as int, b), a) == pow(x as int, a * b),
        0 <= pow(x as int, a),
        0 <= pow(x as int, b),
{
    lemma_pow_multiplies(x as int, a, b);
    lemma_pow_multiplies(x as int, b, a);
    lemma_mul_is_commutative(a as int, b as int);
    lemma_pow_base(0, x, a);
    lemma_pow_base(0, x, b);
}

/// The power of a near change of the exponent, `m` times.
proof fn lemma_near_powers(m: nat, e: nat)
    requires
        e > 0,
        e % 32 == 0,
    ensures
        pow(1000, m) * pow(e as int, m * e) <= pow((e + 8) as int, m * e),
{
    let x = pow(e as int, e);
    let y = pow((e + 8) as int, e);
    lemma_near_power(e);
    lemma_pow_positive(e as int, e);
    lemma_pow_base((1000 * x) as nat, y as nat, m);
    lemma_pow_distributes(1000, x, m);
    lemma_pow_swap(e, m, e);
    lemma_pow_swap(e + 8, m, e);
}

/// A fraction below the power with exponent `k / b` is not much above the power with an exponent
/// `n / m` that is near.
proof fn lemma_shift_below(c: nat, d: nat, k: nat, b: nat, n: nat, m: nat, e: nat)
    requires
        e > 0,
        e % 32 == 0,
        b > 0,
        m > 0,
        pow(c as int, b) <= pow(1000, k) * pow(d as int, b),
        k * (m * e) <= (n * e + m) * b,
    ensures
        pow((c * e) as int, m) <= pow(1000, n) * pow((d * (e + 8)) as int, m),
{
    let f = m * e;
    let top = n * e + m;
    // Both sides to the power of `f`.
    let ck = pow(c as int, b);
    let tk = pow(1000, k);
    let dk = pow(d as int, b);
    lemma_pow_swap(c, b, f);
    lemma_pow_swap(d, b, f);
    lemma_pow_swap(1000, k, f);
    lemma_mul_nonnegative(tk, dk);
    lemma_pow_base(ck as nat, (tk * dk) as nat, f);
    lemma_pow_distributes(tk, dk, f);
    assert(pow(c as int, b * f) <= pow(1000, k * f) * pow(d as int, b * f));
    // The exponent of one thousand, raised to that of the near exponent.
    lemma_pow_increases(1000, k * f, top * b);
    lemma_pow_swap(1000, top, b);
    let cf = pow(c as int, f);
    let df = pow(d as int, f);
    let tf = pow(1000, top);
    assert(pow(c as int, b * f) <= pow(tf, b) * pow(df, b)) by {
        lemma_pow_base(0, d, b * f);
        lemma_mul_inequality(pow(1000, k * f), pow(1000, top * b), pow(d as int, b * f));
    }
    lemma_pow_distributes(tf, df, b);
    lemma_mul_nonnegative(tf, df);
    lemma_pow_root(cf as nat, (tf * df) as nat, b);
    // The near change of the exponent, taken apart.
    lemma_pow_adds(1000, n * e, m);
    lemma_pow_swap(1000, n, e);
    lemma_near_powers(m, e);
    let ef = pow(e as int, f);
    let gf = pow((e + 8) as int, f);
    let tn = pow(1000, n * e);
    let tm = pow(1000, m);
    lemma_pow_base(0, e, f);
    lemma_pow_base(0, 1000, n * e);
    assert(cf * ef <= tn * (df * gf)) by (nonlinear_arith)
        requires
            cf <= tn * tm * df,
            tm * ef <= gf,
            ef >= 0,
            tn >= 0,
            df >= 0,
    ;
    lemma_pow_distributes(c as int, e as int, f);
    lemma_pow_distributes(d as int, (e + 8) as int, f);
    lemma_mul_nonnegative(c as int, e as int);
    lemma_mul_nonnegative(d as int, (e + 8) as int);
    lemma_pow_swap((c * e) as nat, m, e);
    lemma_pow_swap((d * (e + 8)) as nat, m, e);
    let left = pow((c * e) as int, m);
    let right = pow((d * (e + 8)) as int, m);
    let tp = pow(1000, n);
    lemma_pow_distributes(tp, right, e);
    lemma_mul_nonnegative(tp, right);
    lemma_pow_root(left as nat, (tp * right) as nat, e);
}

/// A fraction above the power with exponent `k / b` is not much below the power with an exponent
/// `n / m` that is near.
proof fn lemma_shift_above(c: nat, d: nat, k: nat, b: nat, n: nat, m: nat, e: nat)
    requires
        e > 0,
        e % 32 == 0,
        b > 0,
        m > 0,
        pow(1000, k) * pow(d as int, b) <= pow(c as int, b),
        n * (b * e) <= (k * e + b) * m,
    ensures
        pow(1000, n) * pow((d * e) as int, m) <= pow((c * (e + 8)) as int, m),
{
    let f = m * e;
    let g = b * e;
    // Both sides to the power of `f`.
    let ck = pow(c as int, b);
    let tk = pow(1000, k);
    let dk = pow(d as int, b);
    lemma_pow_swap(c, b, f);
    lemma_pow_swap(d, b, f);
    lemma_pow_swap(1000, k, f);
    lemma_mul_nonnegative(tk, dk);
    lemma_pow_base((tk * dk) as nat, ck as nat, f);
    lemma_pow_distributes(tk, dk, f);
    let cb = pow(c as int, b * f);
    let db = pow(d as int, b * f);
    assert(pow(1000, k * f) * db <= cb);
    // The power with the exponent `n / m`, split into the near one and a change.
    assert((k * e + b) * m == k * f + b * m) by (nonlinear_arith)
        requires
            f == m * e,
    ;
    lemma_pow_increases(1000, n * g, k * f + b * m);
    lemma_pow_adds(1000, k * f, b * m);
    lemma_near_powers(b * m, e);
    assert(b * m * e == b * f) by (nonlinear_arith)
        requires
            f == m * e,
    ;
    let eb = pow(e as int, b * f);
    let hb = pow((e + 8) as int, b * f);
    let tn = pow(1000, n * g);
    let tb = pow(1000, b * m);
    let tkf = pow(1000, k * f);
    lemma_pow_base(0, e, b * f);
    lemma_pow_base(0, d, b * f);
    lemma_pow_base(0, 1000, k * f);
    lemma_pow_base(0, 1000, b * m);
    lemma_pow_base(0, e + 8, b * f);
    assert(tn * (db * eb) <= cb * hb) by (nonlinear_arith)
        requires
            tn <= tkf * tb,
            tkf * db <= cb,
            tb * eb <= hb,
            db >= 0,
            eb >= 0,
            tb >= 0,
            tkf >= 0,
            hb >= 0,
            tkf * db >= 0,
    ;
    // Roots of order `g`.
    assert(b * f == g * m && n * g == g * n) by (nonlinear_arith)
        requires
            f == m * e,
            g == b * e,
    ;
    lemma_pow_distributes(d as int, e as int, g * m);
    lemma_pow_distributes(c as int, (e + 8) as int, g * m);
    lemma_mul_nonnegative(d as int, e as int);
    lemma_mul_nonnegative(c as int, (e + 8) as int);
    lemma_pow_swap((d * e) as nat, g, m);
    lemma_pow_swap((c * (e + 8)) as nat, g, m);
    lemma_pow_swap(1000, g, n);
    let left = pow((d * e) as int, m);
    let right = pow((c * (e + 8)) as int, m);
    let tp = pow(1000, n);
    lemma_pow_distributes(tp, left, g);
    lemma_mul_nonnegative(tp, left);
    assert(g > 0) by (nonlinear_arith)
        requires
            g == b * e,
            b > 0,
            e > 0,
    ;
    lemma_pow_root((tp * left) as nat, right as nat, g);
}

/// The square of a product of powers.
proof fn lemma_pow_square(x: nat, y: nat, n: nat)
    ensures
        pow((x * y) as int, n) == pow(x as int, n) * pow(y as int, n),
        pow(x as int, 2 * n) == pow((x * x) as int, n),
        pow(x as int, 2 * n) == pow(x as int, n) * pow(x as int, n),
        0 <= pow(x as int, n),
{
    lemma_pow_distributes(x as int, y as int, n);
    lemma_pow_distributes(x as int, x as int, n);
    lemma_pow_adds(x as int, n, n);
    lemma_pow_base(0, x, n);
}

/// A grid point is not above the power that it stands for.
pub proof fn lemma_grid_below(k: nat, depth: nat)
    requires
        k <= pow2(depth),
    ensures
        pow(power::grid(k, depth) as int, pow2(depth)) <= pow(1000, k) * pow(
            SCALE as int,
            pow2(depth),
        ),
    decreases depth,
{
    let s = SCALE as nat;
    lemma2_to64();
    if depth == 0 {
        lemma_pow1(power::grid(k, 0) as int);
        lemma_pow1(s as int);
        lemma_pow0(1000);
        lemma_pow1(1000);
    } else {
        let up = (depth - 1) as nat;
        let n = pow2(up);
        let j = k / 2;
        lemma_pow2_unfold(depth);
        let a = power::grid(j, up);
        let tj = pow(1000, j);
        let sn = pow(s as int, n);
        lemma_grid_below(j, up);
        lemma_pow_square(s, 1, n);
        lemma_pow_base(0, 1000, j);
        lemma_pow_square(a, 1, n);
        let an = pow(a as int, n);
        if k % 2 == 0 {
            lemma_pow_adds(1000, j, j);
            assert(an * an <= (tj * tj) * (sn * sn)) by (nonlinear_arith)
                requires
                    0 <= an <= tj * sn,
            ;
        } else {
            let b = power::grid(j + 1, up);
            let bn = pow(b as int, n);
            let tk = pow(1000, j + 1);
            let r = power::root(a * b);
            lemma_grid_below(j + 1, up);
            power::lemma_root(a * b);
            lemma_pow_square(a, b, n);
            lemma_pow_square(b, 1, n);
            lemma_pow_square(r, 1, n);
            lemma_pow_base(r * r, a * b, n);
            lemma_pow_adds(1000, j, j + 1);
            lemma_pow_base(0, 1000, j + 1);
            assert(an * bn <= (tj * tk) * (sn * sn)) by (nonlinear_arith)
                requires
                    0 <= an <= tj * sn,
                    0 <= bn <= tk * sn,
            ;
        }
    }
}

/// A grid point is not far below the power that it stands for.
pub proof fn lemma_grid_above(k: nat, depth: nat)
    requires
        k <= pow2(depth),
        2 * depth <= SCALE,
    ensures
        pow(1000, k) * pow((SCALE * SCALE) as int, pow2(depth)) <= pow(
            (power::grid(k, depth) * (SCALE + 2 * depth)) as int,
            pow2(depth),
        ),
    decreases depth,
{
    let s = SCALE as nat;
    let ss = s * s;
    lemma2_to64();
    if depth == 0 {
        lemma_pow1((power::grid(k, 0) * s) as int);
        lemma_pow1(ss as int);
        lemma_pow0(1000);
        lemma_pow1(1000);
        if k > 0 {
            assert(1000 * (s * s) == (1000 * s) * s) by (nonlinear_arith);
        }
    } else {
        let up = (depth - 1) as nat;
        let n = pow2(up);
        let j = k / 2;
        lemma_pow2_unfold(depth);
        let w = s + 2 * up;
        let v = s + 2 * depth;
        let a = power::grid(j, up);
        let tj = pow(1000, j);
        let sn = pow(ss as int, n);
        lemma_grid_above(j, up);
        lemma_pow_square(ss, 1, n);
        lemma_pow_base(0, 1000, j);
        let aw = a * w;
        lemma_pow_square(aw, 1, n);
        let an = pow(aw as int, n);
        lemma_mul_nonnegative(tj, sn);
        if k % 2 == 0 {
            lemma_pow_adds(1000, j, j);
            assert((tj * tj) * (sn * sn) <= an * an) by (nonlinear_arith)
                requires
                    0 <= tj * sn <= an,
            ;
            assert(aw <= a * v) by (nonlinear_arith)
                requires
                    aw == a * w,
                    w <= v,
            ;
            lemma_pow_base(aw, a * v, 2 * n);
        } else {
            let b = power::grid(j + 1, up);
            let bw = b * w;
            let bn = pow(bw as int, n);
            let tk = pow(1000, j + 1);
            let r = power::root(a * b);
            lemma_grid_above(j + 1, up);
            power::lemma_root(a * b);
            power::lemma_grid_order(k, k, depth);
            lemma_pow_square(aw, bw, n);
            lemma_pow_square(bw, 1, n);
            lemma_pow_square(r * v, 1, n);
            lemma_pow_adds(1000, j, j + 1);
            lemma_pow_base(0, 1000, j + 1);
            lemma_mul_nonnegative(tk, sn);
            assert((tj * tk) * (sn * sn) <= an * bn) by (nonlinear_arith)
                requires
                    0 <= tj * sn <= an,
                    0 <= tk * sn <= bn,
            ;
            assert((r + 1) * w <= r * v) by (nonlinear_arith)
                requires
                    r >= s,
                    w == s + 2 * up,
                    v == w + 2,
                    2 * up <= s,
            ;
            assert(aw * bw <= ((r + 1) * w) * ((r + 1) * w)) by (nonlinear_arith)
                requires
                    aw == a * w,
                    bw == b * w,
                    a * b <= (r + 1) * (r + 1),
            ;
            assert(((r + 1) * w) * ((r + 1) * w) <= (r * v) * (r * v)) by (nonlinear_arith)
                requires
                    0 <= (r + 1) * w <= r * v,
            ;
            lemma_pow_base(aw * bw, (r * v) * (r * v), n);
        }
    }
}

/// How near the grid point of a fraction is: one part of this many.
spec fn near() -> nat {
    0x40_0000
}

/// The grid point of a fraction is near the fraction.
proof fn lemma_steps_near(n: nat, m: nat)
    requires
        0 < n <= m <= u32::MAX,
    ensures
        ({
            let t = binary32::quotient(binary32::whole(n), binary32::whole(m));
            let k = power::exponent_steps(t);
            &&& 0 <= k <= STEPS
            &&& k * (m * near()) <= (n * near() + m) * STEPS
            &&& n * (STEPS * near()) <= (k * near() + STEPS) * m
        }),
{
    let one = pow2(ONE_EXPONENT as nat);
    let width = pow2((ONE_EXPONENT - DEPTH) as nat);
    let x = binary32::whole(n);
    let y = binary32::whole(m);
    let t = binary32::quotient(x, y);
    let k = power::exponent_steps(t);
    let a = rounding::units(x->magnitude);
    let b = rounding::units(y->magnitude);
    let size = rounding::units(t->magnitude);
    lemma_pow2_pos(ONE_EXPONENT as nat);
    lemma_pow2_pos((ONE_EXPONENT - DEPTH) as nat);
    lemma2_to64();
    lemma2_to64_rest();
    lemma_pow2_adds(DEPTH as nat, (ONE_EXPONENT - DEPTH) as nat);
    binary32::lemma_whole_finite(n);
    binary32::lemma_whole_finite(m);
    binary32::lemma_whole_exact(1);
    binary32::lemma_whole_order(1, n);
    binary32::lemma_whole_order(1, m);
    log_partition::lemma_fraction(n, m);
    rounding::lemma_pow2_le(64, ONE_EXPONENT as nat);
    assert(0x80_0000 * 1 <= n * one && 0x80_0000 * 1 <= m * one) by (nonlinear_arith)
        requires
            n >= 1,
            m >= 1,
            one >= 0x1_0000_0000_0000_0000,
    ;
    rounding::lemma_relative_error(n * one, 1);
    rounding::lemma_relative_error(m * one, 1);
    assert(0x80_0000 * b <= a * one) by (nonlinear_arith)
        requires
            b * 0xff_ffff <= m * one * 0x100_0000,
            m <= 0xffff_ffff,
            one <= a,
            one >= 0x1_0000_0000_0000_0000,
    ;
    assert(t->magnitude < INFINITE) by {
        rounding::lemma_nearest(a * one, b);
        if t->magnitude == INFINITE {
            rounding::lemma_units_increase(binary32::whole(1)->magnitude, INFINITE as nat);
        }
    }
    rounding::lemma_relative_error(a * one, b);
    lemma_fundamental_div_mod(size as int, width as int);
    lemma_mod_bound(size as int, width as int);
    lemma_div_pos_is_pos(size as int, width as int);
    assert(k * width <= size < (k + 1) * width) by (nonlinear_arith)
        requires
            size == width * k + size % width,
            0 <= size % width < width,
    ;
    assert(k <= STEPS) by (nonlinear_arith)
        requires
            k * width <= size,
            size <= STEPS * width,
            width > 0,
    ;
    lemma_steps_not_above(n, m, a, b, size, one, width, k as nat);
    lemma_steps_not_below(n, m, a, b, size, one, width, k as nat);
}

proof fn lemma_steps_not_above(
    n: nat,
    m: nat,
    a: nat,
    b: nat,
    size: nat,
    one: nat,
    width: nat,
    k: nat,
)
    requires
        n <= m,
        one > 0,
        width > 0,
        one == STEPS * width,
        a * 0xff_ffff <= n * one * 0x100_0000,
        m * one * 0x100_0000 <= b * 0x100_0001,
        (size * b) * 0xff_ffff <= (a * one) * 0x100_0000,
        k * width <= size,
    ensures
        k * (m * near()) <= (n * near() + m) * STEPS,
{
    let y = 0x100_0000int;
    let sb = size * b;
    // The quotient in terms of the dividend.
    assert(sb * (y - 1) * (y - 1) <= (n * one * one) * y * y) by (nonlinear_arith)
        requires
            sb * (y - 1) <= (a * one) * y,
            a * (y - 1) <= n * one * y,
            one > 0,
            y == 0x100_0000,
    ;
    assert(size * (m * one) * y <= sb * (y + 1)) by (nonlinear_arith)
        requires
            sb == size * b,
            m * one * y <= b * (y + 1),
            size >= 0,
    ;
    assert(size * (m * one) * y * (y - 1) * (y - 1) <= (n * one * one) * y * y * (y + 1))
        by (nonlinear_arith)
        requires
            size * (m * one) * y <= sb * (y + 1),
            sb * (y - 1) * (y - 1) <= (n * one * one) * y * y,
            y == 0x100_0000,
    ;
    assert(size * m * (y - 1) * (y - 1) <= n * one * y * (y + 1)) by (nonlinear_arith)
        requires
            size * (m * one) * y * (y - 1) * (y - 1) <= (n * one * one) * y * y * (y + 1),
            one > 0,
            y == 0x100_0000,
    ;
    assert(k * m * (y - 1) * (y - 1) <= n * STEPS * y * (y + 1)) by (nonlinear_arith)
        requires
            size * m * (y - 1) * (y - 1) <= n * one * y * (y + 1),
            k * width <= size,
            one == STEPS * width,
            width > 0,
            y == 0x100_0000,
            m >= 0,
    ;
    assert(k * (m * near()) <= (n * near() + m) * STEPS) by (nonlinear_arith)
        requires
            k * m * (y - 1) * (y - 1) <= n * STEPS * y * (y + 1),
            n <= m,
            y == 0x100_0000,
            near() == 0x40_0000,
            STEPS == 0x100_0000_0000_0000,
    ;
}

proof fn lemma_steps_not_below(
    n: nat,
    m: nat,
    a: nat,
    b: nat,
    size: nat,
    one: nat,
    width: nat,
    k: nat,
)
    requires
        n <= m,
        one > 0,
        width > 0,
        one == STEPS * width,
        n * one * 0x100_0000 <= a * 0x100_0001,
        b * 0xff_ffff <= m * one * 0x100_0000,
        (a * one) * 0x100_0000 <= (size * b) * 0x100_0001,
        size < (k + 1) * width,
    ensures
        n * (STEPS * near()) <= (k * near() + STEPS) * m,
{
    let y = 0x100_0000int;
    let sb = size * b;
    assert((n * one * one) * y * y <= sb * (y + 1) * (y + 1)) by (nonlinear_arith)
        requires
            (a * one) * y <= sb * (y + 1),
            n * one * y <= a * (y + 1),
            one > 0,
            y == 0x100_0000,
    ;
    assert(sb * (y - 1) <= size * (m * one) * y) by (nonlinear_arith)
        requires
            sb == size * b,
            b * (y - 1) <= m * one * y,
            size >= 0,
    ;
    assert((n * one * one) * y * y * (y - 1) <= size * (m * one) * y * (y + 1) * (y + 1))
        by (nonlinear_arith)
        requires
            sb * (y - 1) <= size * (m * one) * y,
            (n * one * one) * y * y <= sb * (y + 1) * (y + 1),
            y == 0x100_0000,
    ;
    assert(n * one * y * (y - 1) <= size * m * (y + 1) * (y + 1)) by (nonlinear_arith)
        requires
            (n * one * one) * y * y * (y - 1) <= size * (m * one) * y * (y + 1) * (y + 1),
            one > 0,
            y == 0x100_0000,
    ;
    assert(n * STEPS * y * (y - 1) <= (k + 1) * m * (y + 1) * (y + 1)) by (nonlinear_arith)
        requires
            n * one * y * (y - 1) <= size * m * (y + 1) * (y + 1),
            size <= (k + 1) * width,
            one == STEPS * width,
            width > 0,
            y == 0x100_0000,
            m >= 0,
    ;
    assert(n * (STEPS * near()) <= (k * near() + STEPS) * m) by (nonlinear_arith)
        requires
            n * STEPS * y * (y - 1) <= (k + 1) * m * (y + 1) * (y + 1),
            n <= m,
            y == 0x100_0000,
            near() == 0x40_0000,
            STEPS == 0x100_0000_0000_0000,
    ;
}

/// The frequency at a fraction is near twenty times the power at its grid point.
proof fn lemma_freq_near_grid(t: Datum)
    requires
        t is Number,
        0 <= binary32::signed(t) <= pow2(ONE_EXPONENT as nat),
    ensures
        ({
            let g = power::grid(power::exponent_steps(t) as nat, DEPTH as nat);
            let r = log_partition::freq_at(t);
            &&& (2 * r - 1) * 0xff_ffff * 0xff_ffff * SCALE <= 40 * g * 0x100_0000 * 0x100_0000
            &&& 40 * g * 0x100_0000 * 0x100_0000 <= (2 * r + 1) * 0x100_0001 * 0x100_0001 * SCALE
        }),
{
    let one = pow2(ONE_EXPONENT as nat);
    let k = power::exponent_steps(t);
    let g = power::grid(k as nat, DEPTH as nat);
    let low = binary32::whole(20);
    let p = power::thousand_to(t);
    let q = binary32::product(low, p);
    let r = log_partition::freq_at(t);
    let scale = SCALE as nat;
    lemma_pow2_pos(ONE_EXPONENT as nat);
    lemma_pow2_pos((ONE_EXPONENT - DEPTH) as nat);
    lemma_div_pos_is_pos(binary32::signed(t), pow2((ONE_EXPONENT - DEPTH) as nat) as int);
    power::lemma_thousand_order(t, t);
    power::lemma_grid_order(k as nat, k as nat, DEPTH as nat);
    binary32::lemma_whole_exact(20);
    binary32::lemma_whole_exact(1000);
    lemma2_to64();
    rounding::lemma_pow2_le(64, ONE_EXPONENT as nat);
    // The power.
    let p_size = rounding::units(p->magnitude);
    assert(0x80_0000 * scale <= g * one) by (nonlinear_arith)
        requires
            g >= scale,
            one >= 0x80_0000,
            scale >= 0,
    ;
    rounding::lemma_relative_error(g * one, scale);
    assert(g * one * 0x100_0000 <= p_size * scale * 0x100_0001);
    assert(p_size * scale * 0xff_ffff <= g * one * 0x100_0000);
    // Twenty times the power.
    let q_size = rounding::units(q->magnitude);
    let twenty = rounding::units(low->magnitude);
    assert(0x80_0000 * one <= twenty * p_size && p_size <= 1001 * one) by (nonlinear_arith)
        requires
            twenty == 20 * one,
            g * one * 0x100_0000 <= p_size * scale * 0x100_0001,
            p_size * scale * 0xff_ffff <= g * one * 0x100_0000,
            scale <= g <= 1000 * scale,
            scale > 0,
            one >= 0x80_0000,
    ;
    let top = binary32::lemma_exact_size(20020, ONE_EXPONENT as nat);
    rounding::lemma_nearest_exact(top, one);
    assert(twenty * p_size * one <= (20020 * one * one) * one) by (nonlinear_arith)
        requires
            twenty == 20 * one,
            p_size <= 1001 * one,
    ;
    rounding::lemma_nearest_keeps_order(twenty * p_size, one, 20020 * one * one, one);
    rounding::lemma_relative_error(twenty * p_size, one);
    assert(40 * p_size * 0x100_0000 <= 2 * q_size * 0x100_0001 && 2 * q_size * 0xff_ffff <= 40 * p_size
        * 0x100_0000) by (nonlinear_arith)
        requires
            (twenty * p_size) * 0x100_0000 <= (q_size * one) * 0x100_0001,
            (q_size * one) * 0xff_ffff <= (twenty * p_size) * 0x100_0000,
            twenty == 20 * one,
            one > 0,
    ;
    // The whole number.
    assert(q_size <= 20020 * one) by {
        if q->magnitude < top {
            rounding::lemma_units_increase(q->magnitude, top);
        }
    }
    let count = (2 * q_size + one) / (2 * one);
    assert(count * (2 * one) <= 2 * q_size + one < count * (2 * one) + 2 * one) by (nonlinear_arith)
        requires
            count == (2 * q_size + one) / (2 * one),
            one > 0,
    ;
    assert(count <= 20021) by (nonlinear_arith)
        requires
            count * (2 * one) <= 2 * q_size + one,
            q_size <= 20020 * one,
            one > 0,
    ;
    assert(r == count);
    assert((2 * r - 1) * one <= 2 * q_size <= (2 * r + 1) * one) by (nonlinear_arith)
        requires
            r * (2 * one) <= 2 * q_size + one < r * (2 * one) + 2 * one,
    ;
    lemma_chain_below(r as int, one as int, q_size as int, p_size as int, g as int, scale as int);
    lemma_chain_above(r as int, one as int, q_size as int, p_size as int, g as int, scale as int);
}

proof fn lemma_chain_below(r: int, one: int, q: int, p: int, g: int, scale: int)
    requires
        one > 0,
        scale > 0,
        (2 * r - 1) * one <= 2 * q,
        2 * q * 0xff_ffff <= 40 * p * 0x100_0000,
        p * scale * 0xff_ffff <= g * one * 0x100_0000,
    ensures
        (2 * r - 1) * 0xff_ffff * 0xff_ffff * scale <= 40 * g * 0x100_0000 * 0x100_0000,
{
    let y = 0x100_0000int;
    assert((2 * r - 1) * one * (y - 1) <= 40 * p * y) by (nonlinear_arith)
        requires
            (2 * r - 1) * one <= 2 * q,
            2 * q * (y - 1) <= 40 * p * y,
            y == 0x100_0000,
    ;
    assert((2 * r - 1) * one * (y - 1) * (y - 1) * scale <= 40 * y * (p * scale * (y - 1)))
        by (nonlinear_arith)
        requires
            (2 * r - 1) * one * (y - 1) <= 40 * p * y,
            scale > 0,
            y == 0x100_0000,
    ;
    assert((2 * r - 1) * one * (y - 1) * (y - 1) * scale <= 40 * y * (g * one * y))
        by (nonlinear_arith)
        requires
            (2 * r - 1) * one * (y - 1) * (y - 1) * scale <= 40 * y * (p * scale * (y - 1)),
            p * scale * (y - 1) <= g * one * y,
            y == 0x100_0000,
    ;
    assert((2 * r - 1) * (y - 1) * (y - 1) * scale <= 40 * g * y * y) by (nonlinear_arith)
        requires
            (2 * r - 1) * one * (y - 1) * (y - 1) * scale <= 40 * y * (g * one * y),
            one > 0,
    ;
}

proof fn lemma_chain_above(r: int, one: int, q: int, p: int, g: int, scale: int)
    requires
        one > 0,
        scale > 0,
        2 * q <= (2 * r + 1) * one,
        40 * p * 0x100_0000 <= 2 * q * 0x100_0001,
        g * one * 0x100_0000 <= p * scale * 0x100_0001,
    ensures
        40 * g * 0x100_0000 * 0x100_0000 <= (2 * r + 1) * 0x100_0001 * 0x100_0001 * scale,
{
    let y = 0x100_0000int;
    assert(40 * p * y <= (2 * r + 1) * one * (y + 1)) by (nonlinear_arith)
        requires
            2 * q <= (2 * r + 1) * one,
            40 * p * y <= 2 * q * (y + 1),
            y == 0x100_0000,
    ;
    assert(40 * y * (p * scale * (y + 1)) <= (2 * r + 1) * one * (y + 1) * (y + 1) * scale)
        by (nonlinear_arith)
        requires
            40 * p * y <= (2 * r + 1) * one * (y + 1),
            scale > 0,
            y == 0x100_0000,
    ;
    assert(40 * y * (g * one * y) <= (2 * r + 1) * one * (y + 1) * (y + 1) * scale)
        by (nonlinear_arith)
        requires
            40 * y * (p * scale * (y + 1)) <= (2 * r + 1) * one * (y + 1) * (y + 1) * scale,
            g * one * y <= p * scale * (y + 1),
            y == 0x100_0000,
    ;
    assert(40 * g * y * y <= (2 * r + 1) * (y + 1) * (y + 1) * scale) by (nonlinear_arith)
        requires
            40 * y * (g * one * y) <= (2 * r + 1) * one * (y + 1) * (y + 1) * scale,
            one > 0,
    ;
}

/// From `x * y <= z * w` for powers, with a common factor taken out.
proof fn lemma_pow_cancel(x: nat, y: nat, z: nat, w: nat, t: nat, e: nat)
    requires
        x * y <= z * w,
        y > 0,
        pow(z as int, e) <= t * pow(y as int, e),
    ensures
        pow(x as int, e) <= t * pow(w as int, e),
{
    let xe = pow(x as int, e);
    let ye = pow(y as int, e);
    let ze = pow(z as int, e);
    let we = pow(w as int, e);
    lemma_pow_base(x * y, z * w, e);
    lemma_pow_distributes(x as int, y as int, e);
    lemma_pow_distributes(z as int, w as int, e);
    lemma_pow_positive(y as int, e);
    lemma_pow_base(0, w, e);
    assert(xe <= t * we) by (nonlinear_arith)
        requires
            xe * ye <= ze * we,
            ze <= t * ye,
            ye > 0,
            we >= 0,
    ;
}

/// The same with the inequalities turned round.
proof fn lemma_pow_cancel_above(x: nat, y: nat, z: nat, w: nat, t: nat, e: nat)
    requires
        z * w <= x * y,
        y > 0,
        t * pow(y as int, e) <= pow(z as int, e),
    ensures
        t * pow(w as int, e) <= pow(x as int, e),
{
    let xe = pow(x as int, e);
    let ye = pow(y as int, e);
    let ze = pow(z as int, e);
    let we = pow(w as int, e);
    lemma_pow_base(z * w, x * y, e);
    lemma_pow_distributes(x as int, y as int, e);
    lemma_pow_distributes(z as int, w as int, e);
    lemma_pow_positive(y as int, e);
    lemma_pow_base(0, w, e);
    assert(t * we <= xe) by (nonlinear_arith)
        requires
            ze * we <= xe * ye,
            t * ye <= ze,
            ye > 0,
            we >= 0,
    ;
}

proof fn lemma_boundary_not_above(n: nat, m: nat, r: nat, k: nat)
    requires
        0 < m,
        20 <= r <= 20000,
        k <= STEPS,
        k * (m * near()) <= (n * near() + m) * STEPS,
        (2 * r - 1) * 0xff_ffff * 0xff_ffff * SCALE <= 40 * power::grid(k, DEPTH as nat)
            * 0x100_0000 * 0x100_0000,
    ensures
        pow(10000 * (2 * r - 1), m) <= pow(1000, n) * pow(400001, m),
{
    let g = power::grid(k, DEPTH as nat);
    let s = SCALE as nat;
    let b = STEPS as nat;
    let c = ((2 * r - 1) * 0xff_ffff * 0xff_ffff) as nat;
    let d = 40 * 0x100_0000 * 0x100_0000nat;
    lemma2_to64_rest();
    lemma_grid_below(k, DEPTH as nat);
    lemma_pow_base(0, 1000, k);
    lemma_pow_base(0, 1000, n);
    assert(c * s <= g * d) by (nonlinear_arith)
        requires
            c * s <= 40 * g * 0x100_0000 * 0x100_0000,
            d == 40 * 0x100_0000 * 0x100_0000,
    ;
    lemma_pow_cancel(c, s, g, d, pow(1000, k) as nat, b);
    lemma_shift_below(c, d, k, b, n, m, near());
    let x = (10000 * (2 * r - 1)) as nat;
    let y = d * (near() + 8);
    let z = c * near();
    assert(y == 0xa000140000000000000) by (nonlinear_arith)
        requires
            y == d * 0x40_0008,
            d == 0x28000000000000,
    ;
    assert(z == (2 * r - 1) * 0x3fffff800000400000) by (nonlinear_arith)
        requires
            z == c * 0x40_0000,
            c == (2 * r - 1) * 0xff_ffff * 0xff_ffff,
    ;
    assert(x * y <= z * 400001) by (nonlinear_arith)
        requires
            x == 10000 * (2 * r - 1),
            y == 0xa000140000000000000,
            z == (2 * r - 1) * 0x3fffff800000400000,
            20 <= r <= 20000,
    ;
    lemma_pow_cancel(x, y, z, 400001, pow(1000, n) as nat, m);
}

proof fn lemma_boundary_not_below(n: nat, m: nat, r: nat, k: nat)
    requires
        0 < m,
        20 <= r <= 20000,
        k <= STEPS,
        n * (STEPS * near()) <= (k * near() + STEPS) * m,
        40 * power::grid(k, DEPTH as nat) * 0x100_0000 * 0x100_0000 <= (2 * r + 1) * 0x100_0001
            * 0x100_0001 * SCALE,
    ensures
        pow(1000, n) * pow(399999, m) <= pow(10000 * (2 * r + 1) as int, m),
{
    let g = power::grid(k, DEPTH as nat);
    let s = SCALE as nat;
    let b = STEPS as nat;
    let w = s + 2 * DEPTH as nat;
    let c = (2 * r + 1) * 0x100_0001 * 0x100_0001 * w;
    let d = 40 * 0x100_0000 * 0x100_0000 * s;
    lemma2_to64_rest();
    lemma_grid_above(k, DEPTH as nat);
    lemma_pow_base(0, 1000, k);
    lemma_pow_base(0, 1000, n);
    assert((g * w) * d <= c * (s * s)) by (nonlinear_arith)
        requires
            40 * g * 0x100_0000 * 0x100_0000 <= (2 * r + 1) * 0x100_0001 * 0x100_0001 * s,
            c == (2 * r + 1) * 0x100_0001 * 0x100_0001 * w,
            d == 40 * 0x100_0000 * 0x100_0000 * s,
            w >= 0,
            s >= 0,
    ;
    lemma_pow_cancel_above(c, s * s, g * w, d, pow(1000, k) as nat, b);
    lemma_shift_above(c, d, k, b, n, m, near());
    let x = 10000 * (2 * r + 1);
    let y = d * near();
    let z = c * (near() + 8);
    assert(y == 0x140000000000000000000000000000000) by (nonlinear_arith)
        requires
            y == d * 0x40_0000,
            d == 0x28000000000000 * s,
            s == 0x20_0000_0000_0000,
    ;
    assert(z == (2 * r + 1) * 0x80001100002240004b800071c000380) by (nonlinear_arith)
        requires
            z == c * 0x40_0008,
            c == (2 * r + 1) * 0x100_0001 * 0x100_0001 * w,
            w == 0x20_0000_0000_0070,
    ;
    assert(z * 399999 <= x * y) by (nonlinear_arith)
        requires
            x == 10000 * (2 * r + 1),
            y == 0x140000000000000000000000000000000,
            z == (2 * r + 1) * 0x80001100002240004b800071c000380,
            20 <= r <= 20000,
    ;
    lemma_pow_cancel_above(x, y, z, 399999, pow(1000, n) as nat, m);
}

/// Each boundary is what rounding gives of a point that is very near the geometric progression
/// from 20 to 20000.
pub proof fn lemma_boundary_near_progression(n: nat, parts: nat)
    requires
        n <= parts,
        0 < parts <= u32::MAX,
    ensures
        log_partition::is_near_progression(log_partition::boundary(n, parts), n, parts),
{
    let r = log_partition::boundary(n, parts);
    log_partition::lemma_boundary_ends(parts);
    log_partition::lemma_boundaries_ordered(0, n, parts);
    log_partition::lemma_boundaries_ordered(n, parts, parts);
    if n == 0 {
        lemma_pow0(1000);
        lemma_pow_base(390000, 400001, parts);
        lemma_pow_base(399999, 410000, parts);
    } else {
        let t = binary32::quotient(binary32::whole(n), binary32::whole(parts));
        log_partition::lemma_fraction(n, parts);
        binary32::lemma_whole_exact(1);
        lemma_steps_near(n, parts);
        lemma_freq_near_grid(t);
        let k = power::exponent_steps(t) as nat;
        lemma_boundary_not_above(n, parts, r, k);
        lemma_boundary_not_below(n, parts, r, k);
    }
}

/// A size near a grid point is near the power of any exponent from there to the next point.
proof fn lemma_size_near_power(size: nat, k: nat, t: nat)
    requires
        k <= STEPS,
        k * pow2((ONE_EXPONENT - DEPTH) as nat) <= t <= (k + 1) * pow2(
            (ONE_EXPONENT - DEPTH) as nat,
        ),
        size * SCALE * 0xff_ffff <= power::grid(k, DEPTH as nat) * pow2(ONE_EXPONENT as nat)
            * 0x100_0000,
        power::grid(k, DEPTH as nat) * pow2(ONE_EXPONENT as nat) * 0x100_0000 <= size * SCALE
            * 0x100_0001,
    ensures
        ({
            let one = pow2(ONE_EXPONENT as nat);
            let power = pow(1000, t) * pow((one * 0x100_0000) as int, one);
            pow((size * 0xff_ffff) as int, one) <= power <= pow((size * 0x100_0002) as int, one)
        }),
{
    let one = pow2(ONE_EXPONENT as nat);
    let width = pow2((ONE_EXPONENT - DEPTH) as nat);
    let g = power::grid(k, DEPTH as nat);
    let s = SCALE as nat;
    let b = STEPS as nat;
    let d = one * 0x100_0000;
    lemma_pow2_pos(ONE_EXPONENT as nat);
    lemma_pow2_pos((ONE_EXPONENT - DEPTH) as nat);
    lemma2_to64_rest();
    lemma_pow2_adds(DEPTH as nat, (ONE_EXPONENT - DEPTH) as nat);
    lemma_pow_base(0, 1000, k);
    lemma_pow_base(0, 1000, t);
    // Not above.
    let c = size * 0xff_ffff;
    assert(c * s <= g * d) by (nonlinear_arith)
        requires
            size * s * 0xff_ffff <= g * one * 0x100_0000,
            c == size * 0xff_ffff,
            d == one * 0x100_0000,
    ;
    lemma_grid_below(k, DEPTH as nat);
    let tk = pow(1000, k);
    lemma_pow_cancel(c, s, g, d, tk as nat, b);
    let cb = pow(c as int, b);
    let db = pow(d as int, b);
    lemma_pow_swap(c, b, width);
    lemma_pow_swap(d, b, width);
    lemma_pow_swap(1000, k, width);
    lemma_mul_nonnegative(tk, db);
    lemma_pow_base(cb as nat, (tk * db) as nat, width);
    lemma_pow_distributes(tk, db, width);
    lemma_pow_increases(1000, k * width, t);
    lemma_pow_base(0, d, one);
    lemma_mul_inequality(pow(1000, k * width), pow(1000, t), pow(d as int, one));
    // Not below.
    let w = s + 2 * DEPTH as nat;
    let e = size * 0x100_0001 * w;
    let f = d * s;
    assert((g * w) * f <= e * (s * s)) by (nonlinear_arith)
        requires
            g * one * 0x100_0000 <= size * s * 0x100_0001,
            e == size * 0x100_0001 * w,
            f == d * s,
            d == one * 0x100_0000,
            w >= 0,
            s >= 0,
    ;
    lemma_grid_above(k, DEPTH as nat);
    lemma_pow_cancel_above(e, s * s, g * w, f, tk as nat, b);
    assert(t * (b * b) <= (k * b + b) * one) by (nonlinear_arith)
        requires
            t <= (k + 1) * width,
            one == b * width,
            b >= 0,
    ;
    lemma_shift_above(e, f, k, b, t, one, b);
    let x = size * 0x100_0002;
    let y = f * b;
    let z = e * (b + 8);
    assert(z == size * 0x2000002000007100007100000380000380) by (nonlinear_arith)
        requires
            z == size * 0x100_0001 * w * (b + 8),
            w == 0x20_0000_0000_0070,
            b == 0x100_0000_0000_0000,
    ;
    assert(z * d <= x * y) by (nonlinear_arith)
        requires
            z == size * 0x2000002000007100007100000380000380,
            x == size * 0x100_0002,
            y == d * 0x2000000000000000000000000000,
            d >= 0,
            size >= 0,
    {
        assert(size * d * 0x2000002000007100007100000380000380 <= size * d * 0x2000004000000000000000000000000000);
    }
    assert(y > 0) by (nonlinear_arith)
        requires
            y == d * 0x2000000000000000000000000000,
            d > 0,
    ;
    lemma_pow_cancel_above(x, y, z, d, pow(1000, t) as nat, one);
}

/// The computed power of one thousand is near the exact one.
pub proof fn lemma_thousand_near_power(t: Datum)
    requires
        t is Number,
        -pow2(ONE_EXPONENT as nat) <= binary32::signed(t) <= pow2(ONE_EXPONENT as nat),
    ensures
        power::is_near_power(power::thousand_to(t), t),
        binary32::is_plain(power::thousand_to(t)),
{
    let one = pow2(ONE_EXPONENT as nat);
    let width = pow2((ONE_EXPONENT - DEPTH) as nat);
    let x = binary32::signed(t);
    let k = power::exponent_steps(t);
    let scale = SCALE as nat;
    lemma_pow2_pos(ONE_EXPONENT as nat);
    lemma_pow2_pos((ONE_EXPONENT - DEPTH) as nat);
    lemma2_to64();
    lemma2_to64_rest();
    lemma_pow2_adds(DEPTH as nat, (ONE_EXPONENT - DEPTH) as nat);
    rounding::lemma_pow2_le(64, ONE_EXPONENT as nat);
    lemma_fundamental_div_mod(x, width as int);
    lemma_mod_bound(x, width as int);
    assert(k * width <= x < (k + 1) * width) by (nonlinear_arith)
        requires
            x == width * k + x % (width as int),
            0 <= x % (width as int) < width,
    ;
    assert(-STEPS <= k <= STEPS && (k >= 0 <==> x >= 0)) by (nonlinear_arith)
        requires
            k * width <= x < (k + 1) * width,
            -(STEPS * width) <= x <= STEPS * width,
            width > 0,
    ;
    let p = power::thousand_to(t);
    let size = rounding::units(p->magnitude);
    if k >= 0 {
        let g = power::grid(k as nat, DEPTH as nat);
        power::lemma_thousand_order(t, t);
        power::lemma_grid_order(k as nat, k as nat, DEPTH as nat);
        assert(0x80_0000 * scale <= g * one) by (nonlinear_arith)
            requires
                g >= scale,
                one >= 0x80_0000,
                scale >= 0,
        ;
        rounding::lemma_relative_error(g * one, scale);
        lemma_size_near_power(size, k as nat, x as nat);
        lemma_thousandfold(size * 0xff_ffff, one, x as nat, one * 0x100_0000);
        lemma_thousandfold(size * 0x100_0002, one, x as nat, one * 0x100_0000);
    } else {
        let l = (k + STEPS) as nat;
        let g = power::grid(l, DEPTH as nat);
        power::lemma_grid_order(l, l, DEPTH as nat);
        assert(0x80_0000 * (1000 * scale) <= g * one) by (nonlinear_arith)
            requires
                g >= scale,
                one >= 0x1_0000_0000_0000_0000,
                scale >= 0,
        ;
        let top = binary32::lemma_exact_size(1, ONE_EXPONENT as nat);
        rounding::lemma_nearest_exact(top, 1);
        assert(rounding::units(top) * 1 == one);
        assert(g * one * 1 <= one * (1000 * scale)) by (nonlinear_arith)
            requires
                g <= 1000 * scale,
                one >= 0,
        ;
        rounding::lemma_nearest_keeps_order(g * one, 1000 * scale, one, 1);
        rounding::lemma_relative_error(g * one, 1000 * scale);
        assert((1000 * size) * scale == size * (1000 * scale)) by (nonlinear_arith);
        assert(l * width <= x + one <= (l + 1) * width) by (nonlinear_arith)
            requires
                k * width <= x < (k + 1) * width,
                one == STEPS * width,
                l == k + STEPS,
        ;
        lemma_size_near_power(1000 * size, l, (x + one) as nat);
    }
}

/// Both sides of a comparison with a power of one thousand, multiplied by one thousand.
proof fn lemma_thousandfold(c: nat, b: nat, t: nat, d: nat)
    ensures
        pow(c as int, b) <= pow(1000, t) * pow(d as int, b) ==> pow((1000 * c) as int, b) <= pow(
            1000,
            b + t,
        ) * pow(d as int, b),
        pow(1000, t) * pow(d as int, b) <= pow(c as int, b) ==> pow(1000, b + t) * pow(d as int, b)
            <= pow((1000 * c) as int, b),
{
    let tb = pow(1000, b);
    let tt = pow(1000, t);
    let cb = pow(c as int, b);
    let db = pow(d as int, b);
    lemma_pow_positive(1000, b);
    lemma_pow_distributes(1000, c as int, b);
    lemma_pow_adds(1000, b, t);
    assert((tb * tt) * db == tb * (tt * db)) by (nonlinear_arith);
    if cb <= tt * db {
        lemma_mul_inequality(cb, tt * db, tb);
        lemma_mul_is_commutative(cb, tb);
        lemma_mul_is_commutative(tt * db, tb);
    }
    if tt * db <= cb {
        lemma_mul_inequality(tt * db, cb, tb);
        lemma_mul_is_commutative(cb, tb);
        lemma_mul_is_commutative(tt * db, tb);
    }
}

/// A grid point is at most the power of any exponent from there to the next point, and less than
/// that by at most one part in two to the power of 44.
proof fn lemma_grid_near_power(k: nat, t: nat)
    requires
        k <= STEPS,
        k * pow2((ONE_EXPONENT - DEPTH) as nat) <= t <= (k + 1) * pow2(
            (ONE_EXPONENT - DEPTH) as nat,
        ),
    ensures
        ({
            let one = pow2(ONE_EXPONENT as nat);
            let g = power::grid(k, DEPTH as nat);
            &&& pow(g as int, one) <= pow(1000, t) * pow(SCALE as int, one)
            &&& pow(1000, t) * pow(SCALE * 0x1000_0000_0000, one) <= pow(
                (g * 0x1000_0000_0001) as int,
                one,
            )
        }),
{
    let one = pow2(ONE_EXPONENT as nat);
    let width = pow2((ONE_EXPONENT - DEPTH) as nat);
    let g = power::grid(k, DEPTH as nat);
    let s = SCALE as nat;
    let b = STEPS as nat;
    lemma_pow2_pos(ONE_EXPONENT as nat);
    lemma_pow2_pos((ONE_EXPONENT - DEPTH) as nat);
    lemma2_to64_rest();
    lemma_pow2_adds(DEPTH as nat, (ONE_EXPONENT - DEPTH) as nat);
    lemma_pow_base(0, 1000, k);
    lemma_pow_base(0, 1000, t);
    // Not above.
    lemma_grid_below(k, DEPTH as nat);
    let tk = pow(1000, k);
    let gb = pow(g as int, b);
    let sb = pow(s as int, b);
    lemma_pow_base(0, g, b);
    lemma_pow_base(0, s, b);
    lemma_pow_swap(g, b, width);
    lemma_pow_swap(s, b, width);
    lemma_pow_swap(1000, k, width);
    lemma_mul_nonnegative(tk, sb);
    lemma_pow_base(gb as nat, (tk * sb) as nat, width);
    lemma_pow_distributes(tk, sb, width);
    lemma_pow_increases(1000, k * width, t);
    lemma_pow_base(0, s, one);
    lemma_mul_inequality(pow(1000, k * width), pow(1000, t), pow(s as int, one));
    // Not below.
    let w = s + 2 * DEPTH as nat;
    let e = g * w;
    let f = s * s;
    lemma_grid_above(k, DEPTH as nat);
    assert(t * (b * b) <= (k * b + b) * one) by (nonlinear_arith)
        requires
            t <= (k + 1) * width,
            one == b * width,
            b >= 0,
    ;
    lemma_shift_above(e, f, k, b, t, one, b);
    let x = g * 0x1000_0000_0001;
    let d = s * 0x1000_0000_0000;
    let y = f * b;
    let z = e * (b + 8);
    assert(z * d <= x * y) by (nonlinear_arith)
        requires
            z == g * 0x20_0000_0000_0070 * 0x100_0000_0000_0008,
            d == 0x20_0000_0000_0000 * 0x1000_0000_0000,
            x == g * 0x1000_0000_0001,
            y == 0x20_0000_0000_0000 * 0x20_0000_0000_0000 * 0x100_0000_0000_0000,
            g >= 0,
    ;
    lemma_pow_cancel_above(x, y, z, d, pow(1000, t) as nat, one);
}

/// The computed power of one thousand is the rounding of a ratio that is at most the exact power,
/// and less than that by at most one part in two to the power of 44. The powers are those of both
/// sides with the exponent of one in units, multiplied by one thousand.
pub proof fn lemma_thousand_rounds_power(t: Datum)
    requires
        t is Number,
        -pow2(ONE_EXPONENT as nat) <= binary32::signed(t) <= pow2(ONE_EXPONENT as nat),
    ensures
        exists|num: nat, den: nat|
            {
                let one = pow2(ONE_EXPONENT as nat);
                let exact = pow(1000, (one + binary32::signed(t)) as nat);
                &&& den > 0
                &&& #[trigger] binary32::is_rounding(
                    power::thousand_to(t),
                    (num * pow2(ONE_EXPONENT as nat)) as int,
                    den,
                )
                &&& pow((1000 * num) as int, one) <= exact * pow(den as int, one)
                &&& exact * pow((den * 0x1000_0000_0000) as int, one) <= pow(
                    (1000 * num * 0x1000_0000_0001) as int,
                    one,
                )
            },
{
    let one = pow2(ONE_EXPONENT as nat);
    let width = pow2((ONE_EXPONENT - DEPTH) as nat);
    let x = binary32::signed(t);
    let k = power::exponent_steps(t);
    let scale = SCALE as nat;
    lemma_pow2_pos(ONE_EXPONENT as nat);
    lemma_pow2_pos((ONE_EXPONENT - DEPTH) as nat);
    lemma2_to64_rest();
    lemma_pow2_adds(DEPTH as nat, (ONE_EXPONENT - DEPTH) as nat);
    lemma_fundamental_div_mod(x, width as int);
    lemma_mod_bound(x, width as int);
    assert(k * width <= x < (k + 1) * width) by (nonlinear_arith)
        requires
            x == width * k + x % (width as int),
            0 <= x % (width as int) < width,
    ;
    assert(-STEPS <= k <= STEPS && (k >= 0 <==> x >= 0)) by (nonlinear_arith)
        requires
            k * width <= x < (k + 1) * width,
            -(STEPS * width) <= x <= STEPS * width,
            width > 0,
    ;
    let p = power::thousand_to(t);
    if k >= 0 {
        let g = power::grid(k as nat, DEPTH as nat);
        lemma_grid_near_power(k as nat, x as nat);
        lemma_thousandfold(g, one, x as nat, scale);
        lemma_thousandfold(g * 0x1000_0000_0001, one, x as nat, scale * 0x1000_0000_0000);
        nearness::lemma_ratio_rounds(g * one, scale);
        assert(1000 * g * 0x1000_0000_0001 == 1000 * (g * 0x1000_0000_0001));
        assert(binary32::is_rounding(p, (g * one) as int, scale));
    } else {
        let l = (k + STEPS) as nat;
        let g = power::grid(l, DEPTH as nat);
        let den = 1000 * scale;
        let up = (x + one) as nat;
        assert(l * width <= x + one <= (l + 1) * width) by (nonlinear_arith)
            requires
                k * width <= x < (k + 1) * width,
                one == STEPS * width,
                l == k + STEPS,
        ;
        lemma_grid_near_power(l, up);
        lemma_both_thousandfold(g, one, up, scale);
        lemma_both_thousandfold(g * 0x1000_0000_0001, one, up, scale * 0x1000_0000_0000);
        nearness::lemma_ratio_rounds(g * one, den);
        assert(1000 * g * 0x1000_0000_0001 == 1000 * (g * 0x1000_0000_0001));
        assert(den * 0x1000_0000_0000 == 1000 * (scale * 0x1000_0000_0000));
        assert(binary32::is_rounding(p, (g * one) as int, den));
    }
}

/// Both bases in a comparison with a power of one thousand, multiplied by one thousand.
proof fn lemma_both_thousandfold(c: nat, b: nat, t: nat, d: nat)
    ensures
        pow(c as int, b) <= pow(1000, t) * pow(d as int, b) ==> pow((1000 * c) as int, b) <= pow(
            1000,
            t,
        ) * pow((1000 * d) as int, b),
        pow(1000, t) * pow(d as int, b) <= pow(c as int, b) ==> pow(1000, t) * pow(
            (1000 * d) as int,
            b,
        ) <= pow((1000 * c) as int, b),
{
    let tb = pow(1000, b);
    let tt = pow(1000, t);
    let cb = pow(c as int, b);
    let db = pow(d as int, b);
    lemma_pow_positive(1000, b);
    lemma_pow_distributes(1000, c as int, b);
    lemma_pow_distributes(1000, d as int, b);
    assert(tt * (tb * db) == tb * (tt * db)) by (nonlinear_arith);
    if cb <= tt * db {
        lemma_mul_inequality(cb, tt * db, tb);
        lemma_mul_is_commutative(cb, tb);
        lemma_mul_is_commutative(tt * db, tb);
    }
    if tt * db <= cb {
        lemma_mul_inequality(tt * db, cb, tb);
        lemma_mul_is_commutative(cb, tb);
        lemma_mul_is_commutative(tt * db, tb);
    }
}

} // verus!
