//! How near the results of binary32 operations are to exact ones.

use crate::binary32;
use crate::binary32::{Datum, ONE_EXPONENT};
use crate::rounding;
use crate::rounding::INFINITE;
use vstd::arithmetic::mul::*;
use vstd::arithmetic::power2::*;
use vstd::prelude::*;

verus! {

/// How many units make one.
pub open spec fn one() -> nat {
    pow2(ONE_EXPONENT as nat)
}

/// The size of a signed number.
pub open spec fn size(x: int) -> int {
    if x < 0 {
        -x
    } else {
        x
    }
}

/// The magnitude nearest to a ratio, with the sign of the ratio, is its rounding.
proof fn lemma_signed_rounding(negative: bool, num: nat, den: nat)
    requires
        den > 0,
    ensures
        binary32::is_rounding(
            binary32::number(negative, rounding::nearest(num, den)),
            if negative {
                -num
            } else {
                num as int
            },
            den,
        ),
{
    let mag = rounding::nearest(num, den);
    let x = binary32::number(negative, mag);
    let value = if negative {
        -num
    } else {
        num as int
    };
    let edge = 0x1ff_ffff * pow2(252) * den;
    rounding::lemma_nearest(num, den);
    rounding::lemma_overflow(num, den);
    lemma_pow2_pos(252);
    lemma_mul_strictly_positive(0x1ff_ffff * pow2(252) as int, den as int);
    if num < edge {
        let u = rounding::units(mag);
        assert((-u) * den == -(u * den)) by (nonlinear_arith);
        assert forall|y: Datum| #[trigger] binary32::is_finite(y) implies {
            let gap = rounding::distance(binary32::signed(x) * den, value);
            let other_gap = rounding::distance(binary32::signed(y) * den, value);
            gap < other_gap || gap == other_gap && (binary32::signed(x) == binary32::signed(y)
                || x->magnitude % 2 == 0)
        } by {
            let v = rounding::units(y->magnitude);
            assert((-v) * den == -(v * den)) by (nonlinear_arith);
            if y->negative == negative {
                rounding::lemma_none_is_nearer(num, den, y->magnitude);
            } else {
                rounding::lemma_none_is_nearer(num, den, 0);
                assert(rounding::units(0) == 0);
                assert(0 * den == 0) by (nonlinear_arith);
                if v > 0 {
                    lemma_mul_strictly_positive(v as int, den as int);
                } else {
                    assert(v * den == 0) by (nonlinear_arith)
                        requires
                            v == 0,
                    ;
                }
            }
        }
    }
}

/// A ratio that is not negative is rounded to the nearest magnitude.
pub proof fn lemma_ratio_rounds(num: nat, den: nat)
    requires
        den > 0,
    ensures
        binary32::is_rounding(
            binary32::number(false, rounding::nearest(num, den)),
            num as int,
            den,
        ),
{
    lemma_signed_rounding(false, num, den);
}

/// A whole number is rounded to the nearest datum.
pub proof fn lemma_whole_rounds(n: nat)
    ensures
        binary32::is_rounding(binary32::whole(n), (n * pow2(ONE_EXPONENT as nat)) as int, 1),
{
    lemma_signed_rounding(false, n * one(), 1);
}

/// The sum of two finite numbers is the rounding of the exact one.
pub proof fn lemma_sum_rounds(x: Datum, y: Datum)
    ensures
        binary32::is_finite(x) && binary32::is_finite(y) ==> binary32::is_rounding(
            binary32::sum(x, y),
            binary32::signed(x) + binary32::signed(y),
            1,
        ),
{
    if binary32::is_finite(x) && binary32::is_finite(y) {
        let total = binary32::signed(x) + binary32::signed(y);
        if total == 0 {
            rounding::lemma_rounds_small(0, 1);
            lemma_signed_rounding(x->negative && y->negative, 0, 1);
        } else {
            lemma_signed_rounding(total < 0, size(total) as nat, 1);
        }
    }
}

/// The product of two finite numbers is the rounding of the exact one.
pub proof fn lemma_product_rounds(x: Datum, y: Datum)
    ensures
        binary32::is_finite(x) && binary32::is_finite(y) ==> binary32::is_rounding(
            binary32::product(x, y),
            binary32::signed(x) * binary32::signed(y),
            pow2(ONE_EXPONENT as nat),
        ),
{
    if binary32::is_finite(x) && binary32::is_finite(y) {
        let a = rounding::units(x->magnitude);
        let b = rounding::units(y->magnitude);
        lemma_pow2_pos(ONE_EXPONENT as nat);
        lemma_signed_rounding(x->negative != y->negative, a * b, one());
        assert((-a) * b == -(a * b) && a * (-b) == -(a * b) && (-a) * (-b) == a * b)
            by (nonlinear_arith);
    }
}

/// The quotient of two finite numbers is the rounding of the exact one.
pub proof fn lemma_quotient_rounds(x: Datum, y: Datum)
    ensures
        binary32::is_finite(x) && binary32::is_finite(y) && binary32::signed(y) > 0
            ==> binary32::is_rounding(
            binary32::quotient(x, y),
            binary32::signed(x) * pow2(ONE_EXPONENT as nat),
            binary32::signed(y) as nat,
        ),
        binary32::is_finite(x) && binary32::is_finite(y) && binary32::signed(y) < 0
            ==> binary32::is_rounding(
            binary32::quotient(x, y),
            -binary32::signed(x) * pow2(ONE_EXPONENT as nat),
            -binary32::signed(y) as nat,
        ),
{
    if binary32::is_finite(x) && binary32::is_finite(y) && binary32::signed(y) != 0 {
        let a = rounding::units(x->magnitude);
        let b = rounding::units(y->magnitude);
        assert(rounding::units(0) == 0);
        lemma_signed_rounding(x->negative != y->negative, a * one(), b);
        assert((-a) * one() == -(a * one())) by (nonlinear_arith);
    }
}

/// A ratio has only one rounding, up to the sign of zero.
pub proof fn lemma_one_rounding(x: Datum, y: Datum, num: int, den: nat)
    requires
        den > 0,
        binary32::is_rounding(x, num, den),
        binary32::is_rounding(y, num, den),
    ensures
        x is Number,
        y is Number,
        x->magnitude == y->magnitude,
        binary32::signed(x) == binary32::signed(y),
{
    let edge = 0x1ff_ffff * pow2(252) * den;
    lemma_pow2_pos(252);
    lemma_mul_strictly_positive(0x1ff_ffff * pow2(252) as int, den as int);
    assert(rounding::units(0) == 0);
    if -edge < num < edge {
        assert(binary32::is_finite(x) && binary32::is_finite(y));
        let a = rounding::units(x->magnitude);
        let b = rounding::units(y->magnitude);
        assert((-a) * den == -(a * den) && (-b) * den == -(b * den)) by (nonlinear_arith);
        if num == 0 {
            let nought = binary32::number(false, 0);
            assert(binary32::is_finite(nought));
            assert(0 * den == 0) by (nonlinear_arith);
            if x->magnitude > 0 {
                rounding::lemma_units_increase(0, x->magnitude);
                lemma_mul_strictly_positive(a as int, den as int);
            }
            if y->magnitude > 0 {
                rounding::lemma_units_increase(0, y->magnitude);
                lemma_mul_strictly_positive(b as int, den as int);
            }
        } else if x->magnitude < y->magnitude {
            lemma_no_second_rounding(x, y, num, den);
        } else if y->magnitude < x->magnitude {
            lemma_no_second_rounding(y, x, num, den);
        }
    }
}

proof fn lemma_no_second_rounding(x: Datum, y: Datum, num: int, den: nat)
    requires
        den > 0,
        num != 0,
        binary32::is_finite(x),
        binary32::is_finite(y),
        binary32::is_rounding(x, num, den),
        binary32::is_rounding(y, num, den),
        x->negative == (num < 0),
        y->negative == (num < 0),
    ensures
        x->magnitude >= y->magnitude,
{
    if x->magnitude < y->magnitude {
        let a = rounding::units(x->magnitude);
        let b = rounding::units(y->magnitude);
        let c = rounding::units(x->magnitude + 1);
        let z = binary32::number(num < 0, x->magnitude + 1);
        assert((-a) * den == -(a * den) && (-b) * den == -(b * den) && (-c) * den == -(c * den))
            by (nonlinear_arith);
        rounding::lemma_units_increase(x->magnitude, y->magnitude);
        lemma_mul_strict_inequality(a as int, b as int, den as int);
        assert(x->magnitude % 2 == 0 && y->magnitude % 2 == 0);
        rounding::lemma_units_increase(x->magnitude, x->magnitude + 1);
        rounding::lemma_units_increase(x->magnitude + 1, y->magnitude);
        lemma_mul_strict_inequality(a as int, c as int, den as int);
        lemma_mul_strict_inequality(c as int, b as int, den as int);
        assert(binary32::is_finite(z));
    }
}

/// No finite number is nearer to the exact sum of two finite numbers than their sum, where that is
/// finite. Where another is as near, the pattern is even.
pub proof fn lemma_no_nearer_sum(x: Datum, y: Datum, z: Datum)
    requires
        binary32::is_finite(x),
        binary32::is_finite(y),
        binary32::is_finite(z),
        binary32::is_finite(binary32::sum(x, y)),
    ensures
        ({
            let exact = binary32::signed(x) + binary32::signed(y);
            let gap = rounding::distance(binary32::signed(binary32::sum(x, y)), exact);
            let other_gap = rounding::distance(binary32::signed(z), exact);
            &&& gap <= other_gap
            &&& gap == other_gap && binary32::signed(z) != binary32::signed(binary32::sum(x, y))
                ==> binary32::sum(x, y)->magnitude % 2 == 0
        }),
{
    lemma_sum_rounds(x, y);
    assert(binary32::signed(z) * 1 == binary32::signed(z));
    assert(binary32::signed(binary32::sum(x, y)) * 1 == binary32::signed(binary32::sum(x, y)));
}

/// No finite number is nearer to the exact product of two finite numbers than their product, where
/// that is finite. Where another is as near, the pattern is even.
pub proof fn lemma_no_nearer_product(x: Datum, y: Datum, z: Datum)
    requires
        binary32::is_finite(x),
        binary32::is_finite(y),
        binary32::is_finite(z),
        binary32::is_finite(binary32::product(x, y)),
    ensures
        ({
            let exact = binary32::signed(x) * binary32::signed(y);
            let gap = rounding::distance(
                binary32::signed(binary32::product(x, y)) * one(),
                exact,
            );
            let other_gap = rounding::distance(binary32::signed(z) * one(), exact);
            &&& gap <= other_gap
            &&& gap == other_gap && binary32::signed(z) != binary32::signed(
                binary32::product(x, y),
            ) ==> binary32::product(x, y)->magnitude % 2 == 0
        }),
{
    lemma_product_rounds(x, y);
}

/// No finite number is nearer to the exact quotient of a finite number by one above zero than
/// their quotient, where that is finite. Where another is as near, the pattern is even.
pub proof fn lemma_no_nearer_quotient(x: Datum, y: Datum, z: Datum)
    requires
        binary32::is_finite(x),
        binary32::is_finite(y),
        binary32::signed(y) > 0,
        binary32::is_finite(z),
        binary32::is_finite(binary32::quotient(x, y)),
    ensures
        ({
            let exact = binary32::signed(x) * one();
            let gap = rounding::distance(
                binary32::signed(binary32::quotient(x, y)) * binary32::signed(y),
                exact,
            );
            let other_gap = rounding::distance(
                binary32::signed(z) * binary32::signed(y),
                exact,
            );
            &&& gap <= other_gap
            &&& gap == other_gap && binary32::signed(z) != binary32::signed(
                binary32::quotient(x, y),
            ) ==> binary32::quotient(x, y)->magnitude % 2 == 0
        }),
{
    lemma_quotient_rounds(x, y);
}

/// No finite number is nearer to a whole number of at most 64 binary digits than its datum. Where
/// another is as near, the pattern is even.
pub proof fn lemma_no_nearer_whole(n: nat, z: Datum)
    requires
        n <= 0x1_0000_0000_0000_0000,
        binary32::is_finite(z),
    ensures
        binary32::is_plain(binary32::whole(n)),
        ({
            let exact = (n * one()) as int;
            let gap = rounding::distance(binary32::signed(binary32::whole(n)), exact);
            let other_gap = rounding::distance(binary32::signed(z), exact);
            &&& gap <= other_gap
            &&& gap == other_gap && binary32::signed(z) != binary32::signed(binary32::whole(n))
                ==> binary32::whole(n)->magnitude % 2 == 0
        }),
{
    lemma_whole_rounds(n);
    binary32::lemma_whole_finite(n);
    assert(binary32::signed(z) * 1 == binary32::signed(z));
    assert(binary32::signed(binary32::whole(n)) * 1 == binary32::signed(binary32::whole(n)));
}

/// Whether `count` is the whole number nearest to a datum, the greater one at a tie, brought into
/// the range of 32-bit counts: numbers below zero, and what is no number, count as zero.
pub open spec fn is_rounded_count(x: Datum, count: nat) -> bool {
    if x is NotANumber || x->negative {
        count == 0
    } else if 2 * binary32::signed(x) < (2 * u32::MAX + 1) * pow2(ONE_EXPONENT as nat) {
        (2 * count - 1) * pow2(ONE_EXPONENT as nat) <= 2 * binary32::signed(x) < (2 * count + 1)
            * pow2(ONE_EXPONENT as nat)
    } else {
        count == u32::MAX
    }
}

/// A datum is counted as the nearest whole number.
pub proof fn lemma_count_is_nearest(x: Datum)
    ensures
        is_rounded_count(x, binary32::rounded_count(x)),
        x is NotANumber || x->negative ==> binary32::rounded_count(x) == 0,
        x is Number && !x->negative ==> {
            let count = binary32::rounded_count(x);
            &&& count <= u32::MAX
            &&& (2 * count - 1) * one() <= 2 * binary32::signed(x)
            &&& count < u32::MAX ==> 2 * binary32::signed(x) < (2 * count + 1) * one()
        },
{
    if x is Number && !x->negative {
        let u = rounding::units(x->magnitude);
        let count = (2 * u + one()) / (2 * one());
        let unit = one();
        lemma_pow2_pos(ONE_EXPONENT as nat);
        assert((2 * count - 1) * unit <= 2 * u < (2 * count + 1) * unit) by (nonlinear_arith)
            requires
                unit > 0,
                count == (2 * u + unit) / (2 * unit),
        ;
        let most = u32::MAX as int;
        if count > most {
            assert((2 * most - 1) * unit <= (2 * most + 1) * unit <= (2 * count - 1) * unit)
                by (nonlinear_arith)
                requires
                    unit > 0,
                    count > most,
            ;
        } else if count < most {
            assert((2 * count + 1) * unit <= (2 * most + 1) * unit) by (nonlinear_arith)
                requires
                    unit > 0,
                    count < most,
            ;
        }
    }
}

/// Results become infinite exactly when the exact ones are at least halfway from the greatest
/// finite number to the next power of two, and keep the sign.
pub proof fn lemma_infinite_results(x: Datum, y: Datum)
    requires
        binary32::is_finite(x),
        binary32::is_finite(y),
    ensures
        ({
            let a = binary32::signed(x);
            let b = binary32::signed(y);
            let edge = 0x1ff_ffff * pow2(252);
            &&& !binary32::is_finite(binary32::sum(x, y)) <==> size(a + b) >= edge
            &&& size(a + b) >= edge ==> binary32::sum(x, y) == binary32::number(
                a + b < 0,
                INFINITE as nat,
            )
            &&& !binary32::is_finite(binary32::product(x, y)) <==> size(a * b) >= edge * one()
            &&& size(a * b) >= edge * one() ==> binary32::product(x, y) == binary32::number(
                a * b < 0,
                INFINITE as nat,
            )
            &&& b > 0 ==> (!binary32::is_finite(binary32::quotient(x, y)) <==> size(a * one())
                >= edge * b)
            &&& b > 0 && size(a * one()) >= edge * b ==> binary32::quotient(x, y)
                == binary32::number(a < 0, INFINITE as nat)
        }),
{
    let a = binary32::signed(x);
    let b = binary32::signed(y);
    let edge = 0x1ff_ffff * pow2(252);
    lemma_pow2_pos(252);
    lemma_pow2_pos(ONE_EXPONENT as nat);
    lemma_sum_rounds(x, y);
    lemma_product_rounds(x, y);
    lemma_quotient_rounds(x, y);
    assert(edge * 1 == edge);
    assert(edge * one() > 0) by (nonlinear_arith)
        requires
            edge > 0,
            one() > 0,
    ;
    if b > 0 {
        lemma_mul_strictly_positive(edge as int, b);
        assert(a * one() < 0 <==> a < 0) by (nonlinear_arith)
            requires
                one() > 0,
        ;
    }
}

/// What is no number stays so in a sum, infinity outweighs finite numbers, and opposite infinities
/// have no sum. A sum of exactly zero is negative only when both numbers are.
pub proof fn lemma_unusual_sums(x: Datum, y: Datum)
    ensures
        binary32::sum(x, y) == binary32::sum(y, x),
        x is NotANumber ==> binary32::sum(x, y) is NotANumber,
        binary32::is_infinite(x) && binary32::is_finite(y) ==> binary32::sum(x, y) == x,
        binary32::is_infinite(x) && y == x ==> binary32::sum(x, y) == x,
        binary32::is_infinite(x) && y == binary32::opposite(x) ==> binary32::sum(
            x,
            y,
        ) is NotANumber,
        binary32::is_finite(x) && binary32::is_finite(y) && binary32::signed(x)
            + binary32::signed(y) == 0 ==> binary32::sum(x, y) == binary32::number(
            x->negative && y->negative,
            0,
        ),
{
}

/// What is no number stays so in a product, infinity times zero is no number, and otherwise the
/// product is negative when one of the factors is, and infinite when one of them is.
pub proof fn lemma_unusual_products(x: Datum, y: Datum)
    ensures
        binary32::product(x, y) == binary32::product(y, x),
        x is NotANumber ==> binary32::product(x, y) is NotANumber,
        binary32::is_infinite(x) && binary32::is_zero(y) ==> binary32::product(x, y) is NotANumber,
        binary32::is_infinite(x) && y is Number && !binary32::is_zero(y) ==> binary32::is_infinite(
            binary32::product(x, y),
        ),
        binary32::product(x, y) is Number ==> binary32::product(x, y)->negative == (x->negative
            != y->negative),
{
    if x is Number && y is Number {
        lemma_mul_is_commutative(
            rounding::units(x->magnitude) as int,
            rounding::units(y->magnitude) as int,
        );
    }
}

/// What is no number stays so in a quotient, zero by zero and infinity by infinity are no numbers,
/// division by zero gives infinity, and by infinity zero. The quotient is negative when one of the
/// two is.
pub proof fn lemma_unusual_quotients(x: Datum, y: Datum)
    ensures
        x is NotANumber || y is NotANumber ==> binary32::quotient(x, y) is NotANumber,
        binary32::is_zero(x) && binary32::is_zero(y) ==> binary32::quotient(x, y) is NotANumber,
        binary32::is_infinite(x) && binary32::is_infinite(y) ==> binary32::quotient(
            x,
            y,
        ) is NotANumber,
        x is Number && !binary32::is_zero(x) && binary32::is_zero(y) ==> binary32::is_infinite(
            binary32::quotient(x, y),
        ),
        binary32::is_infinite(x) && binary32::is_finite(y) ==> binary32::is_infinite(
            binary32::quotient(x, y),
        ),
        binary32::is_finite(x) && binary32::is_infinite(y) ==> binary32::is_zero(
            binary32::quotient(x, y),
        ),
        binary32::quotient(x, y) is Number ==> binary32::quotient(x, y)->negative == (x->negative
            != y->negative),
{
}

/// The opposite of a number has the same size and the other sign, and the opposite of the opposite
/// is the number itself.
pub proof fn lemma_opposites(x: Datum)
    ensures
        binary32::opposite(binary32::opposite(x)) == x,
        binary32::signed(binary32::opposite(x)) == -binary32::signed(x),
        x is Number <==> binary32::opposite(x) is Number,
        x is Number ==> binary32::opposite(x)->negative != x->negative,
        binary32::is_finite(x) <==> binary32::is_finite(binary32::opposite(x)),
{
}

/// The sum of two finite numbers is off by at most one part in two to the power of 24, unless it
/// becomes infinite.
pub proof fn lemma_sum_error(x: Datum, y: Datum)
    requires
        binary32::is_finite(x),
        binary32::is_finite(y),
        binary32::is_finite(binary32::sum(x, y)),
    ensures
        0x100_0000 * rounding::distance(
            binary32::signed(binary32::sum(x, y)),
            binary32::signed(x) + binary32::signed(y),
        ) <= size(binary32::signed(x) + binary32::signed(y)),
{
    let total = binary32::signed(x) + binary32::signed(y);
    let num = size(total) as nat;
    assert(rounding::units(0) == 0);
    if total != 0 {
        rounding::lemma_rounding_error(num, 1);
        let mag = rounding::nearest(num, 1);
        assert(rounding::units(mag) * 1 == rounding::units(mag));
        if num < 0x80_0000 {
            rounding::lemma_small_counts_exact(num);
        }
    }
}

/// The product of two finite numbers is off by at most one part in two to the power of 24 or half
/// a unit, unless it becomes infinite.
pub proof fn lemma_product_error(x: Datum, y: Datum)
    requires
        binary32::is_finite(x),
        binary32::is_finite(y),
        binary32::is_finite(binary32::product(x, y)),
    ensures
        0x100_0000 * rounding::distance(
            binary32::signed(binary32::product(x, y)) * one(),
            binary32::signed(x) * binary32::signed(y),
        ) <= size(binary32::signed(x) * binary32::signed(y)) + 0x80_0000 * one(),
        0x80_0000 * one() <= size(binary32::signed(x) * binary32::signed(y)) ==> 0x100_0000
            * rounding::distance(
            binary32::signed(binary32::product(x, y)) * one(),
            binary32::signed(x) * binary32::signed(y),
        ) <= size(binary32::signed(x) * binary32::signed(y)),
{
    let a = rounding::units(x->magnitude);
    let b = rounding::units(y->magnitude);
    let u = rounding::units(binary32::product(x, y)->magnitude);
    lemma_pow2_pos(ONE_EXPONENT as nat);
    rounding::lemma_rounding_error(a * b, one());
    assert((-a) * b == -(a * b) && a * (-b) == -(a * b) && (-a) * (-b) == a * b && a * b >= 0)
        by (nonlinear_arith);
    assert((-u) * one() == -(u * one())) by (nonlinear_arith);
}

/// The quotient of a finite number by one above zero is off by at most one part in two to the
/// power of 24 or half a unit, unless it becomes infinite.
pub proof fn lemma_quotient_error(x: Datum, y: Datum)
    requires
        binary32::is_finite(x),
        binary32::is_finite(y),
        binary32::signed(y) > 0,
        binary32::is_finite(binary32::quotient(x, y)),
    ensures
        0x100_0000 * rounding::distance(
            binary32::signed(binary32::quotient(x, y)) * binary32::signed(y),
            binary32::signed(x) * one(),
        ) <= size(binary32::signed(x) * one()) + 0x80_0000 * binary32::signed(y),
        0x80_0000 * binary32::signed(y) <= size(binary32::signed(x) * one()) ==> 0x100_0000
            * rounding::distance(
            binary32::signed(binary32::quotient(x, y)) * binary32::signed(y),
            binary32::signed(x) * one(),
        ) <= size(binary32::signed(x) * one()),
{
    let a = rounding::units(x->magnitude);
    let b = rounding::units(y->magnitude);
    let u = rounding::units(binary32::quotient(x, y)->magnitude);
    assert(rounding::units(0) == 0);
    rounding::lemma_rounding_error(a * one(), b);
    assert((-a) * one() == -(a * one()) && a * one() >= 0) by (nonlinear_arith)
        requires
            one() >= 0,
    ;
    assert((-u) * b == -(u * b)) by (nonlinear_arith);
}

/// A whole number is off by at most one part in two to the power of 24.
pub proof fn lemma_whole_error(n: nat)
    requires
        n <= 0x1_0000_0000_0000_0000,
    ensures
        0x100_0000 * rounding::distance(binary32::signed(binary32::whole(n)), (n * one()) as int)
            <= n * one(),
{
    let num = n * one();
    binary32::lemma_whole_finite(n);
    rounding::lemma_rounding_error(num, 1);
    let mag = rounding::nearest(num, 1);
    assert(rounding::units(mag) * 1 == rounding::units(mag));
    if num < 0x80_0000 {
        rounding::lemma_small_counts_exact(num);
    }
}

} // verus!
