//! Numbers of the binary32 format, held as bit patterns and computed with whole numbers.
//!
//! A pattern stands for a [`Datum`]: a signed magnitude or a value that is no number. Each
//! operation gives the datum that the format prescribes, the exact result rounded to the nearest
//! magnitude.

use crate::nearness;
use crate::rounding;
use crate::rounding::{power_of_two, round_scaled, BINADE, INFINITE, SUBUNIT};
use vstd::arithmetic::mul::*;
use vstd::arithmetic::power2::*;
use vstd::prelude::*;

verus! {

/// What a bit pattern stands for. The magnitude is a pattern of 31 bits, at most that of
/// infinity; `units` gives its size.
pub enum Datum {
    NotANumber,
    Number { negative: bool, magnitude: nat },
}

/// How many units make one, as a power of two.
pub const ONE_EXPONENT: u32 = 149;

/// The pattern of a value that is no number.
const NOT_A_NUMBER: u32 = 0x7fc0_0000;

/// The first pattern with the sign bit set.
const SIGN: u32 = 0x8000_0000;

/// A datum of the given sign and magnitude.
pub open spec fn number(negative: bool, magnitude: nat) -> Datum {
    Datum::Number { negative, magnitude }
}

/// The signed size of a number in units.
pub open spec fn signed(x: Datum) -> int {
    match x {
        Datum::NotANumber => 0,
        Datum::Number { negative, magnitude } => if negative {
            -(rounding::units(magnitude) as int)
        } else {
            rounding::units(magnitude) as int
        },
    }
}

pub open spec fn is_infinite(x: Datum) -> bool {
    x is Number && x->magnitude == INFINITE
}

pub open spec fn is_zero(x: Datum) -> bool {
    x is Number && x->magnitude == 0
}

/// Whether a datum is a number that is not infinite.
pub open spec fn is_finite(x: Datum) -> bool {
    x is Number && x->magnitude < INFINITE
}

/// Whether `x` is what a size of `num / den` units is rounded to. Sizes from halfway between the
/// greatest finite number and the next power of two on become infinite. For all others no finite
/// number is nearer, a pattern that is even wins a tie, and the sign is kept.
pub open spec fn is_rounding(x: Datum, num: int, den: nat) -> bool {
    let edge = 0x1ff_ffff * pow2(252) * den;
    if -edge < num < edge {
        &&& is_finite(x)
        &&& num != 0 ==> x->negative == (num < 0)
        &&& forall|y: Datum| #[trigger]
            is_finite(y) ==> {
                let gap = rounding::distance(signed(x) * den, num);
                let other_gap = rounding::distance(signed(y) * den, num);
                gap < other_gap || gap == other_gap && (signed(x) == signed(y) || x->magnitude % 2
                    == 0)
            }
    } else {
        x == number(num < 0, INFINITE as nat)
    }
}

/// The rounding of a signed count of units, which is not zero.
pub open spec fn rounded_units(count: int) -> Datum {
    number(
        count < 0,
        rounding::nearest(
            if count < 0 {
                -count
            } else {
                count
            } as nat,
            1,
        ),
    )
}

/// The sum of two data. An exact sum of zero is negative only when both are.
pub open spec fn sum(x: Datum, y: Datum) -> Datum {
    match (x, y) {
        (
            Datum::Number { negative: x_negative, magnitude: _ },
            Datum::Number { negative: y_negative, magnitude: _ },
        ) => if is_infinite(x) && is_infinite(y) {
            if x_negative == y_negative {
                x
            } else {
                Datum::NotANumber
            }
        } else if is_infinite(x) {
            x
        } else if is_infinite(y) {
            y
        } else if signed(x) + signed(y) == 0 {
            number(x_negative && y_negative, 0)
        } else {
            rounded_units(signed(x) + signed(y))
        },
        _ => Datum::NotANumber,
    }
}

/// The same magnitude with the other sign.
pub open spec fn opposite(x: Datum) -> Datum {
    match x {
        Datum::NotANumber => Datum::NotANumber,
        Datum::Number { negative, magnitude } => number(!negative, magnitude),
    }
}

/// The difference of two data.
pub open spec fn difference(x: Datum, y: Datum) -> Datum {
    sum(x, opposite(y))
}

/// The product of two data.
pub open spec fn product(x: Datum, y: Datum) -> Datum {
    match (x, y) {
        (
            Datum::Number { negative: x_negative, magnitude: x_magnitude },
            Datum::Number { negative: y_negative, magnitude: y_magnitude },
        ) => {
            let negative = x_negative != y_negative;
            if is_infinite(x) && is_zero(y) || is_zero(x) && is_infinite(y) {
                Datum::NotANumber
            } else if is_infinite(x) || is_infinite(y) {
                number(negative, INFINITE as nat)
            } else {
                number(
                    negative,
                    rounding::nearest(rounding::units(x_magnitude) * rounding::units(y_magnitude), pow2(ONE_EXPONENT as nat)),
                )
            }
        },
        _ => Datum::NotANumber,
    }
}

/// The quotient of two data.
pub open spec fn quotient(x: Datum, y: Datum) -> Datum {
    match (x, y) {
        (
            Datum::Number { negative: x_negative, magnitude: x_magnitude },
            Datum::Number { negative: y_negative, magnitude: y_magnitude },
        ) => {
            let negative = x_negative != y_negative;
            if is_infinite(x) && is_infinite(y) || is_zero(x) && is_zero(y) {
                Datum::NotANumber
            } else if is_infinite(x) || is_zero(y) {
                number(negative, INFINITE as nat)
            } else if is_infinite(y) {
                number(negative, 0)
            } else {
                number(
                    negative,
                    rounding::nearest(rounding::units(x_magnitude) * pow2(ONE_EXPONENT as nat), rounding::units(y_magnitude)),
                )
            }
        },
        _ => Datum::NotANumber,
    }
}

/// The datum nearest to a whole number.
pub open spec fn whole(n: nat) -> Datum {
    number(false, rounding::nearest(n * pow2(ONE_EXPONENT as nat), 1))
}

/// Whether both are numbers and the first is less.
pub open spec fn is_less(x: Datum, y: Datum) -> bool {
    x is Number && y is Number && signed(x) < signed(y)
}

/// Whether both are numbers and the first is not greater.
pub open spec fn is_at_most(x: Datum, y: Datum) -> bool {
    x is Number && y is Number && signed(x) <= signed(y)
}

/// The whole number nearest to a datum, the greater one at a tie, brought into the range of
/// 32-bit counts. What is no number counts as zero.
pub open spec fn rounded_count(x: Datum) -> nat {
    match x {
        Datum::NotANumber => 0,
        Datum::Number { negative, magnitude } => {
            let count = (2 * rounding::units(magnitude) + pow2(ONE_EXPONENT as nat)) / (2 * pow2(
                ONE_EXPONENT as nat,
            ));
            if negative {
                0
            } else if count > u32::MAX {
                u32::MAX as nat
            } else {
                count
            }
        },
    }
}

/// A number of the binary32 format.
#[derive(Clone, Copy, Debug)]
pub struct Binary32 {
    pub bits: u32,
}

impl View for Binary32 {
    type V = Datum;

    open spec fn view(&self) -> Datum {
        let magnitude = (self.bits % 0x8000_0000) as nat;
        if magnitude > INFINITE {
            Datum::NotANumber
        } else {
            number(self.bits >= 0x8000_0000, magnitude)
        }
    }
}

impl Binary32 {
    /// The number with the given pattern.
    pub fn from_bits(bits: u32) -> (x: Binary32)
        ensures
            x.bits == bits,
            bits < 0x7f80_0001 ==> x@ == number(false, bits as nat),
            0x8000_0000 <= bits < 0xff80_0001 ==> x@ == number(true, (bits - 0x8000_0000) as nat),
            0x7f80_0000 < bits < 0x8000_0000 || 0xff80_0000 < bits ==> x@ is NotANumber,
    {
        Binary32 { bits }
    }

    /// The pattern of the number.
    pub fn to_bits(self) -> (bits: u32)
        ensures
            bits == self.bits,
    {
        self.bits
    }

    pub(crate) fn magnitude(self) -> (mag: u32)
        ensures
            mag == self.bits % 0x8000_0000,
    {
        self.bits % SIGN
    }

    pub(crate) fn is_negative(self) -> (negative: bool)
        ensures
            negative == (self.bits >= 0x8000_0000),
    {
        self.bits >= SIGN
    }

    fn not_a_number() -> (x: Binary32)
        ensures
            x@ == Datum::NotANumber,
    {
        Binary32 { bits: NOT_A_NUMBER }
    }

    pub(crate) fn with_sign(negative: bool, mag: u32) -> (x: Binary32)
        requires
            mag <= INFINITE,
        ensures
            x@ == number(negative, mag as nat),
    {
        if negative {
            Binary32 { bits: SIGN + mag }
        } else {
            Binary32 { bits: mag }
        }
    }

    /// The number with the other sign.
    pub fn negate(self) -> (x: Binary32)
        ensures
            x@ == opposite(self@),
            x.bits == if self.bits >= 0x8000_0000 {
                self.bits - 0x8000_0000
            } else {
                self.bits + 0x8000_0000
            },
    {
        if self.bits >= SIGN {
            Binary32 { bits: self.bits - SIGN }
        } else {
            Binary32 { bits: self.bits + SIGN }
        }
    }

    /// The number nearest to a whole number.
    pub fn from_whole(n: u64) -> (x: Binary32)
        ensures
            x@ == whole(n as nat),
            is_rounding(x@, n * pow2(ONE_EXPONENT as nat), 1),
            x@ is Number && !x@->negative,
    {
        proof {
            nearness::lemma_whole_rounds(n as nat);
        }
        if n == 0 {
            proof {
                rounding::lemma_nearest_exact(0, 1);
                assert(0 * pow2(ONE_EXPONENT as nat) == 0) by (nonlinear_arith);
            }
            return Binary32 { bits: 0 };
        }
        let ghost num = n as nat * pow2(ONE_EXPONENT as nat);
        proof {
            lemma2_to64();
            rounding::lemma_pow2_le(64, 126);
            lemma_pow2_adds(ONE_EXPONENT as nat, SUBUNIT as nat);
            lemma_mul_is_associative(
                n as int,
                pow2(ONE_EXPONENT as nat) as int,
                pow2(SUBUNIT as nat) as int,
            );
        }
        let mag: u32 = round_scaled(
            n as u128,
            ONE_EXPONENT + SUBUNIT,
            false,
            Ghost(num),
            Ghost(1),
        );
        Binary32::with_sign(false, mag)
    }
}

/// The size of a finite magnitude as a number below two to the power of 24 and an exponent.
pub(crate) fn parts(mag: u32) -> (split: (u32, u32))
    requires
        mag < INFINITE,
    ensures
        rounding::units(mag as nat) == split.0 as nat * pow2(split.1 as nat),
        split.0 < 0x100_0000,
        split.1 <= 253,
        split.1 > 0 ==> split.0 >= 0x80_0000,
        split.0 == 0 <==> mag == 0,
{
    if mag < BINADE {
        proof {
            rounding::lemma_units_at(0, mag as nat);
        }
        (mag, 0)
    } else {
        let x: u32 = mag / BINADE - 1;
        proof {
            rounding::lemma_units_at(x as nat, (mag - x * BINADE) as nat);
        }
        (mag - x * BINADE, x)
    }
}

/// A product of sizes, counted in sub-units.
proof fn lemma_product_scaled(a: nat, b: nat, x: nat, y: nat)
    ensures
        rounding::scaled(
            a * b,
            (x + y + SUBUNIT - ONE_EXPONENT) as nat,
            false,
            (a * pow2(x)) * (b * pow2(y)),
            pow2(ONE_EXPONENT as nat),
        ),
{
    let e = (x + y + SUBUNIT - ONE_EXPONENT) as nat;
    let one = pow2(ONE_EXPONENT as nat);
    let fine = pow2(SUBUNIT as nat);
    lemma_pow2_adds(e, ONE_EXPONENT as nat);
    lemma_pow2_adds(x + y, SUBUNIT as nat);
    lemma_pow2_adds(x, y);
    assert((a * b) * (pow2(e) * one) == (a * pow2(x)) * (b * pow2(y)) * fine) by (nonlinear_arith)
        requires
            pow2(e) * one == pow2(x) * pow2(y) * fine,
    ;
}

/// A quotient of sizes, counted in sub-units.
pub proof fn lemma_quotient_scaled(a: nat, b: nat, x: nat, y: nat, q: nat, r: nat)
    requires
        a * pow2(64) == q * b + r,
        r < b,
        y <= x + ONE_EXPONENT + SUBUNIT - 64,
    ensures
        rounding::scaled(
            q,
            (x + ONE_EXPONENT + SUBUNIT - 64 - y) as nat,
            r > 0,
            (a * pow2(x)) * pow2(ONE_EXPONENT as nat),
            b * pow2(y),
        ),
{
    let e = (x + ONE_EXPONENT + SUBUNIT - 64 - y) as nat;
    let one = pow2(ONE_EXPONENT as nat);
    let fine = pow2(SUBUNIT as nat);
    let common = pow2(e + y);
    lemma_pow2_pos(e + y);
    lemma_pow2_adds(e, y);
    lemma_pow2_adds(64, e + y);
    lemma_pow2_adds(x, ONE_EXPONENT as nat);
    lemma_pow2_adds(x + ONE_EXPONENT as nat, SUBUNIT as nat);
    let step = pow2(e) * (b * pow2(y));
    assert(step == b * common) by (nonlinear_arith)
        requires
            step == pow2(e) * (b * pow2(y)),
            common == pow2(e) * pow2(y),
    ;
    assert((a * pow2(x)) * one * fine == (q * b + r) * common) by (nonlinear_arith)
        requires
            pow2(x) * one * fine == pow2(64) * common,
            a * pow2(64) == q * b + r,
    ;
    assert((q * b + r) * common == q * (b * common) + r * common && (q + 1) * (b * common) == q * (b
        * common) + b * common) by (nonlinear_arith);
    if r > 0 {
        assert(0 < r * common < b * common) by (nonlinear_arith)
            requires
                0 < r < b,
                common > 0,
        ;
    } else {
        assert(r * common == 0) by (nonlinear_arith)
            requires
                r == 0,
        ;
    }
}

impl Binary32 {
    /// The product of two numbers.
    pub fn times(self, other: Binary32) -> (x: Binary32)
        ensures
            x@ == product(self@, other@),
            is_finite(self@) && is_finite(other@) ==> is_rounding(
                x@,
                signed(self@) * signed(other@),
                pow2(ONE_EXPONENT as nat),
            ),
    {
        proof {
            nearness::lemma_product_rounds(self@, other@);
        }
        let a: u32 = self.magnitude();
        let b: u32 = other.magnitude();
        if a > INFINITE || b > INFINITE {
            return Binary32::not_a_number();
        }
        let negative: bool = self.is_negative() != other.is_negative();
        if a == INFINITE || b == INFINITE {
            if a == 0 || b == 0 {
                return Binary32::not_a_number();
            }
            return Binary32::with_sign(negative, INFINITE);
        }
        let (a_sig, a_exp): (u32, u32) = parts(a);
        let (b_sig, b_exp): (u32, u32) = parts(b);
        let ghost num = rounding::units(a as nat) * rounding::units(b as nat);
        let ghost den = pow2(ONE_EXPONENT as nat);
        proof {
            lemma_pow2_pos(ONE_EXPONENT as nat);
        }
        if a == 0 || b == 0 {
            proof {
                assert(num == 0) by (nonlinear_arith)
                    requires
                        num == rounding::units(a as nat) * rounding::units(b as nat),
                        rounding::units(a as nat) == 0 || rounding::units(b as nat) == 0,
                ;
                rounding::lemma_rounds_small(num, den);
            }
            return Binary32::with_sign(negative, 0);
        }
        proof {
            lemma_product_scaled(a_sig as nat, b_sig as nat, a_exp as nat, b_exp as nat);
            lemma2_to64();
            rounding::lemma_pow2_le(64, 126);
            assert(0 < a_sig * b_sig < 0x100_0000 * 0x100_0000) by (nonlinear_arith)
                requires
                    0 < a_sig < 0x100_0000,
                    0 < b_sig < 0x100_0000,
            ;
        }
        let mag: u32 = round_scaled(
            a_sig as u128 * b_sig as u128,
            a_exp + b_exp + SUBUNIT - ONE_EXPONENT,
            false,
            Ghost(num),
            Ghost(den),
        );
        Binary32::with_sign(negative, mag)
    }

    /// The quotient of two numbers.
    pub fn over(self, other: Binary32) -> (x: Binary32)
        ensures
            x@ == quotient(self@, other@),
            is_finite(self@) && is_finite(other@) && signed(other@) > 0 ==> is_rounding(
                x@,
                signed(self@) * pow2(ONE_EXPONENT as nat),
                signed(other@) as nat,
            ),
            is_finite(self@) && is_finite(other@) && signed(other@) < 0 ==> is_rounding(
                x@,
                -signed(self@) * pow2(ONE_EXPONENT as nat),
                -signed(other@) as nat,
            ),
    {
        proof {
            nearness::lemma_quotient_rounds(self@, other@);
        }
        let a: u32 = self.magnitude();
        let b: u32 = other.magnitude();
        if a > INFINITE || b > INFINITE {
            return Binary32::not_a_number();
        }
        let negative: bool = self.is_negative() != other.is_negative();
        if a == INFINITE || b == 0 {
            if b == INFINITE || a == 0 {
                return Binary32::not_a_number();
            }
            return Binary32::with_sign(negative, INFINITE);
        }
        if b == INFINITE {
            return Binary32::with_sign(negative, 0);
        }
        let (a_sig, a_exp): (u32, u32) = parts(a);
        let (b_sig, b_exp): (u32, u32) = parts(b);
        let ghost num = rounding::units(a as nat) * pow2(ONE_EXPONENT as nat);
        let ghost den = rounding::units(b as nat);
        proof {
            rounding::lemma_units_increase(0, b as nat);
        }
        if a == 0 {
            proof {
                assert(num == 0) by (nonlinear_arith)
                    requires
                        num == rounding::units(a as nat) * pow2(ONE_EXPONENT as nat),
                        rounding::units(a as nat) == 0,
                ;
                rounding::lemma_rounds_small(num, den);
            }
            return Binary32::with_sign(negative, 0);
        }
        let wide: u128 = a_sig as u128 * 0x1_0000_0000_0000_0000;
        let q: u128 = wide / b_sig as u128;
        let r: u128 = wide % b_sig as u128;
        proof {
            lemma2_to64();
            rounding::lemma_pow2_le(64 + 24, 126);
            lemma_pow2_adds(64, 24);
            assert(wide == q * b_sig + r && r < b_sig) by (nonlinear_arith)
                requires
                    b_sig > 0,
                    q == wide / b_sig as u128,
                    r == wide % b_sig as u128,
            ;
            assert(0x100_0000 <= q <= wide) by (nonlinear_arith)
                requires
                    0 < b_sig < 0x100_0000,
                    wide >= 0x1_0000_0000_0000_0000,
                    wide == q * b_sig + r,
                    r < b_sig,
            ;
            lemma_quotient_scaled(
                a_sig as nat,
                b_sig as nat,
                a_exp as nat,
                b_exp as nat,
                q as nat,
                r as nat,
            );
        }
        let mag: u32 = round_scaled(
            q,
            a_exp + ONE_EXPONENT + SUBUNIT - 64 - b_exp,
            r > 0,
            Ghost(num),
            Ghost(den),
        );
        Binary32::with_sign(negative, mag)
    }
}

/// A size, counted in sub-units.
proof fn lemma_size_scaled(m: nat, e: nat)
    ensures
        rounding::scaled(m, e + SUBUNIT as nat, false, m * pow2(e), 1),
{
    lemma_pow2_adds(e, SUBUNIT as nat);
    assert(m * (pow2(e + SUBUNIT as nat) * 1) == m * pow2(e) * pow2(SUBUNIT as nat))
        by (nonlinear_arith)
        requires
            pow2(e + SUBUNIT as nat) == pow2(e) * pow2(SUBUNIT as nat),
    ;
}

/// A size and a far smaller one, added or taken away, lie between two neighbouring steps.
proof fn lemma_far_scaled(a: nat, b: nat, x: nat, y: nat)
    requires
        a > 0,
        0 < b < 0x100_0000,
        x > y + 100,
    ensures
        rounding::scaled(
            a * pow2(64),
            (x - 64 + SUBUNIT) as nat,
            true,
            a * pow2(x) + b * pow2(y),
            1,
        ),
        b * pow2(y) < a * pow2(x),
        rounding::scaled(
            (a * pow2(64) - 1) as nat,
            (x - 64 + SUBUNIT) as nat,
            true,
            (a * pow2(x) - b * pow2(y)) as nat,
            1,
        ),
{
    let base = (x - 64) as nat;
    let m = a * pow2(64);
    let fine = pow2(SUBUNIT as nat);
    let small = b * pow2(y);
    let unit = pow2(base);
    let step = pow2(base + SUBUNIT as nat) * 1;
    lemma_pow2_pos(y);
    lemma_pow2_pos(base);
    lemma_pow2_pos(64);
    lemma_pow2_pos(SUBUNIT as nat);
    lemma2_to64();
    lemma_pow2_adds(24, y);
    lemma_pow2_strictly_increases(24 + y, base);
    lemma_pow2_adds(64, base);
    lemma_pow2_adds(base, SUBUNIT as nat);
    assert(0 < small < unit) by (nonlinear_arith)
        requires
            0 < b < 0x100_0000,
            small == b * pow2(y),
            pow2(y) > 0,
            0x100_0000 * pow2(y) < unit,
    ;
    assert(a * pow2(x) == m * unit && m >= 1 && unit <= m * unit) by (nonlinear_arith)
        requires
            m == a * pow2(64),
            pow2(x) == pow2(64) * unit,
            a > 0,
            pow2(64) > 0,
            unit >= 0,
    ;
    let up = a * pow2(x) + small;
    let down = (a * pow2(x) - small) as nat;
    assert(m * step < up * fine < (m + 1) * step) by (nonlinear_arith)
        requires
            up == m * unit + small,
            0 < small < unit,
            step == unit * fine,
            fine > 0,
    ;
    assert((m - 1) * step < down * fine < m * step) by (nonlinear_arith)
        requires
            down == m * unit - small,
            0 < small < unit,
            step == unit * fine,
            fine > 0,
    ;
}

/// A signed size of `sig` steps of `pow2(exp)` units.
spec fn signed_parts(negative: bool, sig: u32, exp: u32) -> int {
    if negative {
        -(sig as nat * pow2(exp as nat) as int)
    } else {
        sig as nat * pow2(exp as nat) as int
    }
}

/// The rounded sum of two sizes, the first with the greater exponent.
fn add_parts(
    hi_negative: bool,
    hi_sig: u32,
    hi_exp: u32,
    lo_negative: bool,
    lo_sig: u32,
    lo_exp: u32,
) -> (x: Binary32)
    requires
        lo_exp <= hi_exp <= 253,
        hi_sig < 0x100_0000,
        lo_sig < 0x100_0000,
        hi_exp > 0 ==> hi_sig >= 0x80_0000,
    ensures
        ({
            let total = signed_parts(hi_negative, hi_sig, hi_exp) + signed_parts(
                lo_negative,
                lo_sig,
                lo_exp,
            );
            x@ == if total == 0 {
                number(hi_negative && lo_negative, 0)
            } else {
                rounded_units(total)
            }
        }),
{
    let ghost hi_size = hi_sig as nat * pow2(hi_exp as nat);
    let ghost lo_size = lo_sig as nat * pow2(lo_exp as nat);
    let gap: u32 = hi_exp - lo_exp;
    proof {
        lemma2_to64();
        lemma_pow2_pos(lo_exp as nat);
        lemma_pow2_pos(hi_exp as nat);
    }
    if gap <= 100 {
        let spread: u128 = power_of_two(gap);
        proof {
            rounding::lemma_pow2_le(gap as nat, 100);
            lemma_pow2_adds(24, 100);
            rounding::lemma_pow2_le(124, 125);
            lemma_pow2_unfold(126);
            lemma_pow2_unfold(125);
            lemma_pow2_adds(gap as nat, lo_exp as nat);
            assert(hi_sig * spread < pow2(124)) by (nonlinear_arith)
                requires
                    hi_sig < 0x100_0000,
                    spread <= pow2(100),
                    0x100_0000 * pow2(100) == pow2(124),
                    spread > 0,
            ;
            assert(pow2(24) <= pow2(124)) by {
                rounding::lemma_pow2_le(24, 124);
            }
            lemma_pow2_adds(64, 64);
            rounding::lemma_pow2_le(126, 128);
        }
        let wide: u128 = hi_sig as u128 * spread;
        let low: u128 = lo_sig as u128;
        proof {
            assert(hi_size == wide * pow2(lo_exp as nat)) by (nonlinear_arith)
                requires
                    hi_size == hi_sig as nat * pow2(hi_exp as nat),
                    wide == hi_sig * spread,
                    pow2(hi_exp as nat) == spread * pow2(lo_exp as nat),
            ;
        }
        let (negative, total): (bool, u128) = if hi_negative == lo_negative {
            (hi_negative, wide + low)
        } else if wide >= low {
            (hi_negative, wide - low)
        } else {
            (lo_negative, low - wide)
        };
        let ghost size = total * pow2(lo_exp as nat);
        proof {
            let unit = pow2(lo_exp as nat) as int;
            assert((wide + low) * unit == hi_size + lo_size) by (nonlinear_arith)
                requires
                    hi_size == wide * unit,
                    lo_size == low * unit,
            ;
            assert((wide - low) * unit == hi_size - lo_size) by (nonlinear_arith)
                requires
                    hi_size == wide * unit,
                    lo_size == low * unit,
            ;
            assert((low - wide) * unit == lo_size - hi_size) by (nonlinear_arith)
                requires
                    hi_size == wide * unit,
                    lo_size == low * unit,
            ;
            assert(total > 0 ==> size > 0) by (nonlinear_arith)
                requires
                    size == total * unit,
                    unit > 0,
            ;
            assert(total == 0 ==> size == 0) by (nonlinear_arith)
                requires
                    size == total * unit,
            ;
            lemma_size_scaled(total as nat, lo_exp as nat);
        }
        if total == 0 {
            return Binary32::with_sign(hi_negative && lo_negative, 0);
        }
        let mag: u32 = round_scaled(
            total,
            lo_exp + SUBUNIT,
            false,
            Ghost(size as nat),
            Ghost(1),
        );
        Binary32::with_sign(negative, mag)
    } else if lo_sig == 0 {
        proof {
            lemma_size_scaled(hi_sig as nat, hi_exp as nat);
            assert(lo_size == 0) by (nonlinear_arith)
                requires
                    lo_size == lo_sig as nat * pow2(lo_exp as nat),
                    lo_sig == 0,
            ;
            assert(hi_size > 0) by (nonlinear_arith)
                requires
                    hi_size == hi_sig as nat * pow2(hi_exp as nat),
                    hi_sig > 0,
                    pow2(hi_exp as nat) > 0,
            ;
            rounding::lemma_pow2_le(24, 126);
        }
        let mag: u32 = round_scaled(
            hi_sig as u128,
            hi_exp + SUBUNIT,
            false,
            Ghost(hi_size),
            Ghost(1),
        );
        Binary32::with_sign(hi_negative, mag)
    } else {
        proof {
            lemma_far_scaled(hi_sig as nat, lo_sig as nat, hi_exp as nat, lo_exp as nat);
            lemma_pow2_adds(24, 64);
            rounding::lemma_pow2_le(88, 126);
            assert(lo_size > 0) by (nonlinear_arith)
                requires
                    lo_size == lo_sig as nat * pow2(lo_exp as nat),
                    lo_sig > 0,
                    pow2(lo_exp as nat) > 0,
            ;
        }
        let wide: u128 = hi_sig as u128 * 0x1_0000_0000_0000_0000;
        if hi_negative == lo_negative {
            let mag: u32 = round_scaled(
                wide,
                hi_exp - 64 + SUBUNIT,
                true,
                Ghost(hi_size + lo_size),
                Ghost(1),
            );
            Binary32::with_sign(hi_negative, mag)
        } else {
            let mag: u32 = round_scaled(
                wide - 1,
                hi_exp - 64 + SUBUNIT,
                true,
                Ghost((hi_size - lo_size) as nat),
                Ghost(1),
            );
            Binary32::with_sign(hi_negative, mag)
        }
    }
}

impl Binary32 {
    /// The sum of two numbers.
    pub fn plus(self, other: Binary32) -> (x: Binary32)
        ensures
            x@ == sum(self@, other@),
            is_finite(self@) && is_finite(other@) ==> is_rounding(
                x@,
                signed(self@) + signed(other@),
                1,
            ),
    {
        proof {
            nearness::lemma_sum_rounds(self@, other@);
        }
        let a: u32 = self.magnitude();
        let b: u32 = other.magnitude();
        if a > INFINITE || b > INFINITE {
            return Binary32::not_a_number();
        }
        let a_negative: bool = self.is_negative();
        let b_negative: bool = other.is_negative();
        if a == INFINITE {
            if b == INFINITE && a_negative != b_negative {
                return Binary32::not_a_number();
            }
            return self;
        }
        if b == INFINITE {
            return other;
        }
        let (a_sig, a_exp): (u32, u32) = parts(a);
        let (b_sig, b_exp): (u32, u32) = parts(b);
        if a_exp >= b_exp {
            add_parts(a_negative, a_sig, a_exp, b_negative, b_sig, b_exp)
        } else {
            add_parts(b_negative, b_sig, b_exp, a_negative, a_sig, a_exp)
        }
    }

    /// The difference of two numbers.
    pub fn minus(self, other: Binary32) -> (x: Binary32)
        ensures
            x@ == sum(self@, opposite(other@)),
            x@ == difference(self@, other@),
            is_finite(self@) && is_finite(other@) ==> is_rounding(
                x@,
                signed(self@) - signed(other@),
                1,
            ),
    {
        self.plus(other.negate())
    }
}

/// Signed patterns are ordered as the numbers are.
proof fn lemma_signed_order(a_negative: bool, a: nat, b_negative: bool, b: nat)
    ensures
        signed(number(a_negative, a)) < signed(number(b_negative, b)) <==> (if a_negative {
            -a
        } else {
            a as int
        }) < (if b_negative {
            -b
        } else {
            b as int
        }),
{
    assert(rounding::units(0) == 0);
    if a > 0 {
        rounding::lemma_units_increase(0, a);
    }
    if b > 0 {
        rounding::lemma_units_increase(0, b);
    }
    if a < b {
        rounding::lemma_units_increase(a, b);
    } else if b < a {
        rounding::lemma_units_increase(b, a);
    }
}

impl Binary32 {
    /// The pattern as a signed number.
    fn order_key(self) -> (key: i64)
        requires
            self@ is Number,
        ensures
            key == if self@->negative {
                -self@->magnitude
            } else {
                self@->magnitude as int
            },
    {
        if self.is_negative() {
            -(self.magnitude() as i64)
        } else {
            self.magnitude() as i64
        }
    }

    /// Whether the number is less than another.
    pub fn less_than(self, other: Binary32) -> (less: bool)
        ensures
            less == is_less(self@, other@),
            less == (self@ is Number && other@ is Number && signed(self@) < signed(other@)),
    {
        if self.magnitude() > INFINITE || other.magnitude() > INFINITE {
            return false;
        }
        proof {
            lemma_signed_order(
                self@->negative,
                self@->magnitude,
                other@->negative,
                other@->magnitude,
            );
        }
        self.order_key() < other.order_key()
    }

    /// Whether the number is at most another.
    pub fn at_most(self, other: Binary32) -> (at_most: bool)
        ensures
            at_most == is_at_most(self@, other@),
            at_most == (self@ is Number && other@ is Number && signed(self@) <= signed(other@)),
    {
        if self.magnitude() > INFINITE || other.magnitude() > INFINITE {
            return false;
        }
        proof {
            lemma_signed_order(
                other@->negative,
                other@->magnitude,
                self@->negative,
                self@->magnitude,
            );
        }
        self.order_key() <= other.order_key()
    }

    /// The nearest whole number, brought into the range of 32-bit counts.
    pub fn to_count(self) -> (count: u32)
        ensures
            count == rounded_count(self@),
            nearness::is_rounded_count(self@, count as nat),
            self@ is NotANumber || self@->negative ==> count == 0,
            self@ is Number && !self@->negative ==> {
                let one = pow2(ONE_EXPONENT as nat);
                &&& (2 * count - 1) * one <= 2 * signed(self@)
                &&& count < u32::MAX ==> 2 * signed(self@) < (2 * count + 1) * one
            },
    {
        proof {
            nearness::lemma_count_is_nearest(self@);
        }
        let mag: u32 = self.magnitude();
        if mag > INFINITE || self.is_negative() {
            return 0;
        }
        let ghost one = pow2(ONE_EXPONENT as nat);
        let ghost size = rounding::units(mag as nat);
        proof {
            lemma_pow2_pos(ONE_EXPONENT as nat);
            lemma2_to64();
        }
        if mag == INFINITE {
            proof {
                rounding::lemma_units_at(254, BINADE as nat);
                lemma_pow2_adds(105, ONE_EXPONENT as nat);
                rounding::lemma_pow2_le(32, 105);
                assert(0x1_0000_0000 * one <= size) by (nonlinear_arith)
                    requires
                        size == 0x80_0000 * (pow2(105) * one),
                        pow2(105) >= 0x1_0000_0000,
                ;
                lemma_large_count(size, one, 0x1_0000_0000);
            }
            return u32::MAX;
        }
        let (sig, exp): (u32, u32) = parts(mag);
        if exp >= ONE_EXPONENT {
            let shift: u32 = exp - ONE_EXPONENT;
            proof {
                lemma_pow2_adds(shift as nat, ONE_EXPONENT as nat);
                assert(size == sig as nat * pow2(shift as nat) * one) by (nonlinear_arith)
                    requires
                        size == sig as nat * pow2(exp as nat),
                        pow2(exp as nat) == pow2(shift as nat) * one,
                ;
            }
            if shift >= 9 {
                proof {
                    rounding::lemma_pow2_le(9, shift as nat);
                    assert(sig as nat * pow2(shift as nat) >= 0x80_0000 * 0x200) by (nonlinear_arith)
                        requires
                            sig >= 0x80_0000,
                            pow2(shift as nat) >= 0x200,
                    ;
                    lemma_mul_inequality(
                        0x1_0000_0000,
                        (sig as nat * pow2(shift as nat)) as int,
                        one as int,
                    );
                    lemma_large_count(size, one, 0x1_0000_0000);
                }
                return u32::MAX;
            }
            let spread: u128 = power_of_two(shift);
            proof {
                rounding::lemma_pow2_le(shift as nat, 8);
                assert(sig * spread < 0x100_0000 * 0x100) by (nonlinear_arith)
                    requires
                        sig < 0x100_0000,
                        spread <= 0x100,
                        spread > 0,
                ;
                assert((sig * spread) * (2 * one) == 2 * size) by (nonlinear_arith)
                    requires
                        size == sig as nat * spread * one,
                ;
                lemma_count(size, one, (sig * spread) as nat);
            }
            (sig as u128 * spread) as u32
        } else {
            let shift: u32 = ONE_EXPONENT - exp;
            proof {
                lemma_pow2_adds(shift as nat, exp as nat);
                lemma_pow2_unfold(shift as nat);
            }
            if shift >= 25 {
                proof {
                    rounding::lemma_pow2_le(24, (shift - 1) as nat);
                    lemma_pow2_pos(exp as nat);
                    assert(2 * size < one) by (nonlinear_arith)
                        requires
                            size == sig as nat * pow2(exp as nat),
                            one == pow2(shift as nat) * pow2(exp as nat),
                            2 * sig < pow2(shift as nat),
                            pow2(exp as nat) > 0,
                    ;
                    assert(0 * (2 * one) == 0) by (nonlinear_arith);
                    lemma_count(size, one, 0);
                }
                return 0;
            }
            let whole: u128 = power_of_two(shift);
            proof {
                rounding::lemma_pow2_le(shift as nat, 24);
                let count = (sig + whole / 2) / whole as int;
                lemma_pow2_pos(exp as nat);
                assert(count * whole <= sig + whole / 2 < count * whole + whole) by (nonlinear_arith)
                    requires
                        count == (sig + whole / 2) / whole as int,
                        whole > 0,
                ;
                let fine = pow2(exp as nat);
                assert(count * (2 * one) <= 2 * size + one < count * (2 * one) + 2 * one)
                    by (nonlinear_arith)
                    requires
                        2 * (count * whole) <= 2 * sig + whole < 2 * (count * whole) + 2 * whole,
                        size == sig as nat * fine,
                        one == whole * fine,
                        fine > 0,
                ;
                assert(0 <= count <= sig + whole / 2) by (nonlinear_arith)
                    requires
                        count == (sig + whole / 2) / whole as int,
                        whole > 0,
                ;
                lemma_count(size, one, count as nat);
            }
            ((sig as u128 + whole / 2) / whole) as u32
        }
    }
}

/// The count whose double interval holds twice a size and one more.
proof fn lemma_count(size: nat, one: nat, count: nat)
    requires
        one > 0,
        count * (2 * one) <= 2 * size + one < count * (2 * one) + 2 * one,
    ensures
        (2 * size + one) / (2 * one) == count,
{
    assert((2 * size + one) / (2 * one) == count) by (nonlinear_arith)
        requires
            one > 0,
            count * (2 * one) <= 2 * size + one < count * (2 * one) + 2 * one,
    ;
}

proof fn lemma_large_count(size: nat, one: nat, bound: nat)
    requires
        one > 0,
        bound * one <= size,
    ensures
        (2 * size + one) / (2 * one) >= bound,
{
    assert((2 * size + one) / (2 * one) >= bound) by (nonlinear_arith)
        requires
            one > 0,
            bound * one <= size,
    ;
}

/// A size with at most 24 binary digits before its exponent is a magnitude of the format.
pub proof fn lemma_exact_size(sig: nat, e: nat) -> (mag: nat)
    requires
        sig < 0x100_0000,
        e <= 253,
    ensures
        rounding::units(mag) == sig * pow2(e),
        mag < INFINITE,
        sig > 0 ==> mag > 0,
    decreases e,
{
    if sig < BINADE && e > 0 {
        lemma_pow2_unfold(e);
        assert(sig * pow2(e) == (2 * sig) * pow2((e - 1) as nat)) by (nonlinear_arith)
            requires
                pow2(e) == 2 * pow2((e - 1) as nat),
        ;
        lemma_exact_size(2 * sig, (e - 1) as nat)
    } else {
        rounding::lemma_units_at(e, sig);
        e * (BINADE as nat) + sig
    }
}

/// Whole numbers of at most 24 binary digits are kept exactly.
pub proof fn lemma_whole_exact(n: nat)
    requires
        n < 0x100_0000,
    ensures
        signed(whole(n)) == n * pow2(ONE_EXPONENT as nat),
        whole(n)->magnitude < INFINITE,
        n > 0 ==> whole(n)->magnitude > 0,
{
    let mag = lemma_exact_size(n, ONE_EXPONENT as nat);
    rounding::lemma_nearest_exact(mag, 1);
    assert(rounding::units(mag) * 1 == n * pow2(ONE_EXPONENT as nat));
}

/// Greater whole numbers are not turned into lesser data.
pub proof fn lemma_whole_order(m: nat, n: nat)
    requires
        m <= n,
    ensures
        whole(m)->magnitude <= whole(n)->magnitude,
        signed(whole(m)) <= signed(whole(n)),
{
    let one = pow2(ONE_EXPONENT as nat);
    lemma_mul_inequality(m as int, n as int, one as int);
    rounding::lemma_nearest_keeps_order(m * one, 1, n * one, 1);
    if whole(m)->magnitude < whole(n)->magnitude {
        rounding::lemma_units_increase(whole(m)->magnitude, whole(n)->magnitude);
    }
}

/// Whole numbers of at most 64 binary digits are finite, and only zero becomes zero.
pub proof fn lemma_whole_finite(n: nat)
    requires
        n <= 0x1_0000_0000_0000_0000,
    ensures
        whole(n)->magnitude < INFINITE,
        n > 0 ==> whole(n)->magnitude > 0,
        n == 0 ==> whole(n)->magnitude == 0,
{
    let one = pow2(ONE_EXPONENT as nat);
    let mag = lemma_exact_size(1, 64 + ONE_EXPONENT as nat);
    rounding::lemma_nearest_exact(mag, 1);
    lemma2_to64();
    lemma_pow2_adds(64, ONE_EXPONENT as nat);
    assert(rounding::units(mag) * 1 == 0x1_0000_0000_0000_0000 * one);
    lemma_whole_order(n, 0x1_0000_0000_0000_0000);
    lemma_whole_exact(1);
    lemma_whole_exact(0);
    assert(0 * one == 0) by (nonlinear_arith);
    if n > 0 {
        lemma_whole_order(1, n);
    } else {
        rounding::lemma_units_increase(0, 1);
        if whole(0)->magnitude > 0 {
            rounding::lemma_units_increase(0, whole(0)->magnitude);
        }
    }
}

/// Whether a datum is a number that is neither negative nor infinite.
pub open spec fn is_plain(x: Datum) -> bool {
    x is Number && !x->negative && x->magnitude < INFINITE
}

/// Patterns that are not negative are ordered as their sizes are.
pub proof fn lemma_plain_order(x: Datum, y: Datum)
    requires
        is_plain(x),
        is_plain(y),
    ensures
        signed(x) <= signed(y) <==> x->magnitude <= y->magnitude,
{
    if x->magnitude < y->magnitude {
        rounding::lemma_units_increase(x->magnitude, y->magnitude);
    } else if y->magnitude < x->magnitude {
        rounding::lemma_units_increase(y->magnitude, x->magnitude);
    }
}

/// A greater dividend does not have a lesser quotient.
pub proof fn lemma_quotient_order(x: Datum, y: Datum, d: Datum)
    requires
        is_plain(x),
        is_plain(y),
        is_plain(d),
        d->magnitude > 0,
        x->magnitude <= y->magnitude,
    ensures
        quotient(x, d) is Number,
        quotient(y, d) is Number,
        !quotient(x, d)->negative,
        !quotient(y, d)->negative,
        quotient(x, d)->magnitude <= quotient(y, d)->magnitude,
{
    let one = pow2(ONE_EXPONENT as nat);
    let a = rounding::units(x->magnitude);
    let b = rounding::units(y->magnitude);
    let c = rounding::units(d->magnitude);
    rounding::lemma_units_increase(0, d->magnitude);
    lemma_plain_order(x, y);
    assert(a * one * c <= b * one * c) by (nonlinear_arith)
        requires
            a <= b,
            one >= 0,
            c >= 0,
    ;
    rounding::lemma_nearest_keeps_order(a * one, c, b * one, c);
}

/// A greater factor does not have a lesser product.
pub proof fn lemma_product_order(c: Datum, x: Datum, y: Datum)
    requires
        is_plain(c),
        is_plain(x),
        is_plain(y),
        x->magnitude <= y->magnitude,
    ensures
        product(c, x) is Number,
        product(c, y) is Number,
        !product(c, x)->negative,
        !product(c, y)->negative,
        product(c, x)->magnitude <= product(c, y)->magnitude,
        product(x, c) == product(c, x),
        product(y, c) == product(c, y),
{
    let one = pow2(ONE_EXPONENT as nat);
    let a = rounding::units(x->magnitude);
    let b = rounding::units(y->magnitude);
    let k = rounding::units(c->magnitude);
    lemma_pow2_pos(ONE_EXPONENT as nat);
    lemma_plain_order(x, y);
    assert(k * a * one <= k * b * one) by (nonlinear_arith)
        requires
            a <= b,
            one >= 0,
            k >= 0,
    ;
    rounding::lemma_nearest_keeps_order(k * a, one, k * b, one);
    lemma_mul_is_commutative(k as int, a as int);
    lemma_mul_is_commutative(k as int, b as int);
}

/// A greater number is not rounded to a lesser count.
pub proof fn lemma_count_order(x: Datum, y: Datum)
    requires
        x is Number,
        y is Number,
        !x->negative,
        !y->negative,
        x->magnitude <= y->magnitude,
    ensures
        rounded_count(x) <= rounded_count(y),
{
    let one = pow2(ONE_EXPONENT as nat);
    let a = rounding::units(x->magnitude);
    let b = rounding::units(y->magnitude);
    lemma_pow2_pos(ONE_EXPONENT as nat);
    if x->magnitude < y->magnitude {
        rounding::lemma_units_increase(x->magnitude, y->magnitude);
    }
    assert((2 * a + one) / (2 * one) <= (2 * b + one) / (2 * one)) by (nonlinear_arith)
        requires
            a <= b,
            one > 0,
    ;
}

/// A number divided by one that is not less gives a fraction of one.
pub proof fn lemma_fraction_of_one(x: Datum, y: Datum)
    requires
        is_plain(x),
        is_plain(y),
        y->magnitude > 0,
        x->magnitude <= y->magnitude,
    ensures
        quotient(x, y) is Number,
        !quotient(x, y)->negative,
        is_at_most(quotient(x, y), whole(1)),
{
    let one = pow2(ONE_EXPONENT as nat);
    let a = rounding::units(x->magnitude);
    let b = rounding::units(y->magnitude);
    let t = quotient(x, y);
    rounding::lemma_units_increase(0, y->magnitude);
    lemma_plain_order(x, y);
    assert(a * one * 1 <= (1 * one) * b) by (nonlinear_arith)
        requires
            a <= b,
    ;
    rounding::lemma_nearest_keeps_order(a * one, b, 1 * one, 1);
    if t->magnitude < whole(1)->magnitude {
        rounding::lemma_units_increase(t->magnitude, whole(1)->magnitude);
    }
}

/// Whether a datum is a number that is not below zero.
pub open spec fn is_not_below_zero(x: Datum) -> bool {
    x is Number && signed(x) >= 0 && x->magnitude <= INFINITE
}

/// Whether a datum is a finite number above zero.
pub open spec fn is_above_zero(x: Datum) -> bool {
    is_plain(x) && x->magnitude > 0
}

/// Rounding gives a magnitude of the format, zero for nothing and more than zero for at least one
/// unit.
proof fn lemma_nearest_range(num: nat, den: nat)
    requires
        den > 0,
    ensures
        rounding::nearest(num, den) <= INFINITE,
        num == 0 ==> rounding::nearest(num, den) == 0,
        den <= num ==> rounding::nearest(num, den) > 0,
{
    rounding::lemma_nearest(num, den);
    if num == 0 {
        rounding::lemma_rounds_small(num, den);
    }
    if den <= num {
        rounding::lemma_units_at(0, 1);
        lemma2_to64();
        rounding::lemma_nearest_exact(1, 1);
        rounding::lemma_nearest_keeps_order(1, 1, num, den);
    }
}

/// A number at least as great as another, less that other, is not below zero.
pub proof fn lemma_difference_not_below_zero(x: Datum, y: Datum)
    requires
        is_at_most(y, x),
        x->magnitude <= INFINITE,
        y->magnitude < INFINITE,
    ensures
        is_not_below_zero(difference(x, y)),
        signed(y) < signed(x) ==> difference(x, y)->magnitude > 0,
{
    let gap = signed(x) - signed(y);
    assert(rounding::units(0) == 0);
    rounding::lemma_units_increase(y->magnitude, INFINITE as nat);
    if x->magnitude < INFINITE && gap > 0 {
        lemma_nearest_range(gap as nat, 1);
    }
}

/// A sum of numbers that are not below zero is not below zero.
pub proof fn lemma_sum_not_below_zero(x: Datum, y: Datum)
    requires
        is_not_below_zero(x),
        is_not_below_zero(y),
    ensures
        is_not_below_zero(sum(x, y)),
{
    let total = signed(x) + signed(y);
    assert(rounding::units(0) == 0);
    rounding::lemma_units_increase(0, INFINITE as nat);
    if x->magnitude < INFINITE && y->magnitude < INFINITE && total > 0 {
        lemma_nearest_range(total as nat, 1);
    }
}

/// A number that is not below zero has no size if it is negative.
proof fn lemma_negative_is_zero(x: Datum)
    requires
        is_not_below_zero(x),
    ensures
        x->negative ==> x->magnitude == 0,
        rounding::units(0) == 0,
{
    assert(rounding::units(0) == 0);
    if x->magnitude > 0 {
        rounding::lemma_units_increase(0, x->magnitude);
    }
}

/// A product with a number above zero stays on the same side of zero.
pub proof fn lemma_product_not_below_zero(x: Datum, y: Datum)
    requires
        is_not_below_zero(x),
        is_above_zero(y),
    ensures
        is_not_below_zero(product(x, y)),
{
    let a = rounding::units(x->magnitude);
    let b = rounding::units(y->magnitude);
    lemma_negative_is_zero(x);
    lemma_pow2_pos(ONE_EXPONENT as nat);
    lemma_nearest_range(a * b, pow2(ONE_EXPONENT as nat));
    if x->negative {
        assert(a * b == 0) by (nonlinear_arith)
            requires
                a == 0,
        ;
    }
}

/// A quotient by a number above zero stays on the same side of zero.
pub proof fn lemma_quotient_not_below_zero(x: Datum, y: Datum)
    requires
        is_not_below_zero(x),
        is_above_zero(y),
    ensures
        is_not_below_zero(quotient(x, y)),
{
    let a = rounding::units(x->magnitude);
    let b = rounding::units(y->magnitude);
    let one = pow2(ONE_EXPONENT as nat);
    lemma_negative_is_zero(x);
    rounding::lemma_units_increase(0, y->magnitude);
    lemma_nearest_range(a * one, b);
    if x->negative {
        assert(a * one == 0) by (nonlinear_arith)
            requires
                a == 0,
        ;
    }
}

/// Whole numbers of at most 24 binary digits are subtracted exactly.
pub proof fn lemma_whole_difference_exact(m: nat, n: nat)
    requires
        m <= n < 0x100_0000,
    ensures
        difference(whole(n), whole(m)) == whole((n - m) as nat),
{
    let one = pow2(ONE_EXPONENT as nat);
    lemma_whole_exact(m);
    lemma_whole_exact(n);
    lemma_pow2_pos(ONE_EXPONENT as nat);
    let gap = (n - m) as nat;
    assert(n * one - m * one == gap * one) by (nonlinear_arith)
        requires
            gap == n - m,
    ;
    if gap > 0 {
        assert(gap * one > 0) by (nonlinear_arith)
            requires
                gap > 0,
                one > 0,
        ;
    } else {
        assert(0 * one == 0) by (nonlinear_arith);
        lemma_whole_finite(0);
    }
}

/// A proper fraction of small whole numbers is above zero, and what it leaves of one is, too.
pub proof fn lemma_proper_fraction(m: nat, n: nat)
    requires
        0 < m < n < 0x100_0000,
    ensures
        is_above_zero(quotient(whole(m), whole(n))),
        is_above_zero(difference(whole(1), quotient(whole(m), whole(n)))),
{
    let one = pow2(ONE_EXPONENT as nat);
    let t = quotient(whole(m), whole(n));
    let a = rounding::units(whole(m)->magnitude);
    let b = rounding::units(whole(n)->magnitude);
    lemma_whole_exact(1);
    lemma_whole_exact(m);
    lemma_whole_exact(n);
    lemma_pow2_pos(ONE_EXPONENT as nat);
    lemma_pow2_adds(24, 125);
    lemma2_to64();
    let part = pow2(125);
    lemma_pow2_pos(125);
    assert(0 < b <= a * one) by (nonlinear_arith)
        requires
            a == m * one,
            b == n * one,
            one == 0x100_0000 * part,
            0 < m,
            0 < n < 0x100_0000,
            part > 0,
    ;
    lemma_nearest_range(a * one, b);
    let below = lemma_exact_size(0xff_ffff, 125);
    rounding::lemma_nearest_exact(below, 1);
    let size = 0xff_ffff * part;
    assert(rounding::units(below) * 1 == size);
    assert(a * one * 1 <= size * b) by (nonlinear_arith)
        requires
            a == m * one,
            b == n * one,
            one == 0x100_0000 * part,
            size == 0xff_ffff * part,
            m + 1 <= n < 0x100_0000,
            part > 0,
    ;
    rounding::lemma_nearest_keeps_order(a * one, b, size, 1);
    if t->magnitude < below {
        rounding::lemma_units_increase(t->magnitude, below);
    }
    assert(signed(t) < one);
    lemma_difference_not_below_zero(whole(1), t);
    let rest = difference(whole(1), t);
    rounding::lemma_units_increase(0, t->magnitude);
    rounding::lemma_nearest_exact(whole(1)->magnitude, 1);
    assert(rounding::units(whole(1)->magnitude) * 1 == one);
    rounding::lemma_nearest_keeps_order((one - signed(t)) as nat, 1, one, 1);
}

} // verus!
