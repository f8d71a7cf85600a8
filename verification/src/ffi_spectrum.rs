//! The bands of a linear spectrum.

use crate::binary32;
use crate::binary32::{Binary32, Datum, ONE_EXPONENT};
use crate::nearness;
use crate::rounding;
use vstd::arithmetic::mul::*;
use vstd::arithmetic::power2::*;
use vstd::prelude::*;

verus! {

/// The width of each of `bands_count` bands that share the frequencies up to half the sampling
/// rate.
pub open spec fn width(sampling_rate: nat, bands_count: nat) -> Datum {
    binary32::quotient(
        binary32::quotient(binary32::whole(sampling_rate), binary32::whole(2)),
        binary32::whole(bands_count),
    )
}

/// The frequency at which band `n` starts, rounded to a whole number.
pub open spec fn band_freq(band_width: Datum, n: nat) -> nat {
    binary32::rounded_count(binary32::product(binary32::whole(n), band_width))
}

/// The width of each of `bands_count` bands.
pub fn band_width(sampling_rate: u32, bands_count: u32) -> (band_width: Binary32)
    requires
        sampling_rate > 0,
        bands_count > 0,
    ensures
        band_width@ == width(sampling_rate as nat, bands_count as nat),
        exists|rate: Datum, half: Datum, count: Datum|
            {
                &&& #[trigger] binary32::is_rounding(rate, sampling_rate * nearness::one(), 1)
                &&& #[trigger] binary32::is_rounding(
                    half,
                    binary32::signed(rate) * nearness::one(),
                    2 * nearness::one(),
                )
                &&& #[trigger] binary32::is_rounding(count, bands_count * nearness::one(), 1)
                &&& binary32::is_rounding(
                    band_width@,
                    binary32::signed(half) * nearness::one(),
                    binary32::signed(count) as nat,
                )
            },
        binary32::is_plain(band_width@),
        0x20_0000 * rounding::distance(
            2 * bands_count * binary32::signed(band_width@),
            sampling_rate * nearness::one(),
        ) <= sampling_rate * nearness::one(),
{
    proof {
        lemma_width_steps(sampling_rate as nat, bands_count as nat);
        lemma_width_is_plain(sampling_rate as nat, bands_count as nat);
        lemma_width_near_exact(sampling_rate as nat, bands_count as nat);
    }
    let nyquist: Binary32 = Binary32::from_whole(sampling_rate as u64).over(
        Binary32::from_whole(2),
    );
    nyquist.over(Binary32::from_whole(bands_count as u64))
}

/// The frequency at which band `n` starts.
pub fn get_freq_for_band_n(band_width: Binary32, n: u32) -> (freq: u32)
    ensures
        freq == band_freq(band_width@, n as nat),
        binary32::is_finite(band_width@) ==> exists|position: Datum, start: Datum|
            {
                &&& #[trigger] binary32::is_rounding(position, n * nearness::one(), 1)
                &&& #[trigger] binary32::is_rounding(
                    start,
                    binary32::signed(position) * binary32::signed(band_width@),
                    nearness::one(),
                )
                &&& start is Number && start->negative == (band_width@->negative)
                &&& nearness::is_rounded_count(start, freq as nat)
            },
        binary32::is_plain(band_width@) && n * binary32::signed(band_width@) <= 0x8000_0000
            * nearness::one() ==> 0x40_0000 * rounding::distance(
            2 * freq * nearness::one(),
            2 * n * binary32::signed(band_width@),
        ) <= 0x40_0000 * (nearness::one() + 2) + 2 * n * binary32::signed(band_width@),
        band_width@ is NotANumber ==> freq == 0,
        binary32::is_infinite(band_width@) ==> freq == if n > 0 && !band_width@->negative {
            u32::MAX
        } else {
            0
        },
{
    proof {
        lemma_band_freq_steps(band_width@, n as nat);
    }
    Binary32::from_whole(n as u64).times(band_width).to_count()
}

/// A quotient by at least one is not above its dividend.
proof fn lemma_quotient_below(x: Datum, n: nat)
    requires
        binary32::is_plain(x),
        0 < n <= u32::MAX,
    ensures
        binary32::is_plain(binary32::quotient(x, binary32::whole(n))),
        binary32::quotient(x, binary32::whole(n))->magnitude <= x->magnitude,
{
    let one = pow2(ONE_EXPONENT as nat);
    let a = rounding::units(x->magnitude);
    let d = binary32::whole(n);
    let b = rounding::units(d->magnitude);
    lemma_pow2_pos(ONE_EXPONENT as nat);
    binary32::lemma_whole_finite(n);
    binary32::lemma_whole_exact(1);
    binary32::lemma_whole_order(1, n);
    rounding::lemma_nearest_exact(x->magnitude, 1);
    assert(a * one * 1 <= (a * 1) * b) by (nonlinear_arith)
        requires
            one <= b,
            a >= 0,
    ;
    rounding::lemma_nearest_keeps_order(a * one, b, a * 1, 1);
}

/// The width of a band is finite and not negative.
pub proof fn lemma_width_is_plain(sampling_rate: nat, bands_count: nat)
    requires
        0 < sampling_rate <= u32::MAX,
        0 < bands_count <= u32::MAX,
    ensures
        binary32::is_plain(width(sampling_rate, bands_count)),
{
    let rate = binary32::whole(sampling_rate);
    binary32::lemma_whole_finite(sampling_rate);
    lemma_quotient_below(rate, 2);
    lemma_quotient_below(binary32::quotient(rate, binary32::whole(2)), bands_count);
}

/// Later bands do not start at lower frequencies.
pub proof fn lemma_band_freqs_ordered(band_width: Datum, m: nat, n: nat)
    requires
        binary32::is_plain(band_width),
        m <= n <= u32::MAX,
    ensures
        band_freq(band_width, m) <= band_freq(band_width, n),
{
    binary32::lemma_whole_finite(m);
    binary32::lemma_whole_finite(n);
    binary32::lemma_whole_order(m, n);
    binary32::lemma_product_order(band_width, binary32::whole(m), binary32::whole(n));
    binary32::lemma_count_order(
        binary32::product(binary32::whole(m), band_width),
        binary32::product(binary32::whole(n), band_width),
    );
}

/// The width is found in steps that are each rounded: the sampling rate, its half, the number of
/// bands and the quotient of the last two.
pub proof fn lemma_width_steps(sampling_rate: nat, bands_count: nat)
    requires
        0 < sampling_rate <= u32::MAX,
        0 < bands_count <= u32::MAX,
    ensures
        exists|rate: Datum, half: Datum, count: Datum|
            {
                &&& #[trigger] binary32::is_rounding(
                    rate,
                    (sampling_rate * nearness::one()) as int,
                    1,
                )
                &&& #[trigger] binary32::is_rounding(
                    half,
                    binary32::signed(rate) * nearness::one(),
                    2 * nearness::one(),
                )
                &&& #[trigger] binary32::is_rounding(
                    count,
                    (bands_count * nearness::one()) as int,
                    1,
                )
                &&& binary32::is_rounding(
                    width(sampling_rate, bands_count),
                    binary32::signed(half) * nearness::one(),
                    binary32::signed(count) as nat,
                )
            },
{
    let rate = binary32::whole(sampling_rate);
    let two = binary32::whole(2);
    let half = binary32::quotient(rate, two);
    let count = binary32::whole(bands_count);
    binary32::lemma_whole_finite(sampling_rate);
    binary32::lemma_whole_finite(bands_count);
    binary32::lemma_whole_exact(2);
    lemma_pow2_pos(ONE_EXPONENT as nat);
    lemma_quotient_below(rate, 2);
    rounding::lemma_units_increase(0, count->magnitude);
    nearness::lemma_whole_rounds(sampling_rate);
    nearness::lemma_whole_rounds(bands_count);
    nearness::lemma_quotient_rounds(rate, two);
    nearness::lemma_quotient_rounds(half, count);
    assert(binary32::is_rounding(rate, (sampling_rate * nearness::one()) as int, 1));
    assert(binary32::is_rounding(
        half,
        binary32::signed(rate) * nearness::one(),
        2 * nearness::one(),
    ));
    assert(binary32::is_rounding(count, (bands_count * nearness::one()) as int, 1));
}

/// The frequency of a band is found in steps that are each rounded: its number, the product with
/// the width, and the whole number nearest to that. A width that is infinite puts all bands but
/// the first at the highest count, and one that is no number puts all of them at zero.
pub proof fn lemma_band_freq_steps(band_width: Datum, n: nat)
    requires
        n <= u32::MAX,
    ensures
        binary32::is_finite(band_width) ==> exists|position: Datum, start: Datum|
            {
                &&& #[trigger] binary32::is_rounding(position, (n * nearness::one()) as int, 1)
                &&& #[trigger] binary32::is_rounding(
                    start,
                    binary32::signed(position) * binary32::signed(band_width),
                    nearness::one(),
                )
                &&& start is Number && start->negative == band_width->negative
                &&& nearness::is_rounded_count(start, band_freq(band_width, n))
            },
        binary32::is_plain(band_width) && n * binary32::signed(band_width) <= 0x8000_0000
            * nearness::one() ==> 0x40_0000 * rounding::distance(
            (2 * band_freq(band_width, n) * nearness::one()) as int,
            2 * n * binary32::signed(band_width),
        ) <= 0x40_0000 * (nearness::one() + 2) + 2 * n * binary32::signed(band_width),
        band_width is NotANumber ==> band_freq(band_width, n) == 0,
        binary32::is_infinite(band_width) ==> band_freq(band_width, n) == if n > 0
            && !band_width->negative {
            u32::MAX as nat
        } else {
            0
        },
{
    let position = binary32::whole(n);
    let start = binary32::product(position, band_width);
    binary32::lemma_whole_finite(n);
    if binary32::is_finite(band_width) {
        nearness::lemma_whole_rounds(n);
        nearness::lemma_product_rounds(position, band_width);
        nearness::lemma_count_is_nearest(start);
        nearness::lemma_unusual_products(position, band_width);
        assert(binary32::is_rounding(position, (n * nearness::one()) as int, 1));
        assert(binary32::is_rounding(
            start,
            binary32::signed(position) * binary32::signed(band_width),
            nearness::one(),
        ));
        if binary32::is_plain(band_width) && n * binary32::signed(band_width) <= 0x8000_0000
            * nearness::one() {
            lemma_band_freq_near_product(band_width, n);
        }
    } else if binary32::is_infinite(band_width) {
        nearness::lemma_count_is_nearest(start);
        lemma_infinite_size();
    }
}

proof fn lemma_infinite_size()
    ensures
        2 * rounding::units(rounding::INFINITE as nat) >= (2 * u32::MAX + 1) * nearness::one(),
{
    let unit = nearness::one();
    rounding::lemma_units_at(254, rounding::BINADE as nat);
    lemma_pow2_adds(105, ONE_EXPONENT as nat);
    lemma2_to64();
    rounding::lemma_pow2_le(32, 105);
    assert(2 * (0x80_0000 * (pow2(105) * unit)) >= 0x1_ffff_ffff * unit) by (nonlinear_arith)
        requires
            pow2(105) >= 0x1_0000_0000,
    ;
}

/// Up to two to the power of 31, the frequency of a band is its number times the width, rounded to
/// a whole number and off by one part in two to the power of 22 besides.
proof fn lemma_band_freq_near_product(band_width: Datum, n: nat)
    requires
        n <= u32::MAX,
        binary32::is_plain(band_width),
        n * binary32::signed(band_width) <= 0x8000_0000 * nearness::one(),
    ensures
        0x40_0000 * rounding::distance(
            (2 * band_freq(band_width, n) * nearness::one()) as int,
            2 * n * binary32::signed(band_width),
        ) <= 0x40_0000 * (nearness::one() + 2) + 2 * n * binary32::signed(band_width),
{
    let unit = nearness::one() as int;
    let position = binary32::whole(n);
    let start = binary32::product(position, band_width);
    let freq = band_freq(band_width, n) as int;
    let k = n as int;
    let m = binary32::signed(position);
    let w = binary32::signed(band_width);
    let p = binary32::signed(start);
    let exact = k * w;
    lemma_pow2_pos(ONE_EXPONENT as nat);
    lemma2_to64();
    binary32::lemma_whole_finite(n);
    nearness::lemma_whole_error(n);
    nearness::lemma_count_is_nearest(start);
    assert(m >= 0 && w >= 0 && exact >= 0 && m * w >= 0) by (nonlinear_arith)
        requires
            m >= 0,
            w >= 0,
            k >= 0,
            exact == k * w,
    ;
    // The position, rounded.
    let spread = exact * unit;
    assert(0x100_0000 * (m * w) <= 0x100_0001 * spread && 0xff_ffff * spread <= 0x100_0000 * (m
        * w)) by (nonlinear_arith)
        requires
            w >= 0,
            exact == k * w,
            spread == exact * unit,
            0x100_0000 * m <= 0x100_0001 * (k * unit),
            0xff_ffff * (k * unit) <= 0x100_0000 * m,
    ;
    // The product, rounded.
    let far = 0x1ff_ffff * pow2(252);
    lemma_pow2_adds(103, ONE_EXPONENT as nat);
    rounding::lemma_pow2_le(32, 103);
    assert(m * w < far * unit) by (nonlinear_arith)
        requires
            0x100_0000 * (m * w) <= 0x100_0001 * (exact * unit),
            exact <= 0x8000_0000 * unit,
            far == 0x1ff_ffff * (pow2(103) * unit),
            pow2(103) >= 0x1_0000_0000,
            unit > 0,
    ;
    rounding::lemma_overflow(
        (rounding::units(position->magnitude) * rounding::units(band_width->magnitude)) as nat,
        unit as nat,
    );
    rounding::lemma_nearest(
        (rounding::units(position->magnitude) * rounding::units(band_width->magnitude)) as nat,
        unit as nat,
    );
    nearness::lemma_product_error(position, band_width);
    let slack = 0x100_0000 * rounding::distance(p * unit, m * w);
    assert(slack <= m * w + 0x80_0000 * unit);
    let gap = rounding::distance(p, exact);
    assert(rounding::distance(p * unit, spread) == gap * unit) by (nonlinear_arith)
        requires
            spread == exact * unit,
            gap == rounding::distance(p, exact),
            unit > 0,
    ;
    // Both together.
    assert(0x40_0000 * gap * unit <= (exact + 0x40_0000) * unit) by (nonlinear_arith)
        requires
            rounding::distance(p * unit, spread) == gap * unit,
            0x100_0000 * rounding::distance(p * unit, m * w) <= m * w + 0x80_0000 * unit,
            0x100_0000 * (m * w) <= 0x100_0001 * spread,
            0xff_ffff * spread <= 0x100_0000 * (m * w),
            spread == exact * unit,
            spread >= 0,
            unit > 0,
    ;
    assert(0x40_0000 * gap <= exact + 0x40_0000) by (nonlinear_arith)
        requires
            0x40_0000 * gap * unit <= (exact + 0x40_0000) * unit,
            unit > 0,
    ;
    // The count.
    assert(p < 0xffff_ffff * unit) by (nonlinear_arith)
        requires
            0x40_0000 * gap <= exact + 0x40_0000,
            gap == rounding::distance(p, exact),
            exact <= 0x8000_0000 * unit,
            unit > 0,
    ;
    let most = u32::MAX as int;
    assert((2 * most + 1) * unit == 0x1_ffff_ffff * unit);
    assert(2 * p < (2 * u32::MAX + 1) * pow2(ONE_EXPONENT as nat));
    assert(!start->negative);
    assert(rounding::distance(2 * freq * unit, 2 * p) <= unit) by (nonlinear_arith)
        requires
            (2 * freq - 1) * unit <= 2 * p < (2 * freq + 1) * unit,
            unit > 0,
    ;
    assert(2 * k * w == 2 * exact) by (nonlinear_arith)
        requires
            exact == k * w,
    ;
}

/// The width of a band times twice the number of bands is the sampling rate, off by at most one
/// part in two to the power of 21.
pub proof fn lemma_width_near_exact(sampling_rate: nat, bands_count: nat)
    requires
        0 < sampling_rate <= u32::MAX,
        0 < bands_count <= u32::MAX,
    ensures
        0x20_0000 * rounding::distance(
            2 * bands_count * binary32::signed(width(sampling_rate, bands_count)),
            (sampling_rate * nearness::one()) as int,
        ) <= sampling_rate * nearness::one(),
{
    let unit = nearness::one() as int;
    let rate = binary32::whole(sampling_rate);
    let two = binary32::whole(2);
    let half = binary32::quotient(rate, two);
    let count = binary32::whole(bands_count);
    let r = binary32::signed(rate);
    let h = binary32::signed(half);
    let c = binary32::signed(count);
    let w = binary32::signed(width(sampling_rate, bands_count));
    let exact = sampling_rate * unit;
    let many = bands_count * unit;
    lemma_pow2_pos(ONE_EXPONENT as nat);
    lemma2_to64();
    lemma_pow2_adds(64, 85);
    rounding::lemma_pow2_le(64, 85);
    assert(unit >= 0x1_0000_0000_0000_0000 * 0x1_0000_0000_0000_0000) by (nonlinear_arith)
        requires
            unit == pow2(64) * pow2(85),
            pow2(64) == 0x1_0000_0000_0000_0000,
            pow2(85) >= pow2(64),
    ;
    binary32::lemma_whole_finite(sampling_rate);
    binary32::lemma_whole_finite(bands_count);
    binary32::lemma_whole_exact(2);
    binary32::lemma_whole_exact(1);
    binary32::lemma_whole_order(1, sampling_rate);
    binary32::lemma_whole_order(1, bands_count);
    lemma_quotient_below(rate, 2);
    lemma_quotient_below(half, bands_count);
    nearness::lemma_whole_error(sampling_rate);
    nearness::lemma_whole_error(bands_count);
    assert(unit <= r && unit <= c && 1 * unit == unit);
    assert(many <= 0xffff_ffff * unit) by (nonlinear_arith)
        requires
            many == bands_count * unit,
            bands_count <= u32::MAX,
            unit > 0,
    ;
    nearness::lemma_quotient_error(rate, two);
    assert(0x80_0000 * (2 * unit) <= r * unit) by (nonlinear_arith)
        requires
            unit <= r,
            unit >= 0x100_0000,
    ;
    let doubled = 2 * h;
    assert(h * (2 * unit) == doubled * unit) by (nonlinear_arith)
        requires
            doubled == 2 * h,
    ;
    lemma_near_cancels(doubled, r, unit);
    assert(0x100_0000 * doubled <= 0x100_0001 * r && 0xff_ffff * r <= 0x100_0000 * doubled);
    nearness::lemma_quotient_error(half, count);
    assert(0x80_0000 * c <= h * unit) by (nonlinear_arith)
        requires
            0x100_0000 * c <= 0x100_0001 * many,
            many <= 0xffff_ffff * unit,
            0xff_ffff * unit <= 0x100_0000 * (2 * h),
            unit >= 0x1_0000_0000_0000_0000 * 0x1_0000_0000_0000_0000,
    ;
    let b = bands_count as int;
    let all = 2 * b * w;
    // From here on all is in proportion.
    assert(0xff_ffff * (w * b) <= 0x100_0001 * h && 0xff_ffff * h <= 0x100_0001 * (w * b))
        by (nonlinear_arith)
        requires
            0x100_0000 * (w * c) <= 0x100_0001 * (h * unit),
            0xff_ffff * (h * unit) <= 0x100_0000 * (w * c),
            0x100_0000 * c <= 0x100_0001 * (b * unit),
            0xff_ffff * (b * unit) <= 0x100_0000 * c,
            w >= 0,
            b >= 0,
            unit > 0,
    ;
    assert(all == 2 * (w * b)) by (nonlinear_arith)
        requires
            all == 2 * b * w,
    ;
    assert(0x20_0000 * all <= 0x20_0001 * exact && 0x1f_ffff * exact <= 0x20_0000 * all) by {
        assert(0xff_ffff * all <= 0x100_0001 * doubled);
        assert(0xff_ffff * doubled <= 0x100_0001 * all);
        assert(0x100_0000 * r <= 0x100_0001 * exact);
        assert(0xff_ffff * exact <= 0x100_0000 * r);
    }
}

/// A common factor above zero is taken out of two numbers that are near each other.
proof fn lemma_near_cancels(x: int, y: int, factor: int)
    requires
        factor > 0,
        0x100_0000 * rounding::distance(x * factor, y * factor) <= nearness::size(y * factor),
        y >= 0,
    ensures
        0x100_0000 * rounding::distance(x, y) <= y,
{
    let gap = rounding::distance(x, y);
    assert(rounding::distance(x * factor, y * factor) == gap * factor && y * factor >= 0)
        by (nonlinear_arith)
        requires
            factor > 0,
            y >= 0,
            gap == rounding::distance(x, y),
    ;
    assert(0x100_0000 * gap <= y) by (nonlinear_arith)
        requires
            0x100_0000 * (gap * factor) <= y * factor,
            factor > 0,
    ;
}

/// Band `n` of a spectrum starts at `n * sampling_rate / (2 * bands_count)`, rounded to a whole
/// number and off by at most one part in two to the power of 20 besides.
pub proof fn lemma_band_starts_in_proportion(sampling_rate: nat, bands_count: nat, n: nat)
    requires
        0 < sampling_rate <= u32::MAX,
        0 < bands_count <= u32::MAX,
        n <= u32::MAX,
        n * sampling_rate <= bands_count * 0x8000_0000,
    ensures
        0x10_0000 * rounding::distance(
            (4 * bands_count * band_freq(width(sampling_rate, bands_count), n)) as int,
            (2 * n * sampling_rate) as int,
        ) <= 0x10_0000 * (2 * bands_count) + 2 * n * sampling_rate,
{
    let unit = nearness::one() as int;
    let b = bands_count as int;
    let k = n as int;
    let r = sampling_rate as int;
    let w = binary32::signed(width(sampling_rate, bands_count));
    let freq = band_freq(width(sampling_rate, bands_count), n) as int;
    lemma_pow2_pos(ONE_EXPONENT as nat);
    lemma_width_is_plain(sampling_rate, bands_count);
    lemma_width_near_exact(sampling_rate, bands_count);
    let start = k * w;
    let exact = k * r;
    let all = 2 * b * w;
    assert(exact >= 0 && start >= 0) by (nonlinear_arith)
        requires
            k >= 0,
            r >= 0,
            w >= 0,
            exact == k * r,
            start == k * w,
    ;
    // Multiplied by the number of the band.
    assert(0x20_0000 * (2 * (b * start)) <= 0x20_0001 * (exact * unit) && 0x1f_ffff * (exact * unit)
        <= 0x20_0000 * (2 * (b * start))) by (nonlinear_arith)
        requires
            0x20_0000 * all <= 0x20_0001 * (r * unit),
            0x1f_ffff * (r * unit) <= 0x20_0000 * all,
            all == 2 * b * w,
            start == k * w,
            exact == k * r,
            k >= 0,
    ;
    assert(start <= 0x8000_0000 * unit) by (nonlinear_arith)
        requires
            0x20_0000 * (2 * (b * start)) <= 0x20_0001 * (exact * unit),
            exact <= b * 0x8000_0000,
            b > 0,
            unit > 0,
    ;
    lemma_band_freq_near_product(width(sampling_rate, bands_count), n);
    if n == 0 {
        lemma_first_band_at_zero(width(sampling_rate, bands_count));
    } else {
        lemma_mul_strictly_positive(k, r);
        assert(2 * k * w == 2 * start) by (nonlinear_arith)
            requires
                start == k * w,
        ;
        lemma_proportion(freq, start, exact, b, unit);
        assert(4 * b * freq == 2 * (2 * b * freq)) by (nonlinear_arith);
    }
    assert(2 * k * r == 2 * exact) by (nonlinear_arith)
        requires
            exact == k * r,
    ;
}

proof fn lemma_first_band_at_zero(band_width: Datum)
    requires
        binary32::is_plain(band_width),
    ensures
        band_freq(band_width, 0) == 0,
{
    let unit = nearness::one() as int;
    let freq = band_freq(band_width, 0) as int;
    lemma_pow2_pos(ONE_EXPONENT as nat);
    lemma2_to64();
    lemma_pow2_adds(64, 85);
    rounding::lemma_pow2_le(64, 85);
    assert(unit > 4) by (nonlinear_arith)
        requires
            unit == pow2(64) * pow2(85),
            pow2(64) == 0x1_0000_0000_0000_0000,
            pow2(85) >= pow2(64),
    ;
    assert(0 * binary32::signed(band_width) == 0 && 2 * 0 * binary32::signed(band_width) == 0)
        by (nonlinear_arith);
    lemma_band_freq_near_product(band_width, 0);
    assert(freq < 1) by (nonlinear_arith)
        requires
            0x40_0000 * (2 * freq * unit) <= 0x40_0000 * (unit + 2),
            unit > 4,
    ;
}

proof fn lemma_proportion(freq: int, start: int, exact: int, b: int, unit: int)
    requires
        freq >= 0,
        0 < b <= u32::MAX,
        exact > 0,
        start >= 0,
        unit == nearness::one(),
        0x20_0000 * (2 * (b * start)) <= 0x20_0001 * (exact * unit),
        0x1f_ffff * (exact * unit) <= 0x20_0000 * (2 * (b * start)),
        0x40_0000 * rounding::distance(2 * freq * unit, 2 * start) <= 0x40_0000 * (unit + 2) + 2
            * start,
    ensures
        0x10_0000 * rounding::distance(2 * (2 * b * freq), 2 * exact) <= 0x10_0000 * (2 * b) + 2
            * exact,
{
    lemma2_to64();
    lemma_pow2_adds(64, 85);
    rounding::lemma_pow2_le(64, 85);
    assert(unit >= 0x1_0000_0000_0000_0000 * 0x1_0000_0000_0000_0000) by (nonlinear_arith)
        requires
            unit == pow2(64) * pow2(85),
            pow2(64) == 0x1_0000_0000_0000_0000,
            pow2(85) >= pow2(64),
    ;
    let f = 2 * (b * freq) * unit;
    let s = 2 * (b * start);
    let e = exact * unit;
    let bu = b * unit;
    assert(0x40_0000 * rounding::distance(f, s) <= 0x40_0000 * (bu + 2 * b) + s) by (nonlinear_arith)
        requires
            0x40_0000 * rounding::distance(2 * freq * unit, 2 * start) <= 0x40_0000 * (unit + 2) + 2
                * start,
            f == 2 * (b * freq) * unit,
            s == 2 * (b * start),
            bu == b * unit,
            b > 0,
    ;
    assert(e >= 0x1_0000_0000_0000_0000 * b) by (nonlinear_arith)
        requires
            e == exact * unit,
            exact > 0,
            unit >= 0x1_0000_0000_0000_0000 * 0x1_0000_0000_0000_0000,
            0 < b <= 0xffff_ffff,
    ;
    assert(0x10_0000 * rounding::distance(f, e) <= 0x10_0000 * bu + e);
    let gap = rounding::distance(2 * (b * freq), exact);
    assert(rounding::distance(f, e) == gap * unit) by (nonlinear_arith)
        requires
            f == 2 * (b * freq) * unit,
            e == exact * unit,
            gap == rounding::distance(2 * (b * freq), exact),
            unit > 0,
    ;
    assert(0x10_0000 * gap <= 0x10_0000 * b + exact) by (nonlinear_arith)
        requires
            0x10_0000 * (gap * unit) <= 0x10_0000 * (b * unit) + exact * unit,
            unit > 0,
    ;
    assert(2 * b * freq == 2 * (b * freq)) by (nonlinear_arith);
}

} // verus!
