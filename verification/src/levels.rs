//! What the levels of a spectrum say of its bands.

use crate::binary32;
use crate::binary32::{Binary32, Datum, ONE_EXPONENT};
use crate::ffi_spectrum;
use crate::log_partition;
use crate::nearness;
use crate::rounding;
use crate::rounding::INFINITE;
use crate::transformation;
use crate::transformation::LOG_BANDS;
use vstd::arithmetic::mul::*;
use vstd::arithmetic::power2::*;
use vstd::prelude::*;

verus! {

/// Whether range `j` of one hundred takes in band `i` of a spectrum: the frequency of the band is
/// above the lower end of the range and not above the upper one. The first range takes in its
/// lower end too.
pub open spec fn takes_in(sampling_rate: nat, bands_count: nat, i: int, j: int) -> bool {
    let freq = ffi_spectrum::band_freq(
        ffi_spectrum::width(sampling_rate, bands_count),
        i as nat,
    );
    &&& 0 <= j < 100
    &&& if j == 0 {
        log_partition::boundary(0, 100) <= freq
    } else {
        log_partition::boundary(j as nat, 100) < freq
    }
    &&& freq <= log_partition::boundary((j + 1) as nat, 100)
}

/// How many of the first `n` bands are taken in by range `j`.
pub open spec fn members(sampling_rate: nat, bands_count: nat, j: int, n: nat) -> nat
    decreases n,
{
    if n == 0 {
        0
    } else {
        members(sampling_rate, bands_count, j, (n - 1) as nat) + if takes_in(
            sampling_rate,
            bands_count,
            n - 1,
            j,
        ) {
            1nat
        } else {
            0nat
        }
    }
}

/// The exact sum, in units, of those among the first `n` bands that range `j` takes in.
pub open spec fn exact_total(bands: Seq<Datum>, sampling_rate: nat, j: int, n: nat) -> int
    decreases n,
{
    if n == 0 {
        0
    } else {
        exact_total(bands, sampling_rate, j, (n - 1) as nat) + if takes_in(
            sampling_rate,
            bands.len(),
            n - 1,
            j,
        ) {
            binary32::signed(bands[n - 1])
        } else {
            0
        }
    }
}

/// A band belongs to the range that takes it in: the one with its frequency above the lower end,
/// or at the lower end of the first, and not above the upper end.
pub proof fn lemma_belongs_to_taker(sampling_rate: nat, bands_count: nat, i: int, j: int)
    ensures
        transformation::belongs(sampling_rate, bands_count, i, j) <==> takes_in(
            sampling_rate,
            bands_count,
            i,
            j,
        ),
        0 <= j < 100 ==> ({
            let freq = ffi_spectrum::band_freq(
                ffi_spectrum::width(sampling_rate, bands_count),
                i as nat,
            );
            transformation::belongs(sampling_rate, bands_count, i, j) <==> (
            log_partition::boundary(j as nat, 100) < freq || j == 0 && freq == 20) && freq
                <= log_partition::boundary((j + 1) as nat, 100)
        }),
        !(0 <= j < 100) ==> !transformation::belongs(sampling_rate, bands_count, i, j),
{
    let freq = ffi_spectrum::band_freq(
        ffi_spectrum::width(sampling_rate, bands_count),
        i as nat,
    );
    let ranges = transformation::log_ranges();
    if 0 <= j < 100 {
        log_partition::lemma_partition_ordered(100, j, j);
        if j > 0 {
            log_partition::lemma_partition_ordered(100, j - 1, j);
        }
        log_partition::lemma_boundary_ends(100);
        log_partition::lemma_boundaries_ordered(j as nat, 100, 100);
        log_partition::lemma_boundaries_ordered((j + 1) as nat, 100, 100);
        assert forall|k: int| 0 <= k < j implies (#[trigger] ranges[k]).1
            <= log_partition::boundary(j as nat, 100) by {
            log_partition::lemma_partition_ordered(100, k, j);
        }
        if takes_in(sampling_rate, bands_count, i, j) {
            assert(log_partition::is_first_range(ranges, freq as u32, j));
        }
        if transformation::belongs(sampling_rate, bands_count, i, j) {
            if j > 0 {
                log_partition::lemma_partition_ordered(100, j - 1, j - 1);
                assert(!log_partition::in_range(ranges[j - 1], freq as u32));
            }
        }
    }
}

/// As many bands belong to a range as it takes in.
pub proof fn lemma_members_counted(sampling_rate: nat, bands_count: nat, j: int, n: nat)
    ensures
        transformation::range_count(bands_count, sampling_rate, j, n) == members(
            sampling_rate,
            bands_count,
            j,
            n,
        ),
    decreases n,
{
    if n > 0 {
        lemma_members_counted(sampling_rate, bands_count, j, (n - 1) as nat);
        lemma_belongs_to_taker(sampling_rate, bands_count, n - 1, j);
    }
}

/// There are members exactly when some band is taken in.
proof fn lemma_some_member(sampling_rate: nat, bands_count: nat, j: int, n: nat)
    ensures
        members(sampling_rate, bands_count, j, n) > 0 <==> exists|i: int|
            0 <= i < n && #[trigger] takes_in(sampling_rate, bands_count, i, j),
        members(sampling_rate, bands_count, j, n) <= n,
    decreases n,
{
    if n > 0 {
        lemma_some_member(sampling_rate, bands_count, j, (n - 1) as nat);
        if takes_in(sampling_rate, bands_count, n - 1, j) {
        } else if members(sampling_rate, bands_count, j, n) > 0 {
            let i = choose|i: int|
                0 <= i < n - 1 && #[trigger] takes_in(sampling_rate, bands_count, i, j);
            assert(0 <= i < n && takes_in(sampling_rate, bands_count, i, j));
        }
    }
}

/// A range has a level exactly when it takes in at least one band, whatever the amplitudes are.
pub proof fn lemma_level_where_bands(bands: Seq<Datum>, sampling_rate: nat, j: int)
    requires
        0 <= j < 100,
    ensures
        transformation::log_levels(bands, sampling_rate).len() == 100,
        transformation::log_levels(bands, sampling_rate)[j] is Some <==> exists|i: int|
            0 <= i < bands.len() && #[trigger] takes_in(sampling_rate, bands.len(), i, j),
        transformation::log_levels(bands, sampling_rate)[j] is Some <==> exists|i: nat|
            #![trigger ffi_spectrum::band_freq(
                ffi_spectrum::width(sampling_rate, bands.len()),
                i,
            )]
            {
                let freq = ffi_spectrum::band_freq(
                    ffi_spectrum::width(sampling_rate, bands.len()),
                    i,
                );
                &&& i < bands.len()
                &&& log_partition::boundary(j as nat, 100) < freq || j == 0 && freq == 20
                &&& freq <= log_partition::boundary((j + 1) as nat, 100)
            },
{
    lemma_members_counted(sampling_rate, bands.len(), j, bands.len());
    lemma_some_member(sampling_rate, bands.len(), j, bands.len());
    log_partition::lemma_boundary_ends(100);
    if transformation::log_levels(bands, sampling_rate)[j] is Some {
        let i = choose|i: int|
            0 <= i < bands.len() && #[trigger] takes_in(sampling_rate, bands.len(), i, j);
        let freq = ffi_spectrum::band_freq(
            ffi_spectrum::width(sampling_rate, bands.len()),
            i as nat,
        );
        assert(freq <= log_partition::boundary((j + 1) as nat, 100));
    }
    if exists|i: nat|
        #![trigger ffi_spectrum::band_freq(
            ffi_spectrum::width(sampling_rate, bands.len()),
            i,
        )]
        {
            let freq = ffi_spectrum::band_freq(
                ffi_spectrum::width(sampling_rate, bands.len()),
                i,
            );
            &&& i < bands.len()
            &&& log_partition::boundary(j as nat, 100) < freq || j == 0 && freq == 20
            &&& freq <= log_partition::boundary((j + 1) as nat, 100)
        } {
        let i = choose|i: nat|
            #![trigger ffi_spectrum::band_freq(
                ffi_spectrum::width(sampling_rate, bands.len()),
                i,
            )]
            {
                let freq = ffi_spectrum::band_freq(
                    ffi_spectrum::width(sampling_rate, bands.len()),
                    i,
                );
                &&& i < bands.len()
                &&& log_partition::boundary(j as nat, 100) < freq || j == 0 && freq == 20
                &&& freq <= log_partition::boundary((j + 1) as nat, 100)
            };
        assert(takes_in(sampling_rate, bands.len(), i as int, j));
    }
}

/// The members of a range are the set of the bands that it takes in.
pub proof fn lemma_members_are_a_set(sampling_rate: nat, bands_count: nat, j: int, n: nat)
    ensures
        ({
            let taken = Set::new(
                |i: int| 0 <= i < n && takes_in(sampling_rate, bands_count, i, j),
            );
            &&& taken.finite()
            &&& taken.len() == members(sampling_rate, bands_count, j, n)
        }),
    decreases n,
{
    let taken = Set::new(|i: int| 0 <= i < n && takes_in(sampling_rate, bands_count, i, j));
    if n == 0 {
        assert(taken =~= Set::empty());
    } else {
        let before = Set::new(
            |i: int| 0 <= i < n - 1 && takes_in(sampling_rate, bands_count, i, j),
        );
        lemma_members_are_a_set(sampling_rate, bands_count, j, (n - 1) as nat);
        if takes_in(sampling_rate, bands_count, n - 1, j) {
            assert(taken =~= before.insert(n - 1));
        } else {
            assert(taken =~= before);
        }
    }
}

/// An exact sum changes by as much as one of its bands, and stays when the band is not taken in.
/// Without amplitudes it is zero.
pub proof fn lemma_total_by_band(
    bands: Seq<Datum>,
    sampling_rate: nat,
    j: int,
    n: nat,
    i: int,
    amplitude: Datum,
)
    requires
        n <= bands.len(),
        0 <= i < bands.len(),
    ensures
        exact_total(bands.update(i, amplitude), sampling_rate, j, n) - exact_total(
            bands,
            sampling_rate,
            j,
            n,
        ) == if i < n && takes_in(sampling_rate, bands.len(), i, j) {
            binary32::signed(amplitude) - binary32::signed(bands[i])
        } else {
            0
        },
        (forall|k: int| 0 <= k < bands.len() ==> binary32::signed(#[trigger] bands[k]) == 0)
            ==> exact_total(bands, sampling_rate, j, n) == 0,
    decreases n,
{
    if n > 0 {
        lemma_total_by_band(bands, sampling_rate, j, (n - 1) as nat, i, amplitude);
    }
}

/// Bands that a range does not take in have no influence on its level.
pub proof fn lemma_level_by_members(
    bands: Seq<Datum>,
    others: Seq<Datum>,
    sampling_rate: nat,
    j: int,
)
    requires
        0 <= j < 100,
        bands.len() == others.len(),
        forall|i: int|
            0 <= i < bands.len() && #[trigger] takes_in(sampling_rate, bands.len(), i, j)
                ==> bands[i] == others[i],
    ensures
        transformation::log_levels(bands, sampling_rate)[j] == transformation::log_levels(
            others,
            sampling_rate,
        )[j],
{
    lemma_sum_by_members(bands, others, sampling_rate, j, bands.len());
}

proof fn lemma_sum_by_members(
    bands: Seq<Datum>,
    others: Seq<Datum>,
    sampling_rate: nat,
    j: int,
    n: nat,
)
    requires
        n <= bands.len(),
        bands.len() == others.len(),
        forall|i: int|
            0 <= i < bands.len() && #[trigger] takes_in(sampling_rate, bands.len(), i, j)
                ==> bands[i] == others[i],
    ensures
        transformation::range_sum(bands, sampling_rate, j, n) == transformation::range_sum(
            others,
            sampling_rate,
            j,
            n,
        ),
    decreases n,
{
    if n > 0 {
        lemma_sum_by_members(bands, others, sampling_rate, j, (n - 1) as nat);
        lemma_belongs_to_taker(sampling_rate, bands.len(), n - 1, j);
    }
}

/// Adding one more amplitude to a rounded sum of `k`: the error stays in bounds.
proof fn lemma_one_more(s: Datum, b: Datum, total: int, k: nat, most: int)
    requires
        binary32::is_finite(s),
        binary32::is_finite(b),
        k < 0x100_0000,
        most >= 0,
        nearness::size(binary32::signed(b)) <= most,
        most * (k + 1) <= pow2(275),
        0x100_0000 * rounding::distance(binary32::signed(s), total) <= most * (k * k),
        nearness::size(total) <= most * k,
    ensures
        binary32::is_finite(binary32::sum(s, b)),
        0x100_0000 * rounding::distance(
            binary32::signed(binary32::sum(s, b)),
            total + binary32::signed(b),
        ) <= most * ((k + 1) * (k + 1)),
        nearness::size(total + binary32::signed(b)) <= most * (k + 1),
{
    let error = rounding::distance(binary32::signed(s), total);
    let value = binary32::signed(s) + binary32::signed(b);
    let part = most * k;
    assert(error <= part) by (nonlinear_arith)
        requires
            0x100_0000 * error <= most * (k * k),
            part == most * k,
            k < 0x100_0000,
            most >= 0,
    ;
    assert(most * (k + 1) == part + most && most * ((k + 1) * (k + 1)) == most * (k * k) + 2 * part
        + most) by (nonlinear_arith)
        requires
            part == most * k,
    ;
    lemma_pow2_unfold(276);
    lemma_pow2_adds(252, 24);
    lemma2_to64();
    lemma_pow2_pos(252);
    let num = nearness::size(value) as nat;
    assert(num <= 2 * pow2(275));
    assert(num < 0x1ff_ffff * pow2(252) * 1);
    rounding::lemma_overflow(num, 1);
    rounding::lemma_nearest(num, 1);
    nearness::lemma_sum_error(s, b);
}

/// The rounded sum of the amplitudes of a range is near the exact one: off by at most the square
/// of their number times one part in two to the power of 24 of the greatest.
pub proof fn lemma_range_sum_near_total(
    bands: Seq<Datum>,
    sampling_rate: nat,
    j: int,
    n: nat,
    most: int,
)
    requires
        n <= bands.len(),
        most >= 0,
        members(sampling_rate, bands.len(), j, n) <= 0x100_0000,
        most * members(sampling_rate, bands.len(), j, n) <= pow2(275),
        forall|i: int|
            0 <= i < n && #[trigger] takes_in(sampling_rate, bands.len(), i, j)
                ==> binary32::is_finite(bands[i]) && nearness::size(binary32::signed(bands[i]))
                <= most,
    ensures
        ({
            let k = members(sampling_rate, bands.len(), j, n);
            let s = transformation::range_sum(bands, sampling_rate, j, n);
            let total = exact_total(bands, sampling_rate, j, n);
            &&& binary32::is_finite(s)
            &&& 0x100_0000 * rounding::distance(binary32::signed(s), total) <= most * (k * k)
            &&& nearness::size(total) <= most * k
        }),
    decreases n,
{
    let k = members(sampling_rate, bands.len(), j, n);
    assert(rounding::units(0) == 0);
    if n == 0 {
        assert(most * 0 == 0 && most * (0 * 0) == 0) by (nonlinear_arith);
    } else {
        let before = members(sampling_rate, bands.len(), j, (n - 1) as nat);
        lemma_belongs_to_taker(sampling_rate, bands.len(), n - 1, j);
        lemma_mul_inequality(before as int, k as int, most);
        lemma_mul_is_commutative(before as int, most);
        lemma_mul_is_commutative(k as int, most);
        lemma_range_sum_near_total(bands, sampling_rate, j, (n - 1) as nat, most);
        if takes_in(sampling_rate, bands.len(), n - 1, j) {
            lemma_one_more(
                transformation::range_sum(bands, sampling_rate, j, (n - 1) as nat),
                bands[n - 1],
                exact_total(bands, sampling_rate, j, (n - 1) as nat),
                before,
                most,
            );
        }
    }
}

/// A rounded sum divided by a small count.
proof fn lemma_divided(s: Datum, k: nat)
    requires
        binary32::is_finite(s),
        0 < k < 0x100_0000,
        nearness::size(binary32::signed(s)) <= pow2(276),
    ensures
        binary32::is_finite(binary32::quotient(s, binary32::whole(k))),
        0x100_0000 * rounding::distance(
            binary32::signed(binary32::quotient(s, binary32::whole(k))) * k,
            binary32::signed(s),
        ) <= nearness::size(binary32::signed(s)) + 0x80_0000 * k,
{
    let unit = nearness::one() as int;
    let d = binary32::whole(k);
    let v = binary32::signed(s);
    let num = rounding::units(s->magnitude);
    lemma_pow2_pos(ONE_EXPONENT as nat);
    binary32::lemma_whole_exact(k);
    lemma_mul_strictly_positive(k as int, unit);
    lemma_pow2_adds(252, 24);
    lemma2_to64();
    lemma_pow2_pos(252);
    assert(num * unit < 0x1ff_ffff * pow2(252) * (k * unit)) by (nonlinear_arith)
        requires
            num <= 0x100_0000 * pow2(252),
            pow2(252) > 0,
            k > 0,
            unit > 0,
    ;
    rounding::lemma_overflow((num * unit) as nat, (k * unit) as nat);
    rounding::lemma_nearest((num * unit) as nat, (k * unit) as nat);
    let q = binary32::quotient(s, d);
    assert(binary32::is_finite(q));
    nearness::lemma_quotient_error(s, d);
    let l = binary32::signed(q);
    let gap = rounding::distance(l * k, v);
    let whole_size = nearness::size(v);
    assert(rounding::distance(l * (k * unit), v * unit) == gap * unit) by (nonlinear_arith)
        requires
            gap == rounding::distance(l * k, v),
            unit > 0,
    ;
    assert(nearness::size(v * unit) == whole_size * unit) by (nonlinear_arith)
        requires
            whole_size == nearness::size(v),
            unit > 0,
    ;
    assert(0x100_0000 * gap <= whole_size + 0x80_0000 * k) by (nonlinear_arith)
        requires
            0x100_0000 * (gap * unit) <= whole_size * unit + 0x80_0000 * (k * unit),
            unit > 0,
    ;
}

/// The level of a range is the mean of the amplitudes of the bands that it takes in, up to
/// rounding. With `k` bands, none with an amplitude above `most` units in size, it is off by at
/// most `k + 2` parts in two to the power of 24 of `most`, and half a unit.
pub proof fn lemma_level_near_mean(bands: Seq<Datum>, sampling_rate: nat, j: int, most: int)
    requires
        0 <= j < 100,
        most >= 0,
        0 < members(sampling_rate, bands.len(), j, bands.len()) < 0x100_0000,
        most * members(sampling_rate, bands.len(), j, bands.len()) <= pow2(275),
        forall|i: int|
            0 <= i < bands.len() && #[trigger] takes_in(sampling_rate, bands.len(), i, j)
                ==> binary32::is_finite(bands[i]) && nearness::size(binary32::signed(bands[i]))
                <= most,
    ensures
        transformation::log_levels(bands, sampling_rate)[j] is Some,
        ({
            let k = members(sampling_rate, bands.len(), j, bands.len());
            let level = transformation::log_levels(bands, sampling_rate)[j]->0;
            &&& binary32::is_finite(level)
            &&& 0x100_0000 * rounding::distance(
                binary32::signed(level) * k,
                exact_total(bands, sampling_rate, j, bands.len()),
            ) <= k * (most * (k + 2) + 0x80_0000)
        }),
{
    let n = bands.len();
    let k = members(sampling_rate, n, j, n);
    let s = transformation::range_sum(bands, sampling_rate, j, n);
    let total = exact_total(bands, sampling_rate, j, n);
    let error = rounding::distance(binary32::signed(s), total);
    let part = most * k;
    lemma_members_counted(sampling_rate, n, j, n);
    lemma_range_sum_near_total(bands, sampling_rate, j, n, most);
    assert(error <= part && most * (k * k) == part * k && k * (most * (k + 2) + 0x80_0000) == part
        * k + 2 * part + 0x80_0000 * k) by (nonlinear_arith)
        requires
            0x100_0000 * error <= most * (k * k),
            part == most * k,
            k < 0x100_0000,
            most >= 0,
    ;
    lemma_pow2_unfold(276);
    lemma_divided(s, k);
}

/// When one band of a range gets another amplitude, the level of the range moves by the change
/// divided by the number of its bands, up to rounding.
pub proof fn lemma_level_moves_with_band(
    bands: Seq<Datum>,
    sampling_rate: nat,
    j: int,
    i: int,
    amplitude: Datum,
    most: int,
)
    requires
        0 <= j < 100,
        0 <= i < bands.len(),
        most >= 0,
        takes_in(sampling_rate, bands.len(), i, j),
        members(sampling_rate, bands.len(), j, bands.len()) < 0x100_0000,
        most * members(sampling_rate, bands.len(), j, bands.len()) <= pow2(275),
        binary32::is_finite(amplitude),
        nearness::size(binary32::signed(amplitude)) <= most,
        forall|k: int|
            0 <= k < bands.len() && #[trigger] takes_in(sampling_rate, bands.len(), k, j)
                ==> binary32::is_finite(bands[k]) && nearness::size(binary32::signed(bands[k]))
                <= most,
    ensures
        ({
            let k = members(sampling_rate, bands.len(), j, bands.len());
            let before = transformation::log_levels(bands, sampling_rate)[j];
            let after = transformation::log_levels(
                bands.update(i, amplitude),
                sampling_rate,
            )[j];
            &&& before is Some && after is Some
            &&& 0x100_0000 * rounding::distance(
                (binary32::signed(after->0) - binary32::signed(before->0)) * k,
                binary32::signed(amplitude) - binary32::signed(bands[i]),
            ) <= 2 * (k * (most * (k + 2) + 0x80_0000))
        }),
{
    let n = bands.len();
    let k = members(sampling_rate, n, j, n);
    let changed = bands.update(i, amplitude);
    lemma_some_member(sampling_rate, n, j, n);
    lemma_level_near_mean(bands, sampling_rate, j, most);
    lemma_level_near_mean(changed, sampling_rate, j, most);
    lemma_total_by_band(bands, sampling_rate, j, n, i, amplitude);
    let before = binary32::signed(transformation::log_levels(bands, sampling_rate)[j]->0);
    let after = binary32::signed(transformation::log_levels(changed, sampling_rate)[j]->0);
    assert((after - before) * k == after * k - before * k) by (nonlinear_arith);
}

/// The exact sum of amplitudes from `least` to `greatest` is between the multiples of these.
proof fn lemma_total_between(
    bands: Seq<Datum>,
    sampling_rate: nat,
    j: int,
    n: nat,
    least: int,
    greatest: int,
)
    requires
        n <= bands.len(),
        forall|i: int|
            0 <= i < n && #[trigger] takes_in(sampling_rate, bands.len(), i, j) ==> least
                <= binary32::signed(bands[i]) <= greatest,
    ensures
        ({
            let k = members(sampling_rate, bands.len(), j, n);
            k * least <= exact_total(bands, sampling_rate, j, n) <= k * greatest
        }),
    decreases n,
{
    if n == 0 {
        assert(0 * least == 0 && 0 * greatest == 0) by (nonlinear_arith);
    } else {
        let before = members(sampling_rate, bands.len(), j, (n - 1) as nat);
        lemma_total_between(bands, sampling_rate, j, (n - 1) as nat, least, greatest);
        assert((before + 1) * least == before * least + least && (before + 1) * greatest == before
            * greatest + greatest) by (nonlinear_arith);
    }
}

/// The level of a range is between the least and the greatest amplitude of its bands, up to
/// rounding.
pub proof fn lemma_level_between_amplitudes(
    bands: Seq<Datum>,
    sampling_rate: nat,
    j: int,
    least: int,
    greatest: int,
    most: int,
)
    requires
        0 <= j < 100,
        -most <= least,
        greatest <= most,
        0 < members(sampling_rate, bands.len(), j, bands.len()) < 0x100_0000,
        most * members(sampling_rate, bands.len(), j, bands.len()) <= pow2(275),
        forall|i: int|
            0 <= i < bands.len() && #[trigger] takes_in(sampling_rate, bands.len(), i, j)
                ==> binary32::is_finite(bands[i]) && least <= binary32::signed(bands[i])
                <= greatest,
    ensures
        transformation::log_levels(bands, sampling_rate)[j] is Some,
        ({
            let k = members(sampling_rate, bands.len(), j, bands.len());
            let level = transformation::log_levels(bands, sampling_rate)[j]->0;
            let slack = most * (k + 2) + 0x80_0000;
            &&& binary32::is_finite(level)
            &&& 0x100_0000 * least - slack <= 0x100_0000 * binary32::signed(level) <= 0x100_0000
                * greatest + slack
        }),
{
    let n = bands.len();
    let k = members(sampling_rate, n, j, n);
    let total = exact_total(bands, sampling_rate, j, n);
    lemma_some_member(sampling_rate, n, j, n);
    lemma_level_near_mean(bands, sampling_rate, j, most);
    lemma_total_between(bands, sampling_rate, j, n, least, greatest);
    let l = binary32::signed(transformation::log_levels(bands, sampling_rate)[j]->0);
    let slack = most * (k + 2) + 0x80_0000;
    assert(0x100_0000 * least - slack <= 0x100_0000 * l <= 0x100_0000 * greatest + slack)
        by (nonlinear_arith)
        requires
            0x100_0000 * rounding::distance(l * k, total) <= k * slack,
            k * least <= total <= k * greatest,
            k > 0,
    ;
}

/// The sums of `k` equal amplitudes, where they stay exact.
proof fn lemma_equal_total(
    bands: Seq<Datum>,
    sampling_rate: nat,
    j: int,
    n: nat,
    amplitude: Datum,
    sig: nat,
    e: nat,
)
    requires
        n <= bands.len(),
        binary32::is_finite(amplitude),
        nearness::size(binary32::signed(amplitude)) == sig * pow2(e),
        e <= 253,
        sig * members(sampling_rate, bands.len(), j, n) < 0x100_0000,
        forall|i: int|
            0 <= i < n && #[trigger] takes_in(sampling_rate, bands.len(), i, j) ==> bands[i]
                == amplitude,
    ensures
        ({
            let k = members(sampling_rate, bands.len(), j, n);
            let s = transformation::range_sum(bands, sampling_rate, j, n);
            &&& binary32::is_finite(s)
            &&& binary32::signed(s) == k * binary32::signed(amplitude)
        }),
    decreases n,
{
    let c = binary32::signed(amplitude);
    assert(rounding::units(0) == 0);
    if n == 0 {
        assert(0 * c == 0) by (nonlinear_arith);
    } else {
        let k = members(sampling_rate, bands.len(), j, n);
        let before = members(sampling_rate, bands.len(), j, (n - 1) as nat);
        lemma_belongs_to_taker(sampling_rate, bands.len(), n - 1, j);
        lemma_mul_inequality(before as int, k as int, sig as int);
        lemma_mul_is_commutative(before as int, sig as int);
        lemma_mul_is_commutative(k as int, sig as int);
        lemma_equal_total(bands, sampling_rate, j, (n - 1) as nat, amplitude, sig, e);
        if takes_in(sampling_rate, bands.len(), n - 1, j) {
            let s = transformation::range_sum(bands, sampling_rate, j, (n - 1) as nat);
            let value = binary32::signed(s) + c;
            assert((before + 1) * c == before * c + c) by (nonlinear_arith);
            let num = nearness::size(value) as nat;
            let mag = binary32::lemma_exact_size(sig * k, e);
            assert(num == sig * k * pow2(e)) by (nonlinear_arith)
                requires
                    value == k * c,
                    num == nearness::size(value),
                    nearness::size(c) == sig * pow2(e),
                    k > 0,
            ;
            rounding::lemma_nearest_exact(mag, 1);
            assert(rounding::units(mag) * 1 == num);
        }
    }
}

/// The level of a range whose bands all have the same amplitude is that amplitude, whenever its
/// multiples have at most 24 binary digits. This holds of zero for any number of bands.
pub proof fn lemma_level_of_equal_bands(
    bands: Seq<Datum>,
    sampling_rate: nat,
    j: int,
    amplitude: Datum,
    sig: nat,
    e: nat,
)
    requires
        0 <= j < 100,
        binary32::is_finite(amplitude),
        nearness::size(binary32::signed(amplitude)) == sig * pow2(e),
        e <= 253,
        members(sampling_rate, bands.len(), j, bands.len()) > 0,
        bands.len() <= u32::MAX,
        sig * members(sampling_rate, bands.len(), j, bands.len()) < 0x100_0000,
        forall|i: int|
            0 <= i < bands.len() && #[trigger] takes_in(sampling_rate, bands.len(), i, j)
                ==> bands[i] == amplitude,
    ensures
        transformation::log_levels(bands, sampling_rate)[j] is Some,
        binary32::is_finite(transformation::log_levels(bands, sampling_rate)[j]->0),
        binary32::signed(transformation::log_levels(bands, sampling_rate)[j]->0)
            == binary32::signed(amplitude),
{
    let n = bands.len();
    let k = members(sampling_rate, n, j, n);
    let c = binary32::signed(amplitude);
    let s = transformation::range_sum(bands, sampling_rate, j, n);
    let d = binary32::whole(k);
    let unit = nearness::one();
    lemma_pow2_pos(ONE_EXPONENT as nat);
    lemma_members_counted(sampling_rate, n, j, n);
    lemma_some_member(sampling_rate, n, j, n);
    lemma_equal_total(bands, sampling_rate, j, n, amplitude, sig, e);
    binary32::lemma_whole_finite(k);
    rounding::lemma_units_increase(0, d->magnitude);
    assert(rounding::units(0) == 0);
    if sig == 0 {
        assert(0 * pow2(e) == 0 && k * 0 == 0) by (nonlinear_arith);
        if s->magnitude > 0 {
            rounding::lemma_units_increase(0, s->magnitude);
        }
        assert(0 * unit == 0) by (nonlinear_arith);
        rounding::lemma_rounds_small(0, rounding::units(d->magnitude));
    } else {
        assert(k < 0x100_0000) by (nonlinear_arith)
            requires
                sig * k < 0x100_0000,
                sig > 0,
        ;
        binary32::lemma_whole_exact(k);
        let mag = amplitude->magnitude;
        let num = rounding::units(s->magnitude);
        lemma_mul_strictly_positive(k as int, unit as int);
        lemma_pow2_pos(e);
        lemma_mul_strictly_positive(sig as int, pow2(e) as int);
        assert(num * unit == rounding::units(mag) * (k * unit) && (k * c > 0 <==> c > 0)
            && k * c != 0) by (nonlinear_arith)
            requires
                num == nearness::size(k * c),
                rounding::units(mag) == nearness::size(c),
                k > 0,
                c != 0,
        ;
        rounding::lemma_nearest_exact(mag, k * unit);
        assert(binary32::quotient(s, d) == binary32::number(
            s->negative,
            rounding::nearest(num * unit, k * unit),
        ));
        assert(s->negative == amplitude->negative);
    }
}

/// What is no gap stays as it is.
pub proof fn lemma_value_kept(data: Seq<Option<Datum>>, i: int)
    requires
        0 <= i < data.len(),
        data[i] is Some,
    ensures
        transformation::filled(data, i) == data[i]->0,
{
}

/// Where there are only gaps, zero is filled in.
pub proof fn lemma_all_gaps(data: Seq<Option<Datum>>, i: int)
    requires
        0 <= i < data.len(),
        forall|k: int| 0 <= k < data.len() ==> #[trigger] data[k] is None,
    ensures
        transformation::filled(data, i) == binary32::number(false, 0),
{
    transformation::lemma_left_is_nearest(data, i);
    transformation::lemma_right_is_nearest(data, i + 1);
}

/// Gaps before the first value are filled with it.
pub proof fn lemma_gap_before_first(data: Seq<Option<Datum>>, i: int, r: int)
    requires
        0 <= i < r < data.len(),
        forall|k: int| 0 <= k < r ==> #[trigger] data[k] is None,
        data[r] is Some,
    ensures
        transformation::filled(data, i) == data[r]->0,
{
    transformation::lemma_left_is_nearest(data, i);
    transformation::lemma_right_is_nearest(data, i + 1);
}

/// Gaps after the last value are filled with it.
pub proof fn lemma_gap_after_last(data: Seq<Option<Datum>>, l: int, i: int)
    requires
        0 <= l < i < data.len(),
        forall|k: int| l < k < data.len() ==> #[trigger] data[k] is None,
        data[l] is Some,
    ensures
        transformation::filled(data, i) == data[l]->0,
{
    transformation::lemma_left_is_nearest(data, i);
    transformation::lemma_right_is_nearest(data, i + 1);
}

/// A gap between two values is filled in steps that are each rounded: the fraction `t` of the way,
/// what is left of one, the two values weighted with these, and their sum.
pub proof fn lemma_gap_between_steps(data: Seq<Option<Datum>>, l: int, i: int, r: int)
    requires
        0 <= l < i < r < data.len(),
        r < 0x100_0000,
        data[l] is Some,
        data[r] is Some,
        binary32::is_finite(data[l]->0),
        binary32::is_finite(data[r]->0),
        forall|k: int| l < k < r ==> #[trigger] data[k] is None,
    ensures
        exists|t: Datum, rest: Datum, a: Datum, b: Datum|
            {
                &&& #[trigger] binary32::is_rounding(t, (i - l) * nearness::one(), (r - l) as nat)
                &&& #[trigger] binary32::is_rounding(
                    rest,
                    nearness::one() - binary32::signed(t),
                    1,
                )
                &&& #[trigger] binary32::is_rounding(
                    a,
                    binary32::signed(data[l]->0) * binary32::signed(rest),
                    nearness::one(),
                )
                &&& #[trigger] binary32::is_rounding(
                    b,
                    binary32::signed(data[r]->0) * binary32::signed(t),
                    nearness::one(),
                )
                &&& transformation::filled(data, i) == binary32::sum(a, b)
                &&& binary32::is_finite(a) && binary32::is_finite(b) ==> binary32::is_rounding(
                    transformation::filled(data, i),
                    binary32::signed(a) + binary32::signed(b),
                    1,
                )
            },
{
    let t = binary32::quotient(
        binary32::whole((i - l) as nat),
        binary32::whole((r - l) as nat),
    );
    let rest = binary32::difference(binary32::whole(1), t);
    let a = binary32::product(data[l]->0, rest);
    let b = binary32::product(data[r]->0, t);
    lemma_between(data, l, i, r);
    lemma_fraction_sizes((i - l) as nat, (r - l) as nat);
    nearness::lemma_sum_rounds(binary32::whole(1), binary32::opposite(t));
    nearness::lemma_product_rounds(data[l]->0, rest);
    nearness::lemma_product_rounds(data[r]->0, t);
    nearness::lemma_sum_rounds(a, b);
    binary32::lemma_whole_exact(1);
    assert(binary32::is_rounding(t, (i - l) * nearness::one(), (r - l) as nat));
    assert(binary32::is_rounding(rest, nearness::one() - binary32::signed(t), 1));
    assert(binary32::is_rounding(
        a,
        binary32::signed(data[l]->0) * binary32::signed(rest),
        nearness::one(),
    ));
    assert(binary32::is_rounding(
        b,
        binary32::signed(data[r]->0) * binary32::signed(t),
        nearness::one(),
    ));
}

/// A gap with its two neighbours.
proof fn lemma_between(data: Seq<Option<Datum>>, l: int, i: int, r: int)
    requires
        0 <= l < i < r < data.len(),
        r < 0x100_0000,
        data[l] is Some,
        data[r] is Some,
        forall|k: int| l < k < r ==> #[trigger] data[k] is None,
    ensures
        ({
            let t = binary32::quotient(
                binary32::whole((i - l) as nat),
                binary32::whole((r - l) as nat),
            );
            let rest = binary32::difference(binary32::whole(1), t);
            transformation::filled(data, i) == binary32::sum(
                binary32::product(data[l]->0, rest),
                binary32::product(data[r]->0, t),
            )
        }),
{
    transformation::lemma_left_is_nearest(data, i);
    transformation::lemma_right_is_nearest(data, i + 1);
    assert(transformation::left_of(data, i) == Some(l));
    assert(transformation::right_from(data, i + 1) == Some(r));
    binary32::lemma_whole_difference_exact(l as nat, i as nat);
    binary32::lemma_whole_difference_exact(l as nat, r as nat);
}

/// The fraction `s / d` and what is left of one are near these, and neither is above one.
proof fn lemma_fraction_sizes(s: nat, d: nat)
    requires
        0 < s < d < 0x100_0000,
    ensures
        ({
            let unit = nearness::one();
            let t = binary32::quotient(binary32::whole(s), binary32::whole(d));
            let rest = binary32::difference(binary32::whole(1), t);
            &&& binary32::is_finite(t)
            &&& binary32::is_finite(rest)
            &&& 0 <= binary32::signed(t) <= unit
            &&& 0 <= binary32::signed(rest) <= unit
            &&& binary32::is_rounding(t, (s * unit) as int, d)
            &&& 0x100_0000 * rounding::distance(binary32::signed(t) * d, (s * unit) as int) <= s
                * unit
            &&& 0x100_0000 * rounding::distance(binary32::signed(rest) * d, (d - s) * unit) <= 2
                * (d * unit)
        }),
{
    let unit = nearness::one();
    let x = binary32::whole(s);
    let y = binary32::whole(d);
    let t = binary32::quotient(x, y);
    let rest = binary32::difference(binary32::whole(1), t);
    let w = binary32::signed(t);
    let u = binary32::signed(rest);
    lemma_pow2_pos(ONE_EXPONENT as nat);
    binary32::lemma_whole_exact(1);
    binary32::lemma_whole_exact(s);
    binary32::lemma_whole_exact(d);
    binary32::lemma_proper_fraction(s, d);
    lemma_mul_strictly_positive(d as int, unit as int);
    lemma_mul_strict_inequality(s as int, d as int, unit as int);
    lemma2_to64();
    lemma_pow2_adds(64, 85);
    rounding::lemma_pow2_le(64, 85);
    assert(unit >= 0x1_0000_0000_0000_0000) by (nonlinear_arith)
        requires
            unit == pow2(64) * pow2(85),
            pow2(64) == 0x1_0000_0000_0000_0000,
            pow2(85) >= pow2(64),
    ;
    // The fraction.
    nearness::lemma_quotient_error(x, y);
    assert(0x80_0000 * (d * unit) <= s * unit * unit) by (nonlinear_arith)
        requires
            d < 0x100_0000,
            s > 0,
            unit >= 0x1_0000_0000_0000_0000,
    ;
    let gap = rounding::distance(w * d, (s * unit) as int);
    assert(rounding::distance(w * (d * unit), ((s * unit) * unit) as int) == gap * unit) by (nonlinear_arith)
        requires
            gap == rounding::distance(w * d, (s * unit) as int),
            unit > 0,
    ;
    assert(nearness::size(((s * unit) * unit) as int) == s * unit * unit) by (nonlinear_arith)
        requires
            unit > 0,
            s > 0,
    ;
    assert(0x100_0000 * gap <= s * unit) by (nonlinear_arith)
        requires
            0x100_0000 * (gap * unit) <= s * unit * unit,
            unit > 0,
    ;
    nearness::lemma_quotient_rounds(x, y);
    lemma_rounding_scaled(t, (s * unit) as int, d, unit);
    // What is left.
    binary32::lemma_whole_order(s, d);
    binary32::lemma_fraction_of_one(x, y);
    nearness::lemma_sum_error(binary32::whole(1), binary32::opposite(t));
    rounding::lemma_nearest_exact(binary32::whole(1)->magnitude, 1);
    assert(rounding::units(binary32::whole(1)->magnitude) * 1 == unit);
    rounding::lemma_nearest_keeps_order((unit - w) as nat, 1, unit, 1);
    if rest->magnitude < binary32::whole(1)->magnitude {
        rounding::lemma_units_increase(rest->magnitude, binary32::whole(1)->magnitude);
    }
    let off = rounding::distance(u, unit - w);
    assert(0x100_0000 * off <= unit);
    assert(0x100_0000 * rounding::distance(u * d, (d - s) * unit) <= 2 * (d * unit))
        by (nonlinear_arith)
        requires
            off == rounding::distance(u, unit - w),
            0x100_0000 * off <= unit,
            0x100_0000 * rounding::distance(w * d, (s * unit) as int) <= s * unit,
            0 < s < d,
            unit > 0,
    ;
}

/// Rounding goes by the ratio alone.
proof fn lemma_rounding_scaled(x: Datum, num: int, den: nat, factor: nat)
    requires
        factor > 0,
        binary32::is_rounding(x, num * factor, den * factor),
    ensures
        binary32::is_rounding(x, num, den),
{
    let edge = 0x1ff_ffff * pow2(252) * den;
    let far = 0x1ff_ffff * pow2(252) * (den * factor);
    assert(far == edge * factor) by (nonlinear_arith)
        requires
            edge == 0x1ff_ffff * pow2(252) * den,
            far == 0x1ff_ffff * pow2(252) * (den * factor),
    ;
    assert((-far < num * factor < far <==> -edge < num < edge) && (num * factor < 0 <==> num < 0)
        && (num * factor != 0 <==> num != 0)) by (nonlinear_arith)
        requires
            far == edge * factor,
            factor > 0,
    ;
    if -edge < num < edge {
        assert forall|y: Datum| #[trigger] binary32::is_finite(y) implies {
            let gap = rounding::distance(binary32::signed(x) * den, num);
            let other_gap = rounding::distance(binary32::signed(y) * den, num);
            gap < other_gap || gap == other_gap && (binary32::signed(x) == binary32::signed(y)
                || x->magnitude % 2 == 0)
        } by {
            let a = binary32::signed(x);
            let b = binary32::signed(y);
            let gap = rounding::distance(a * den, num);
            let other_gap = rounding::distance(b * den, num);
            lemma_distance_scaled(a, num, den as int, factor as int);
            lemma_distance_scaled(b, num, den as int, factor as int);
            assert((gap * factor < other_gap * factor <==> gap < other_gap) && (gap * factor
                == other_gap * factor <==> gap == other_gap)) by (nonlinear_arith)
                requires
                    factor > 0,
            ;
        }
    }
}

proof fn lemma_distance_scaled(a: int, num: int, den: int, factor: int)
    requires
        factor > 0,
    ensures
        rounding::distance(a * (den * factor), num * factor) == rounding::distance(a * den, num)
            * factor,
{
    let p = a * den;
    assert(a * (den * factor) == p * factor) by (nonlinear_arith)
        requires
            p == a * den,
    ;
    assert(rounding::distance(p * factor, num * factor) == rounding::distance(p, num) * factor)
        by (nonlinear_arith)
        requires
            factor > 0,
    ;
}

/// A value weighted with a fraction `x` near `want / d`.
proof fn lemma_weighted(value: Datum, weight: Datum, want: int, d: nat, most: int)
    requires
        binary32::is_finite(value),
        binary32::is_finite(weight),
        nearness::size(binary32::signed(value)) <= most <= pow2(275),
        0 <= binary32::signed(weight) <= nearness::one(),
        0 < d,
        0x100_0000 * rounding::distance(binary32::signed(weight) * d, want * nearness::one()) <= 2
            * (d * nearness::one()),
    ensures
        binary32::is_finite(binary32::product(value, weight)),
        0x100_0000 * nearness::size(binary32::signed(binary32::product(value, weight)))
            <= 0x100_0001 * most + 0x80_0000,
        0x100_0000 * rounding::distance(
            binary32::signed(binary32::product(value, weight)) * d,
            binary32::signed(value) * want,
        ) <= d * (3 * most + 0x80_0000),
{
    let unit = nearness::one() as int;
    let a = binary32::signed(value);
    let x = binary32::signed(weight);
    let ax = a * x;
    lemma_pow2_pos(ONE_EXPONENT as nat);
    assert(nearness::size(ax) <= most * unit && rounding::units(value->magnitude) * rounding::units(
        weight->magnitude,
    ) == nearness::size(ax)) by (nonlinear_arith)
        requires
            nearness::size(a) <= most,
            0 <= x <= unit,
            ax == a * x,
            nearness::size(a) == rounding::units(value->magnitude),
            x == rounding::units(weight->magnitude),
    ;
    let num = rounding::units(value->magnitude) * rounding::units(weight->magnitude);
    lemma_pow2_adds(252, 23);
    lemma2_to64();
    lemma_pow2_pos(252);
    assert(num < 0x1ff_ffff * pow2(252) * unit) by (nonlinear_arith)
        requires
            num <= most * unit,
            most <= pow2(252) * 0x80_0000,
            pow2(252) > 0,
            unit > 0,
    ;
    rounding::lemma_overflow(num, unit as nat);
    rounding::lemma_nearest(num, unit as nat);
    nearness::lemma_product_error(value, weight);
    let p = binary32::signed(binary32::product(value, weight));
    assert(0x100_0000 * nearness::size(p) <= 0x100_0001 * most + 0x80_0000) by (nonlinear_arith)
        requires
            0x100_0000 * rounding::distance(p * unit, ax) <= nearness::size(ax) + 0x80_0000 * unit,
            nearness::size(ax) <= most * unit,
            unit > 0,
    ;
    let du = d * unit;
    let off = rounding::distance(x * d, want * unit);
    // The weight is off by `off / d`.
    assert(0x100_0000 * rounding::distance(ax * d, a * want * unit) <= 2 * (most * du))
        by (nonlinear_arith)
        requires
            off == rounding::distance(x * d, want * unit),
            0x100_0000 * off <= 2 * du,
            nearness::size(a) <= most,
            ax == a * x,
    ;
    // The product is rounded.
    assert(0x100_0000 * rounding::distance(p * d * unit, ax * d) <= (most + 0x80_0000) * du)
        by (nonlinear_arith)
        requires
            0x100_0000 * rounding::distance(p * unit, ax) <= nearness::size(ax) + 0x80_0000 * unit,
            nearness::size(ax) <= most * unit,
            du == d * unit,
            d > 0,
    ;
    let pd = p * d;
    let aw = a * want;
    let bound = 3 * most + 0x80_0000;
    assert(bound * du == 2 * (most * du) + (most + 0x80_0000) * du) by (nonlinear_arith)
        requires
            bound == 3 * most + 0x80_0000,
    ;
    let gap = rounding::distance(pd, aw);
    assert(rounding::distance(pd * unit, aw * unit) == gap * unit) by (nonlinear_arith)
        requires
            gap == rounding::distance(pd, aw),
            unit > 0,
    ;
    assert(0x100_0000 * (gap * unit) <= bound * du);
    assert(0x100_0000 * gap <= d * bound) by (nonlinear_arith)
        requires
            0x100_0000 * (gap * unit) <= bound * (d * unit),
            unit > 0,
    ;
}

/// A gap between two values is filled with the value on the straight line between them, up to
/// rounding. With neither value above `most` units in size, it is off by at most one part in two
/// to the power of 20 of `most`, and two units.
pub proof fn lemma_gap_on_line(data: Seq<Option<Datum>>, l: int, i: int, r: int, most: int)
    requires
        0 <= l < i < r < data.len(),
        r < 0x100_0000,
        data[l] is Some,
        data[r] is Some,
        binary32::is_finite(data[l]->0),
        binary32::is_finite(data[r]->0),
        nearness::size(binary32::signed(data[l]->0)) <= most,
        nearness::size(binary32::signed(data[r]->0)) <= most,
        most <= pow2(275),
        forall|k: int| l < k < r ==> #[trigger] data[k] is None,
    ensures
        binary32::is_finite(transformation::filled(data, i)),
        0x100_0000 * rounding::distance(
            binary32::signed(transformation::filled(data, i)) * (r - l),
            binary32::signed(data[l]->0) * (r - i) + binary32::signed(data[r]->0) * (i - l),
        ) <= (r - l) * (16 * most + 0x200_0000),
{
    let s = (i - l) as nat;
    let d = (r - l) as nat;
    let t = binary32::quotient(binary32::whole(s), binary32::whole(d));
    let rest = binary32::difference(binary32::whole(1), t);
    let a = binary32::product(data[l]->0, rest);
    let b = binary32::product(data[r]->0, t);
    lemma_between(data, l, i, r);
    lemma_fraction_sizes(s, d);
    lemma_pow2_pos(ONE_EXPONENT as nat);
    lemma_mul_strict_inequality(s as int, d as int, nearness::one() as int);
    lemma_weighted(data[l]->0, rest, d - s, d, most);
    lemma_weighted(data[r]->0, t, s as int, d, most);
    let p = binary32::signed(a);
    let q = binary32::signed(b);
    let num = nearness::size(p + q) as nat;
    lemma_pow2_adds(252, 23);
    lemma2_to64();
    lemma_pow2_pos(252);
    assert(num < 0x1ff_ffff * pow2(252) * 1);
    rounding::lemma_overflow(num, 1);
    rounding::lemma_nearest(num, 1);
    nearness::lemma_sum_error(a, b);
    let x = binary32::signed(transformation::filled(data, i));
    assert(num <= 4 * most + 4);
    assert(0x100_0000 * rounding::distance(x * d, (p + q) * d) <= d * (4 * most + 4))
        by (nonlinear_arith)
        requires
            0x100_0000 * rounding::distance(x, p + q) <= 4 * most + 4,
            d > 0,
    ;
    assert((p + q) * d == p * d + q * d) by (nonlinear_arith);
    assert(d * (4 * most + 4) + 2 * (d * (3 * most + 0x80_0000)) <= d * (16 * most + 0x200_0000))
        by (nonlinear_arith)
        requires
            d > 0,
            most >= 0,
    ;
}

/// From one gap to the next the filled values move by the same step towards the right neighbour,
/// up to rounding.
pub proof fn lemma_gaps_move_steadily(
    data: Seq<Option<Datum>>,
    l: int,
    i: int,
    r: int,
    most: int,
)
    requires
        0 <= l < i,
        i + 1 < r < data.len(),
        r < 0x100_0000,
        data[l] is Some,
        data[r] is Some,
        binary32::is_finite(data[l]->0),
        binary32::is_finite(data[r]->0),
        nearness::size(binary32::signed(data[l]->0)) <= most,
        nearness::size(binary32::signed(data[r]->0)) <= most,
        most <= pow2(275),
        forall|k: int| l < k < r ==> #[trigger] data[k] is None,
    ensures
        0x100_0000 * rounding::distance(
            (binary32::signed(transformation::filled(data, i + 1)) - binary32::signed(
                transformation::filled(data, i),
            )) * (r - l),
            binary32::signed(data[r]->0) - binary32::signed(data[l]->0),
        ) <= 2 * ((r - l) * (16 * most + 0x200_0000)),
{
    let a = binary32::signed(data[l]->0);
    let b = binary32::signed(data[r]->0);
    let x = binary32::signed(transformation::filled(data, i));
    let y = binary32::signed(transformation::filled(data, i + 1));
    let d = r - l;
    lemma_gap_on_line(data, l, i, r, most);
    lemma_gap_on_line(data, l, i + 1, r, most);
    assert((y - x) * d == y * d - x * d && a * (r - (i + 1)) == a * (r - i) - a && b * (i + 1 - l)
        == b * (i - l) + b) by (nonlinear_arith);
}

/// A filled value is between its neighbours, up to rounding.
pub proof fn lemma_gap_between_neighbours(
    data: Seq<Option<Datum>>,
    l: int,
    i: int,
    r: int,
    least: int,
    greatest: int,
    most: int,
)
    requires
        0 <= l < i < r < data.len(),
        r < 0x100_0000,
        data[l] is Some,
        data[r] is Some,
        binary32::is_finite(data[l]->0),
        binary32::is_finite(data[r]->0),
        -most <= least <= binary32::signed(data[l]->0) <= greatest <= most,
        least <= binary32::signed(data[r]->0) <= greatest,
        most <= pow2(275),
        forall|k: int| l < k < r ==> #[trigger] data[k] is None,
    ensures
        ({
            let x = binary32::signed(transformation::filled(data, i));
            let slack = 16 * most + 0x200_0000;
            0x100_0000 * least - slack <= 0x100_0000 * x <= 0x100_0000 * greatest + slack
        }),
{
    let a = binary32::signed(data[l]->0);
    let b = binary32::signed(data[r]->0);
    let x = binary32::signed(transformation::filled(data, i));
    let d = r - l;
    let s = i - l;
    let slack = 16 * most + 0x200_0000;
    lemma_gap_on_line(data, l, i, r, most);
    let line = a * (r - i) + b * s;
    assert(least * d <= line <= greatest * d) by (nonlinear_arith)
        requires
            line == a * (r - i) + b * s,
            r - i == d - s,
            0 < s < d,
            least <= a <= greatest,
            least <= b <= greatest,
    ;
    assert(0x100_0000 * least - slack <= 0x100_0000 * x <= 0x100_0000 * greatest + slack)
        by (nonlinear_arith)
        requires
            0x100_0000 * rounding::distance(x * d, line) <= d * slack,
            least * d <= line <= greatest * d,
            d > 0,
    ;
}

/// A gap between two values that are not both finite is filled with the infinite one, and with
/// what is no number if one of them is none or they are opposite infinities.
pub proof fn lemma_gap_by_unusual_values(data: Seq<Option<Datum>>, l: int, i: int, r: int)
    requires
        0 <= l < i < r < data.len(),
        r < 0x100_0000,
        data[l] is Some,
        data[r] is Some,
        forall|k: int| l < k < r ==> #[trigger] data[k] is None,
    ensures
        data[l]->0 is NotANumber || data[r]->0 is NotANumber ==> transformation::filled(
            data,
            i,
        ) is NotANumber,
        binary32::is_infinite(data[l]->0) && (binary32::is_finite(data[r]->0) || data[r] == data[l])
            ==> transformation::filled(data, i) == data[l]->0,
        binary32::is_infinite(data[r]->0) && binary32::is_finite(data[l]->0)
            ==> transformation::filled(data, i) == data[r]->0,
        binary32::is_infinite(data[l]->0) && data[r]->0 == binary32::opposite(data[l]->0)
            ==> transformation::filled(data, i) is NotANumber,
{
    let s = (i - l) as nat;
    let d = (r - l) as nat;
    let t = binary32::quotient(binary32::whole(s), binary32::whole(d));
    let rest = binary32::difference(binary32::whole(1), t);
    let x = data[l]->0;
    let y = data[r]->0;
    lemma_between(data, l, i, r);
    binary32::lemma_proper_fraction(s, d);
    lemma_fraction_sizes(s, d);
    if binary32::is_finite(x) {
        lemma_fraction_keeps_finite(x, rest);
    }
    if binary32::is_finite(y) {
        lemma_fraction_keeps_finite(y, t);
    }
}

/// A finite number times a fraction of one is finite.
proof fn lemma_fraction_keeps_finite(x: Datum, weight: Datum)
    requires
        binary32::is_finite(x),
        binary32::is_finite(weight),
        0 <= binary32::signed(weight) <= nearness::one(),
    ensures
        binary32::is_finite(binary32::product(x, weight)),
{
    let unit = nearness::one();
    let a = rounding::units(x->magnitude);
    let b = rounding::units(weight->magnitude);
    assert(rounding::units(0) == 0);
    lemma_pow2_pos(ONE_EXPONENT as nat);
    assert((a * b) * 1 <= a * unit) by (nonlinear_arith)
        requires
            b <= unit,
            a >= 0,
    ;
    lemma_mul_inequality((a * b) as int, (a * unit) as int, unit as int);
    rounding::lemma_nearest_keeps_order(a * b, unit, a * unit, unit);
    rounding::lemma_nearest_exact(x->magnitude, unit);
}

/// A gap between any two values is filled by the same formula, however far they are apart.
pub proof fn lemma_gap_between_any(data: Seq<Option<Datum>>, l: int, i: int, r: int)
    requires
        0 <= l < i < r < data.len(),
        data[l] is Some,
        data[r] is Some,
        forall|k: int| l < k < r ==> #[trigger] data[k] is None,
    ensures
        ({
            let t = binary32::quotient(
                binary32::sum(
                    binary32::whole(i as nat),
                    binary32::opposite(binary32::whole(l as nat)),
                ),
                binary32::sum(
                    binary32::whole(r as nat),
                    binary32::opposite(binary32::whole(l as nat)),
                ),
            );
            let rest = binary32::sum(binary32::whole(1), binary32::opposite(t));
            transformation::filled(data, i) == binary32::sum(
                binary32::product(data[l]->0, rest),
                binary32::product(data[r]->0, t),
            )
        }),
{
    transformation::lemma_left_is_nearest(data, i);
    transformation::lemma_right_is_nearest(data, i + 1);
    assert(transformation::left_of(data, i) == Some(l));
    assert(transformation::right_from(data, i + 1) == Some(r));
}

/// The sums on the way to the level of a range.
spec fn running_sums(bands: Seq<Datum>, sampling_rate: nat, j: int) -> Seq<Datum> {
    Seq::new(
        bands.len() + 1,
        |i: int| transformation::range_sum(bands, sampling_rate, j, i as nat),
    )
}

/// The level of a range is found by adding up the bands that it takes in, one after the other from
/// zero on, and dividing by their number.
pub proof fn lemma_level_steps(bands: Seq<Datum>, sampling_rate: nat, j: int)
    requires
        0 <= j < 100,
    ensures
        exists|sums: Seq<Datum>|
            {
                &&& sums.len() == bands.len() + 1
                &&& sums[0] == binary32::number(false, 0)
                &&& forall|i: int|
                    0 <= i < bands.len() ==> #[trigger] sums[i + 1] == if takes_in(
                        sampling_rate,
                        bands.len(),
                        i,
                        j,
                    ) {
                        binary32::sum(sums[i], bands[i])
                    } else {
                        sums[i]
                    }
                &&& members(sampling_rate, bands.len(), j, bands.len()) > 0
                    ==> transformation::log_levels(bands, sampling_rate)[j] == Some(
                    binary32::quotient(
                        #[trigger] sums.last(),
                        binary32::whole(members(sampling_rate, bands.len(), j, bands.len())),
                    ),
                )
            },
{
    let sums = running_sums(bands, sampling_rate, j);
    lemma_members_counted(sampling_rate, bands.len(), j, bands.len());
    assert forall|i: int| 0 <= i < bands.len() implies #[trigger] sums[i + 1] == if takes_in(
        sampling_rate,
        bands.len(),
        i,
        j,
    ) {
        binary32::sum(sums[i], bands[i])
    } else {
        sums[i]
    } by {
        lemma_belongs_to_taker(sampling_rate, bands.len(), i, j);
    }
    assert(sums.last() == transformation::range_sum(bands, sampling_rate, j, bands.len()));
}

/// Lists stand for their data one for one.
pub proof fn lemma_data_kept(list: Seq<Binary32>, gapped: Seq<Option<Binary32>>, i: int)
    ensures
        transformation::data_of(list).len() == list.len(),
        0 <= i < list.len() ==> transformation::data_of(list)[i] == list[i]@,
        transformation::gapped_data_of(gapped).len() == gapped.len(),
        0 <= i < gapped.len() ==> (transformation::gapped_data_of(gapped)[i] is Some
            <==> gapped[i] is Some),
        0 <= i < gapped.len() && gapped[i] is Some ==> transformation::gapped_data_of(gapped)[i]->0
            == gapped[i]->0@,
{
}

/// The bands of a spectrum above its threshold.
spec fn heights(bands: Seq<Datum>, db_threshold: Datum) -> Seq<Datum> {
    Seq::new(
        bands.len(),
        |i: int| binary32::sum(bands[i], binary32::opposite(db_threshold)),
    )
}

/// The levels of a spectrum are those of its bands, each raised by the size of the threshold, with
/// gaps filled. A raised band is the rounding of the exact difference, and zero without a sign when
/// the band is at the threshold.
pub proof fn lemma_levels_of_heights(bands: Seq<Datum>, db_threshold: Datum, sampling_rate: nat)
    requires
        binary32::is_finite(db_threshold),
        binary32::signed(db_threshold) < 0,
    ensures
        transformation::transformed(bands, db_threshold, sampling_rate).len() == 100,
        exists|raised: Seq<Datum>|
            {
                &&& raised.len() == bands.len()
                &&& forall|i: int|
                    #![trigger raised[i]]
                    0 <= i < bands.len() ==> {
                        &&& binary32::is_finite(bands[i]) ==> binary32::is_rounding(
                            raised[i],
                            binary32::signed(bands[i]) - binary32::signed(db_threshold),
                            1,
                        )
                        &&& binary32::is_finite(bands[i]) && binary32::signed(bands[i])
                            == binary32::signed(db_threshold) ==> raised[i] == binary32::number(
                            false,
                            0,
                        )
                        &&& bands[i] is NotANumber || binary32::is_infinite(bands[i]) ==> raised[i]
                            == bands[i]
                    }
                &&& forall|j: int|
                    0 <= j < 100 ==> #[trigger] transformation::transformed(
                        bands,
                        db_threshold,
                        sampling_rate,
                    )[j] == transformation::filled(
                        #[trigger] transformation::log_levels(raised, sampling_rate),
                        j,
                    )
            },
{
    let raised = heights(bands, db_threshold);
    assert(raised =~= Seq::new(
        bands.len(),
        |i: int| binary32::sum(bands[i], binary32::opposite(db_threshold)),
    ));
    assert forall|i: int|
        #![trigger raised[i]]
        0 <= i < bands.len() implies {
        &&& binary32::is_finite(bands[i]) ==> binary32::is_rounding(
            raised[i],
            binary32::signed(bands[i]) - binary32::signed(db_threshold),
            1,
        )
        &&& binary32::is_finite(bands[i]) && binary32::signed(bands[i]) == binary32::signed(
            db_threshold,
        ) ==> raised[i] == binary32::number(false, 0)
        &&& bands[i] is NotANumber || binary32::is_infinite(bands[i]) ==> raised[i] == bands[i]
    } by {
        nearness::lemma_sum_rounds(bands[i], binary32::opposite(db_threshold));
    }
    let levels = transformation::log_levels(raised, sampling_rate);
    assert(levels.len() == 100);
}

/// Above a threshold of minus infinity all bands are infinitely high, except for those that are
/// minus infinity or no number: these have no height.
pub proof fn lemma_levels_above_infinite_threshold(bands: Seq<Datum>, sampling_rate: nat)
    ensures
        exists|raised: Seq<Datum>|
            {
                let lowest = binary32::number(true, INFINITE as nat);
                &&& raised.len() == bands.len()
                &&& forall|i: int|
                    #![trigger raised[i]]
                    0 <= i < bands.len() ==> {
                        &&& binary32::is_finite(bands[i]) || bands[i] == binary32::opposite(lowest)
                            ==> raised[i] == binary32::opposite(lowest)
                        &&& bands[i] is NotANumber || bands[i] == lowest
                            ==> raised[i] is NotANumber
                    }
                &&& forall|j: int|
                    0 <= j < 100 ==> #[trigger] transformation::transformed(
                        bands,
                        lowest,
                        sampling_rate,
                    )[j] == transformation::filled(
                        #[trigger] transformation::log_levels(raised, sampling_rate),
                        j,
                    )
            },
{
    let lowest = binary32::number(true, INFINITE as nat);
    let raised = heights(bands, lowest);
    assert(raised =~= Seq::new(
        bands.len(),
        |i: int| binary32::sum(bands[i], binary32::opposite(lowest)),
    ));
    let levels = transformation::log_levels(raised, sampling_rate);
    assert(levels.len() == 100);
}

/// The levels go by the distance of the bands from the threshold alone: two spectra whose bands are
/// equally far above their thresholds have the same levels.
pub proof fn lemma_levels_by_distance(
    bands: Seq<Datum>,
    db_threshold: Datum,
    other_bands: Seq<Datum>,
    other_threshold: Datum,
    sampling_rate: nat,
)
    requires
        binary32::is_finite(db_threshold),
        binary32::is_finite(other_threshold),
        binary32::signed(db_threshold) < 0,
        binary32::signed(other_threshold) < 0,
        bands.len() == other_bands.len(),
        forall|i: int|
            #![trigger bands[i], other_bands[i]]
            0 <= i < bands.len() ==> binary32::is_finite(bands[i]) && binary32::is_finite(
                other_bands[i],
            ) && binary32::signed(bands[i]) - binary32::signed(db_threshold) == binary32::signed(
                other_bands[i],
            ) - binary32::signed(other_threshold),
    ensures
        transformation::transformed(bands, db_threshold, sampling_rate)
            == transformation::transformed(other_bands, other_threshold, sampling_rate),
{
    let raised = heights(bands, db_threshold);
    let other_raised = heights(other_bands, other_threshold);
    assert forall|i: int| 0 <= i < bands.len() implies raised[i] == other_raised[i] by {
        let b = bands[i];
        let c = other_bands[i];
        assert(binary32::signed(b) - binary32::signed(db_threshold) == binary32::signed(c)
            - binary32::signed(other_threshold));
    }
    assert(raised =~= other_raised);
    assert(raised =~= Seq::new(
        bands.len(),
        |i: int| binary32::sum(bands[i], binary32::opposite(db_threshold)),
    ));
    assert(other_raised =~= Seq::new(
        other_bands.len(),
        |i: int| binary32::sum(other_bands[i], binary32::opposite(other_threshold)),
    ));
}

/// Zero without a sign.
spec fn nought() -> Datum {
    binary32::number(false, 0)
}

proof fn lemma_silent_sum(raised: Seq<Datum>, sampling_rate: nat, j: int, n: nat)
    requires
        n <= raised.len(),
        forall|i: int| 0 <= i < raised.len() ==> #[trigger] raised[i] == nought(),
    ensures
        transformation::range_sum(raised, sampling_rate, j, n) == nought(),
    decreases n,
{
    assert(rounding::units(0) == 0);
    if n > 0 {
        lemma_silent_sum(raised, sampling_rate, j, (n - 1) as nat);
        assert(raised[n - 1] == nought());
    }
}

/// Zero weighted with a fraction is zero.
proof fn lemma_nought_weighted(weight: Datum)
    requires
        binary32::is_plain(weight),
    ensures
        binary32::product(nought(), weight) == nought(),
{
    let b = rounding::units(weight->magnitude);
    assert(rounding::units(0) == 0);
    lemma_pow2_pos(ONE_EXPONENT as nat);
    assert(0 * b == 0) by (nonlinear_arith);
    rounding::lemma_rounds_small(0, nearness::one());
}

/// A spectrum that is at its threshold in all bands has the level zero in all ranges.
pub proof fn lemma_silence(bands: Seq<Datum>, db_threshold: Datum, sampling_rate: nat, j: int)
    requires
        0 <= j < 100,
        bands.len() <= u32::MAX,
        binary32::is_finite(db_threshold),
        binary32::signed(db_threshold) < 0,
        forall|i: int|
            0 <= i < bands.len() ==> binary32::is_finite(#[trigger] bands[i]) && binary32::signed(
                bands[i],
            ) == binary32::signed(db_threshold),
    ensures
        transformation::transformed(bands, db_threshold, sampling_rate).len() == 100,
        transformation::transformed(bands, db_threshold, sampling_rate)[j] == binary32::number(
            false,
            0,
        ),
{
    let raised = heights(bands, db_threshold);
    let levels = transformation::log_levels(raised, sampling_rate);
    assert(raised =~= Seq::new(
        bands.len(),
        |i: int| binary32::sum(bands[i], binary32::opposite(db_threshold)),
    ));
    assert(rounding::units(0) == 0);
    assert forall|i: int| 0 <= i < raised.len() implies #[trigger] raised[i] == nought() by {
        assert(binary32::signed(bands[i]) == binary32::signed(db_threshold));
    }
    assert forall|k: int| 0 <= k < 100 && (#[trigger] levels[k]) is Some implies levels[k]->0
        == nought() by {
        let count = transformation::range_count(raised.len(), sampling_rate, k, raised.len());
        let d = binary32::whole(count);
        lemma_silent_sum(raised, sampling_rate, k, raised.len());
        lemma_members_counted(sampling_rate, raised.len(), k, raised.len());
        lemma_some_member(sampling_rate, raised.len(), k, raised.len());
        binary32::lemma_whole_finite(count);
        rounding::lemma_units_increase(0, d->magnitude);
        assert(0 * nearness::one() == 0) by (nonlinear_arith);
        rounding::lemma_rounds_small(0, rounding::units(d->magnitude));
    }
    transformation::lemma_left_is_nearest(levels, j);
    transformation::lemma_right_is_nearest(levels, j + 1);
    match (transformation::left_of(levels, j), transformation::right_from(levels, j + 1)) {
        (Some(l), Some(r)) => {
            if levels[j] is None {
                let s = (j - l) as nat;
                let d = (r - l) as nat;
                lemma_between(levels, l, j, r);
                binary32::lemma_proper_fraction(s, d);
                let t = binary32::quotient(binary32::whole(s), binary32::whole(d));
                lemma_nought_weighted(t);
                lemma_nought_weighted(binary32::difference(binary32::whole(1), t));
            }
        },
        _ => {},
    }
}

/// The exact sums of bands and of their rounded distances from the threshold.
proof fn lemma_total_of_heights(
    bands: Seq<Datum>,
    db_threshold: Datum,
    sampling_rate: nat,
    j: int,
    n: nat,
    most: int,
)
    requires
        n <= bands.len(),
        most >= 0,
        most <= pow2(275),
        binary32::is_finite(db_threshold),
        forall|i: int|
            0 <= i < n && #[trigger] takes_in(sampling_rate, bands.len(), i, j)
                ==> binary32::is_finite(bands[i]) && nearness::size(
                binary32::signed(bands[i]) - binary32::signed(db_threshold),
            ) <= most,
    ensures
        ({
            let k = members(sampling_rate, bands.len(), j, n);
            0x100_0000 * rounding::distance(
                exact_total(heights(bands, db_threshold), sampling_rate, j, n),
                exact_total(bands, sampling_rate, j, n) - k * binary32::signed(db_threshold),
            ) <= k * most
        }),
        forall|i: int|
            0 <= i < n && #[trigger] takes_in(sampling_rate, bands.len(), i, j)
                ==> binary32::is_finite(heights(bands, db_threshold)[i]) && nearness::size(
                binary32::signed(heights(bands, db_threshold)[i]),
            ) <= 2 * most,
    decreases n,
{
    let t = binary32::signed(db_threshold);
    let raised = heights(bands, db_threshold);
    if n == 0 {
        assert(0 * t == 0 && 0 * most == 0) by (nonlinear_arith);
    } else {
        let before = members(sampling_rate, bands.len(), j, (n - 1) as nat);
        lemma_total_of_heights(bands, db_threshold, sampling_rate, j, (n - 1) as nat, most);
        if takes_in(sampling_rate, bands.len(), n - 1, j) {
            let b = bands[n - 1];
            let up = binary32::opposite(db_threshold);
            assert((before + 1) * t == before * t + t && (before + 1) * most == before * most
                + most) by (nonlinear_arith);
            let num = nearness::size(binary32::signed(b) - t) as nat;
            lemma_pow2_adds(252, 23);
            lemma2_to64();
            lemma_pow2_pos(252);
            assert(num < 0x1ff_ffff * pow2(252) * 1);
            rounding::lemma_overflow(num, 1);
            rounding::lemma_nearest(num, 1);
            nearness::lemma_sum_error(b, up);
        }
    }
}

/// The level of a range is the mean of its bands less the threshold, up to rounding. With `k`
/// bands, none further than `most` units from the threshold, it is off by at most `2 * (k + 3)`
/// parts in two to the power of 24 of `most`, and half a unit.
pub proof fn lemma_level_above_threshold(
    bands: Seq<Datum>,
    db_threshold: Datum,
    sampling_rate: nat,
    j: int,
    most: int,
)
    requires
        0 <= j < 100,
        most >= 0,
        binary32::is_finite(db_threshold),
        0 < members(sampling_rate, bands.len(), j, bands.len()) < 0x100_0000,
        2 * most * members(sampling_rate, bands.len(), j, bands.len()) <= pow2(275),
        forall|i: int|
            0 <= i < bands.len() && #[trigger] takes_in(sampling_rate, bands.len(), i, j)
                ==> binary32::is_finite(bands[i]) && nearness::size(
                binary32::signed(bands[i]) - binary32::signed(db_threshold),
            ) <= most,
    ensures
        ({
            let k = members(sampling_rate, bands.len(), j, bands.len());
            let level = transformation::transformed(bands, db_threshold, sampling_rate)[j];
            &&& binary32::is_finite(level)
            &&& 0x100_0000 * rounding::distance(
                binary32::signed(level) * k,
                exact_total(bands, sampling_rate, j, bands.len()) - k * binary32::signed(
                    db_threshold,
                ),
            ) <= k * (2 * most * (k + 3) + 0x80_0000)
        }),
{
    let n = bands.len();
    let k = members(sampling_rate, n, j, n);
    let raised = heights(bands, db_threshold);
    assert(raised =~= Seq::new(
        bands.len(),
        |i: int| binary32::sum(bands[i], binary32::opposite(db_threshold)),
    ));
    assert(most <= pow2(275)) by (nonlinear_arith)
        requires
            2 * most * k <= pow2(275),
            k > 0,
            most >= 0,
    ;
    lemma_total_of_heights(bands, db_threshold, sampling_rate, j, n, most);
    lemma_level_near_mean(raised, sampling_rate, j, 2 * most);
    assert(k * (2 * most * (k + 2) + 0x80_0000) + k * most <= k * (2 * most * (k + 3) + 0x80_0000))
        by (nonlinear_arith)
        requires
            k > 0,
            most >= 0,
    ;
}

/// A range that takes in no band has the level on the straight line between those of the nearest
/// ranges to both sides that do, up to rounding.
pub proof fn lemma_empty_range_on_line(
    bands: Seq<Datum>,
    db_threshold: Datum,
    sampling_rate: nat,
    l: int,
    j: int,
    r: int,
    most: int,
)
    requires
        0 <= l < j < r < 100,
        exists|i: int|
            0 <= i < bands.len() && #[trigger] takes_in(sampling_rate, bands.len(), i, l),
        exists|i: int|
            0 <= i < bands.len() && #[trigger] takes_in(sampling_rate, bands.len(), i, r),
        forall|i: int, k: int|
            0 <= i < bands.len() && l < k < r ==> !#[trigger] takes_in(
                sampling_rate,
                bands.len(),
                i,
                k,
            ),
        most <= pow2(275),
        ({
            let levels = transformation::transformed(bands, db_threshold, sampling_rate);
            &&& binary32::is_finite(levels[l])
            &&& binary32::is_finite(levels[r])
            &&& nearness::size(binary32::signed(levels[l])) <= most
            &&& nearness::size(binary32::signed(levels[r])) <= most
        }),
    ensures
        ({
            let levels = transformation::transformed(bands, db_threshold, sampling_rate);
            &&& binary32::is_finite(levels[j])
            &&& 0x100_0000 * rounding::distance(
                binary32::signed(levels[j]) * (r - l),
                binary32::signed(levels[l]) * (r - j) + binary32::signed(levels[r]) * (j - l),
            ) <= (r - l) * (16 * most + 0x200_0000)
        }),
{
    let raised = heights(bands, db_threshold);
    let levels = transformation::log_levels(raised, sampling_rate);
    assert(raised =~= Seq::new(
        bands.len(),
        |i: int| binary32::sum(bands[i], binary32::opposite(db_threshold)),
    ));
    lemma_level_where_bands(raised, sampling_rate, l);
    lemma_level_where_bands(raised, sampling_rate, r);
    assert forall|k: int| l < k < r implies #[trigger] levels[k] is None by {
        lemma_level_where_bands(raised, sampling_rate, k);
    }
    lemma_gap_on_line(levels, l, j, r, most);
}

/// Which ranges have levels of their own, whatever the threshold is.
proof fn lemma_levels_of_takers(bands: Seq<Datum>, db_threshold: Datum, sampling_rate: nat)
    ensures
        ({
            let levels = transformation::log_levels(heights(bands, db_threshold), sampling_rate);
            &&& levels.len() == 100
            &&& forall|m: int|
                0 <= m < 100 ==> (#[trigger] levels[m] is Some <==> exists|i: int|
                    0 <= i < bands.len() && #[trigger] takes_in(sampling_rate, bands.len(), i, m))
            &&& transformation::transformed(bands, db_threshold, sampling_rate) =~= Seq::new(
                100,
                |m: int| transformation::filled(levels, m),
            )
        }),
{
    let raised = heights(bands, db_threshold);
    let levels = transformation::log_levels(raised, sampling_rate);
    assert(raised =~= Seq::new(
        bands.len(),
        |i: int| binary32::sum(bands[i], binary32::opposite(db_threshold)),
    ));
    assert forall|m: int| 0 <= m < 100 implies (#[trigger] levels[m] is Some <==> exists|i: int|
        0 <= i < bands.len() && #[trigger] takes_in(sampling_rate, bands.len(), i, m)) by {
        lemma_level_where_bands(raised, sampling_rate, m);
    }
}

/// Ranges below the first one that takes in a band have its level.
pub proof fn lemma_ranges_below_first(
    bands: Seq<Datum>,
    db_threshold: Datum,
    sampling_rate: nat,
    j: int,
    first: int,
)
    requires
        0 <= j < first < 100,
        exists|i: int|
            0 <= i < bands.len() && #[trigger] takes_in(sampling_rate, bands.len(), i, first),
        forall|i: int, k: int|
            0 <= i < bands.len() && 0 <= k < first ==> !#[trigger] takes_in(
                sampling_rate,
                bands.len(),
                i,
                k,
            ),
    ensures
        transformation::transformed(bands, db_threshold, sampling_rate)[j]
            == transformation::transformed(bands, db_threshold, sampling_rate)[first],
{
    let levels = transformation::log_levels(heights(bands, db_threshold), sampling_rate);
    lemma_levels_of_takers(bands, db_threshold, sampling_rate);
    assert(levels[first] is Some);
    lemma_gap_before_first(levels, j, first);
}

/// Ranges above the last one that takes in a band have its level.
pub proof fn lemma_ranges_above_last(
    bands: Seq<Datum>,
    db_threshold: Datum,
    sampling_rate: nat,
    last: int,
    j: int,
)
    requires
        0 <= last < j < 100,
        exists|i: int|
            0 <= i < bands.len() && #[trigger] takes_in(sampling_rate, bands.len(), i, last),
        forall|i: int, k: int|
            0 <= i < bands.len() && last < k < 100 ==> !#[trigger] takes_in(
                sampling_rate,
                bands.len(),
                i,
                k,
            ),
    ensures
        transformation::transformed(bands, db_threshold, sampling_rate)[j]
            == transformation::transformed(bands, db_threshold, sampling_rate)[last],
{
    let levels = transformation::log_levels(heights(bands, db_threshold), sampling_rate);
    lemma_levels_of_takers(bands, db_threshold, sampling_rate);
    assert(levels[last] is Some);
    lemma_gap_after_last(levels, last, j);
}

/// A spectrum without a band in any range has the level zero everywhere.
pub proof fn lemma_no_range_takes_in(
    bands: Seq<Datum>,
    db_threshold: Datum,
    sampling_rate: nat,
    j: int,
)
    requires
        0 <= j < 100,
        forall|i: int, k: int|
            0 <= i < bands.len() && 0 <= k < 100 ==> !#[trigger] takes_in(
                sampling_rate,
                bands.len(),
                i,
                k,
            ),
    ensures
        transformation::transformed(bands, db_threshold, sampling_rate)[j] == binary32::number(
            false,
            0,
        ),
{
    let levels = transformation::log_levels(heights(bands, db_threshold), sampling_rate);
    lemma_levels_of_takers(bands, db_threshold, sampling_rate);
    lemma_all_gaps(levels, j);
}

} // verus!
