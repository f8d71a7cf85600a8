//! The transformation of linear spectrum bands into levels on a logarithmic scale.

use crate::binary32;
use crate::binary32::{Binary32, Datum};
use crate::ffi_spectrum;
use crate::ffi_spectrum::{band_width, get_freq_for_band_n};
use crate::levels;
use crate::log_partition;
use crate::log_partition::{create_freq_tuples, freq_in_range};
use crate::nearness;
use crate::rounding;
use crate::rounding::INFINITE;
use vstd::arithmetic::mul::*;
use vstd::arithmetic::power2::*;
use vstd::prelude::*;

verus! {

/// What a spectrum was taken with.
#[derive(Debug)]
pub struct Config {
    /// Should be the same as in spectrum (negative value in db).
    pub db_threshold: Binary32,
    /// Should be the same as in spectrum (e.g. 44100, 96000).
    pub sampling_rate: u32,
}

/// The number of bands on the logarithmic scale.
pub const LOG_BANDS: u32 = 100;

/// The datum zero.
pub open spec fn zero() -> Datum {
    binary32::number(false, 0)
}

/// The data that a list of numbers stands for.
pub open spec fn data_of(list: Seq<Binary32>) -> Seq<Datum> {
    Seq::new(list.len(), |i: int| list[i]@)
}

/// The datum that a number stands for, where there is one.
pub open spec fn datum_of(x: Option<Binary32>) -> Option<Datum> {
    match x {
        Some(number) => Some(number@),
        None => None,
    }
}

/// The data that a list with gaps stands for.
pub open spec fn gapped_data_of(list: Seq<Option<Binary32>>) -> Seq<Option<Datum>> {
    Seq::new(list.len(), |i: int| datum_of(list[i]))
}

/// The last position before `i` that is no gap.
pub open spec fn left_of(data: Seq<Option<Datum>>, i: int) -> Option<int>
    decreases i,
{
    if i <= 0 {
        None
    } else if data[i - 1] is Some {
        Some(i - 1)
    } else {
        left_of(data, i - 1)
    }
}

/// The first position from `i` on that is no gap.
pub open spec fn right_from(data: Seq<Option<Datum>>, i: int) -> Option<int>
    decreases data.len() - i,
{
    if i >= data.len() {
        None
    } else if data[i] is Some {
        Some(i)
    } else {
        right_from(data, i + 1)
    }
}

/// How far `i` is on the way from `left` to `right`.
pub open spec fn progress(left: nat, i: nat, right: nat) -> Datum {
    binary32::quotient(
        binary32::difference(binary32::whole(i), binary32::whole(left)),
        binary32::difference(binary32::whole(right), binary32::whole(left)),
    )
}

/// The point at the fraction `t` of the way from `a` to `b`.
pub open spec fn interpolated(a: Datum, b: Datum, t: Datum) -> Datum {
    binary32::sum(
        binary32::product(a, binary32::difference(binary32::whole(1), t)),
        binary32::product(b, t),
    )
}

/// The datum at a position after gaps are filled: a gap takes the value between its nearest
/// neighbours, that of its only neighbour, or zero when there is none.
pub open spec fn filled(data: Seq<Option<Datum>>, i: int) -> Datum {
    match data[i] {
        Some(value) => value,
        None => match (left_of(data, i), right_from(data, i + 1)) {
            (None, None) => zero(),
            (None, Some(r)) => data[r]->0,
            (Some(l), None) => data[l]->0,
            (Some(l), Some(r)) => interpolated(
                data[l]->0,
                data[r]->0,
                progress(l as nat, i as nat, r as nat),
            ),
        },
    }
}

/// Gaps are replaced by zero.
pub fn none_to_zero(data: Vec<Option<Binary32>>) -> (levels: Vec<Binary32>)
    ensures
        levels.len() == data.len(),
        forall|i: int|
            #![trigger levels@[i]]
            0 <= i < data.len() ==> match data@[i] {
                Some(value) => levels@[i] == value,
                None => levels@[i]@ == zero(),
            },
        forall|i: int|
            0 <= i < data.len() && data@[i] is None ==> #[trigger] levels@[i].bits == 0,
{
    let mut levels: Vec<Binary32> = Vec::new();
    let mut i: usize = 0;
    while i < data.len()
        invariant
            i <= data.len(),
            levels.len() == i,
            forall|j: int|
                #![trigger levels@[j]]
                0 <= j < i ==> match data@[j] {
                    Some(value) => levels@[j] == value,
                    None => levels@[j]@ == zero(),
                },
            forall|j: int| 0 <= j < i && data@[j] is None ==> #[trigger] levels@[j].bits == 0,
        decreases data.len() - i,
    {
        let level: Binary32 = match data[i] {
            Some(value) => value,
            None => Binary32::from_bits(0),
        };
        levels.push(level);
        i = i + 1;
    }
    levels
}

/// The point at the fraction `t` of the way from `a` to `b`.
fn interpolate(a: Binary32, b: Binary32, t: Binary32) -> (x: Binary32)
    ensures
        x@ == interpolated(a@, b@, t@),
{
    a.times(Binary32::from_whole(1).minus(t)).plus(b.times(t))
}

/// The first position from `start` on that is no gap, and its value.
fn find_right(data: &Vec<Option<Binary32>>, start: usize) -> (right: Option<(usize, Binary32)>)
    requires
        start <= data.len(),
    ensures
        match right {
            Some((r, value)) => start <= r < data.len() && data@[r as int] == Some(value)
                && right_from(gapped_data_of(data@), start as int) == Some(r as int),
            None => right_from(gapped_data_of(data@), start as int) is None,
        },
{
    let mut r: usize = start;
    while r < data.len()
        invariant
            start <= r <= data.len(),
            right_from(gapped_data_of(data@), start as int) == right_from(
                gapped_data_of(data@),
                r as int,
            ),
        decreases data.len() - r,
    {
        if let Some(value) = data[r] {
            return Some((r, value));
        }
        r = r + 1;
    }
    None
}

/// Fills each gap from its nearest neighbours.
pub fn interpolate_empty(data: Vec<Option<Binary32>>) -> (levels: Vec<Binary32>)
    ensures
        levels.len() == data.len(),
        forall|i: int|
            0 <= i < data.len() ==> (#[trigger] levels@[i])@ == filled(gapped_data_of(data@), i),
        forall|i: int|
            0 <= i < data.len() && data@[i] is Some ==> #[trigger] levels@[i] == data@[i]->0,
{
    let ghost view = gapped_data_of(data@);
    let mut levels: Vec<Binary32> = Vec::new();
    let mut nearest_left: Option<(usize, Binary32)> = None;
    let mut i: usize = 0;
    while i < data.len()
        invariant
            i <= data.len(),
            view == gapped_data_of(data@),
            levels.len() == i,
            match nearest_left {
                Some((l, value)) => l < i && data@[l as int] == Some(value) && left_of(
                    view,
                    i as int,
                ) == Some(l as int),
                None => left_of(view, i as int) is None,
            },
            forall|j: int| 0 <= j < i ==> (#[trigger] levels@[j])@ == filled(view, j),
            forall|j: int| 0 <= j < i && data@[j] is Some ==> #[trigger] levels@[j] == data@[j]->0,
        decreases data.len() - i,
    {
        let level: Binary32 = match data[i] {
            Some(value) => {
                nearest_left = Some((i, value));
                value
            },
            None => {
                let nearest_right: Option<(usize, Binary32)> = find_right(&data, i + 1);
                match (nearest_left, nearest_right) {
                    (None, None) => Binary32::from_bits(0),
                    (None, Some(right)) => right.1,
                    (Some(left), None) => left.1,
                    (Some(left), Some(right)) => {
                        let l: Binary32 = Binary32::from_whole(left.0 as u64);
                        let r: Binary32 = Binary32::from_whole(right.0 as u64);
                        let t: Binary32 = Binary32::from_whole(i as u64).minus(l).over(r.minus(l));
                        interpolate(left.1, right.1, t)
                    },
                }
            },
        };
        levels.push(level);
        i = i + 1;
    }
    levels
}

/// The bands of a linear spectrum that fall into one range, added up.
#[derive(Clone, Copy)]
pub struct LogBandAggregator {
    pub sum_ffi_amplitudes: Binary32,
    pub ffi_bands_count: u32,
}

impl Default for LogBandAggregator {
    fn default() -> (aggregator: LogBandAggregator)
        ensures
            aggregator.sum_ffi_amplitudes@ == zero(),
            aggregator.ffi_bands_count == 0,
            aggregator.sum_ffi_amplitudes.bits == 0,
    {
        LogBandAggregator { sum_ffi_amplitudes: Binary32::from_bits(0), ffi_bands_count: 0 }
    }
}

/// The mean of `count` amplitudes with the given sum, where there are any.
pub open spec fn mean(total: Datum, count: nat) -> Option<Datum> {
    if count > 0 {
        Some(binary32::quotient(total, binary32::whole(count)))
    } else {
        None
    }
}

impl LogBandAggregator {
    /// Takes in the amplitude of one more band.
    pub fn add_ffi_band(&mut self, amplitude: Binary32)
        requires
            old(self).ffi_bands_count < u32::MAX,
        ensures
            final(self).sum_ffi_amplitudes@ == binary32::sum(
                old(self).sum_ffi_amplitudes@,
                amplitude@,
            ),
            final(self).ffi_bands_count == old(self).ffi_bands_count + 1,
            binary32::is_finite(old(self).sum_ffi_amplitudes@) && binary32::is_finite(amplitude@)
                ==> binary32::is_rounding(
                final(self).sum_ffi_amplitudes@,
                binary32::signed(old(self).sum_ffi_amplitudes@) + binary32::signed(amplitude@),
                1,
            ),
    {
        self.sum_ffi_amplitudes = self.sum_ffi_amplitudes.plus(amplitude);
        self.ffi_bands_count = self.ffi_bands_count + 1;
    }

    /// The mean amplitude of the bands taken in.
    pub fn get_avg(&self) -> (avg: Option<Binary32>)
        ensures
            datum_of(avg) == mean(self.sum_ffi_amplitudes@, self.ffi_bands_count as nat),
            avg is Some <==> self.ffi_bands_count > 0,
            avg is Some && binary32::is_finite(self.sum_ffi_amplitudes@) ==> exists|count: Datum|
                {
                    &&& #[trigger] binary32::is_rounding(
                        count,
                        self.ffi_bands_count * nearness::one(),
                        1,
                    )
                    &&& binary32::is_rounding(
                        avg->0@,
                        binary32::signed(self.sum_ffi_amplitudes@) * nearness::one(),
                        binary32::signed(count) as nat,
                    )
                },
            avg is Some && !binary32::is_finite(self.sum_ffi_amplitudes@) ==> avg->0@
                == self.sum_ffi_amplitudes@,
    {
        proof {
            let count = binary32::whole(self.ffi_bands_count as nat);
            binary32::lemma_whole_finite(self.ffi_bands_count as nat);
            nearness::lemma_whole_rounds(self.ffi_bands_count as nat);
            nearness::lemma_quotient_rounds(self.sum_ffi_amplitudes@, count);
            assert(binary32::is_rounding(count, self.ffi_bands_count * nearness::one(), 1));
            if self.ffi_bands_count > 0 {
                rounding::lemma_units_increase(0, count->magnitude);
            }
        }
        if self.ffi_bands_count > 0 {
            Some(
                self.sum_ffi_amplitudes.over(Binary32::from_whole(self.ffi_bands_count as u64)),
            )
        } else {
            None
        }
    }
}

/// The ranges of the logarithmic scale.
pub open spec fn log_ranges() -> Seq<(u32, u32)> {
    log_partition::partition(LOG_BANDS as nat)
}

/// Whether band `i` of a spectrum belongs to range `j`: the first one that holds its frequency.
pub open spec fn belongs(sampling_rate: nat, bands_count: nat, i: int, j: int) -> bool {
    log_partition::is_first_range(
        log_ranges(),
        ffi_spectrum::band_freq(ffi_spectrum::width(sampling_rate, bands_count), i as nat) as u32,
        j,
    )
}

/// The sum of those among the first `n` bands that belong to range `j`, added in order.
pub open spec fn range_sum(bands: Seq<Datum>, sampling_rate: nat, j: int, n: nat) -> Datum
    decreases n,
{
    if n == 0 {
        zero()
    } else {
        let before = range_sum(bands, sampling_rate, j, (n - 1) as nat);
        if belongs(sampling_rate, bands.len(), n - 1, j) {
            binary32::sum(before, bands[n - 1])
        } else {
            before
        }
    }
}

/// How many of the first `n` bands belong to range `j`.
pub open spec fn range_count(bands_count: nat, sampling_rate: nat, j: int, n: nat) -> nat
    decreases n,
{
    if n == 0 {
        0
    } else {
        let before = range_count(bands_count, sampling_rate, j, (n - 1) as nat);
        if belongs(sampling_rate, bands_count, n - 1, j) {
            before + 1
        } else {
            before
        }
    }
}

/// The levels of a spectrum on the logarithmic scale: for each range the mean of the bands that
/// belong to it, where there are any.
pub open spec fn log_levels(bands: Seq<Datum>, sampling_rate: nat) -> Seq<Option<Datum>> {
    Seq::new(
        LOG_BANDS as nat,
        |j: int|
            mean(
                range_sum(bands, sampling_rate, j, bands.len()),
                range_count(bands.len(), sampling_rate, j, bands.len()),
            ),
    )
}

proof fn lemma_range_count_bound(bands_count: nat, sampling_rate: nat, j: int, n: nat)
    ensures
        range_count(bands_count, sampling_rate, j, n) <= n,
    decreases n,
{
    if n > 0 {
        lemma_range_count_bound(bands_count, sampling_rate, j, (n - 1) as nat);
    }
}

/// Bands that do not belong to a range change nothing there.
proof fn lemma_range_settled(bands: Seq<Datum>, sampling_rate: nat, j: int, m: nat, n: nat)
    requires
        m <= n,
        forall|i: int| m <= i < n ==> !#[trigger] belongs(sampling_rate, bands.len(), i, j),
    ensures
        range_sum(bands, sampling_rate, j, n) == range_sum(bands, sampling_rate, j, m),
        range_count(bands.len(), sampling_rate, j, n) == range_count(
            bands.len(),
            sampling_rate,
            j,
            m,
        ),
    decreases n - m,
{
    if m < n {
        lemma_range_settled(bands, sampling_rate, j, m, (n - 1) as nat);
        assert(!belongs(sampling_rate, bands.len(), n - 1, j));
    }
}

/// The frequency of band `i` of a spectrum.
spec fn freq_of(sampling_rate: nat, bands_count: nat, i: int) -> u32 {
    ffi_spectrum::band_freq(ffi_spectrum::width(sampling_rate, bands_count), i as nat) as u32
}

/// Whether all bands from `i` on are above the first `l` ranges.
#[verifier::opaque]
spec fn passed(sampling_rate: nat, bands_count: nat, i: int, l: int) -> bool {
    forall|k: int, j: int|
        #![trigger freq_of(sampling_rate, bands_count, k), log_ranges()[j]]
        i <= k < bands_count && 0 <= j < l ==> log_ranges()[j].1 < freq_of(
            sampling_rate,
            bands_count,
            k,
        )
}

/// Whether the aggregators hold what the first `n` bands add up to.
#[verifier::opaque]
spec fn tallied(
    aggregators: Seq<LogBandAggregator>,
    bands: Seq<Datum>,
    sampling_rate: nat,
    n: nat,
) -> bool {
    &&& aggregators.len() == LOG_BANDS
    &&& forall|j: int|
        0 <= j < LOG_BANDS ==> {
            &&& (#[trigger] aggregators[j]).sum_ffi_amplitudes@ == range_sum(
                bands,
                sampling_rate,
                j,
                n,
            )
            &&& aggregators[j].ffi_bands_count == range_count(bands.len(), sampling_rate, j, n)
        }
}

/// A band that is in the current range belongs to it and to no other.
proof fn lemma_belongs_here(sampling_rate: nat, bands_count: nat, i: int, l: int)
    requires
        0 <= i < bands_count,
        0 <= l < LOG_BANDS,
        passed(sampling_rate, bands_count, i, l),
        log_partition::in_range(log_ranges()[l], freq_of(sampling_rate, bands_count, i)),
    ensures
        belongs(sampling_rate, bands_count, i, l),
        forall|j: int| j != l ==> !#[trigger] belongs(sampling_rate, bands_count, i, j),
{
    reveal(passed);
    let freq = freq_of(sampling_rate, bands_count, i);
    let ranges = log_ranges();
    assert(log_partition::is_first_range(ranges, freq, l));
    assert forall|j: int| j != l implies !#[trigger] belongs(sampling_rate, bands_count, i, j) by {
        if log_partition::is_first_range(ranges, freq, j) {
            assert(!log_partition::in_range(ranges[if j < l {
                j
            } else {
                l
            }], freq));
        }
    }
}

/// A band below the current range belongs to none.
proof fn lemma_belongs_nowhere(sampling_rate: nat, bands_count: nat, i: int, l: int)
    requires
        0 <= i < bands_count,
        0 <= l < LOG_BANDS,
        passed(sampling_rate, bands_count, i, l),
        freq_of(sampling_rate, bands_count, i) < log_ranges()[l].0,
    ensures
        forall|j: int| !#[trigger] belongs(sampling_rate, bands_count, i, j),
{
    reveal(passed);
    let freq = freq_of(sampling_rate, bands_count, i);
    let ranges = log_ranges();
    assert forall|j: int| !#[trigger] belongs(sampling_rate, bands_count, i, j) by {
        if 0 <= j < l {
            assert(ranges[j].1 < freq);
        } else if l <= j < LOG_BANDS {
            log_partition::lemma_partition_ordered(LOG_BANDS as nat, l, j);
        }
    }
}

/// When a band is above the current range, so are all later ones.
proof fn lemma_pass(sampling_rate: nat, bands_count: nat, i: int, l: int)
    requires
        0 <= i < bands_count <= u32::MAX,
        0 < sampling_rate <= u32::MAX,
        0 <= l < LOG_BANDS,
        passed(sampling_rate, bands_count, i, l),
        log_ranges()[l].1 < freq_of(sampling_rate, bands_count, i),
    ensures
        passed(sampling_rate, bands_count, i, l + 1),
{
    reveal(passed);
    let width = ffi_spectrum::width(sampling_rate, bands_count);
    ffi_spectrum::lemma_width_is_plain(sampling_rate, bands_count);
    assert forall|k: int, j: int|
        #![trigger freq_of(sampling_rate, bands_count, k), log_ranges()[j]]
        i <= k < bands_count && 0 <= j < l + 1 implies log_ranges()[j].1 < freq_of(
        sampling_rate,
        bands_count,
        k,
    ) by {
        ffi_spectrum::lemma_band_freqs_ordered(width, i as nat, k as nat);
    }
}

/// The tally after a band that belongs to range `l` was taken in there.
proof fn lemma_tally(
    before: Seq<LogBandAggregator>,
    after: Seq<LogBandAggregator>,
    bands: Seq<Datum>,
    sampling_rate: nat,
    i: int,
    l: int,
)
    requires
        0 <= i < bands.len(),
        0 <= l < LOG_BANDS,
        tallied(before, bands, sampling_rate, i as nat),
        belongs(sampling_rate, bands.len(), i, l),
        forall|j: int| j != l ==> !#[trigger] belongs(sampling_rate, bands.len(), i, j),
        after == before.update(l, after[l]),
        after[l].sum_ffi_amplitudes@ == binary32::sum(before[l].sum_ffi_amplitudes@, bands[i]),
        after[l].ffi_bands_count == before[l].ffi_bands_count + 1,
    ensures
        tallied(after, bands, sampling_rate, (i + 1) as nat),
{
    reveal(tallied);
    assert forall|j: int| 0 <= j < LOG_BANDS implies {
        &&& (#[trigger] after[j]).sum_ffi_amplitudes@ == range_sum(
            bands,
            sampling_rate,
            j,
            (i + 1) as nat,
        )
        &&& after[j].ffi_bands_count == range_count(bands.len(), sampling_rate, j, (i + 1) as nat)
    } by {
        let same = before[j];
        if j != l {
            assert(after[j] == same);
            assert(!belongs(sampling_rate, bands.len(), i, j));
        }
    }
}

/// The tally after bands that belong nowhere.
proof fn lemma_tally_unchanged(
    aggregators: Seq<LogBandAggregator>,
    bands: Seq<Datum>,
    sampling_rate: nat,
    m: nat,
    n: nat,
)
    requires
        m <= n,
        tallied(aggregators, bands, sampling_rate, m),
        forall|i: int, j: int| m <= i < n ==> !#[trigger] belongs(sampling_rate, bands.len(), i, j),
    ensures
        tallied(aggregators, bands, sampling_rate, n),
{
    reveal(tallied);
    assert forall|j: int| 0 <= j < LOG_BANDS implies {
        &&& (#[trigger] aggregators[j]).sum_ffi_amplitudes@ == range_sum(
            bands,
            sampling_rate,
            j,
            n,
        )
        &&& aggregators[j].ffi_bands_count == range_count(bands.len(), sampling_rate, j, n)
    } by {
        lemma_range_settled(bands, sampling_rate, j, m, n);
    }
}

/// Bands above all ranges belong nowhere.
proof fn lemma_all_passed(sampling_rate: nat, bands_count: nat, i: int)
    requires
        0 <= i,
        passed(sampling_rate, bands_count, i, LOG_BANDS as int),
    ensures
        forall|k: int, j: int|
            i <= k < bands_count ==> !#[trigger] belongs(sampling_rate, bands_count, k, j),
{
    reveal(passed);
    assert forall|k: int, j: int| i <= k < bands_count implies !#[trigger] belongs(
        sampling_rate,
        bands_count,
        k,
        j,
    ) by {
        if 0 <= j < LOG_BANDS {
            assert(log_ranges()[j].1 < freq_of(sampling_rate, bands_count, k));
        }
    }
}

/// One aggregator for each range, with nothing taken in.
fn empty_aggregators(Ghost(bands): Ghost<Seq<Datum>>, Ghost(sampling_rate): Ghost<nat>) -> (
aggregators: Vec<LogBandAggregator>)
    ensures
        tallied(aggregators@, bands, sampling_rate, 0),
{
    let mut aggregators: Vec<LogBandAggregator> = Vec::new();
    while aggregators.len() < LOG_BANDS as usize
        invariant
            aggregators.len() <= LOG_BANDS,
            forall|j: int|
                0 <= j < aggregators.len() ==> (#[trigger] aggregators@[j]).sum_ffi_amplitudes@
                    == zero() && aggregators@[j].ffi_bands_count == 0,
        decreases LOG_BANDS - aggregators.len(),
    {
        aggregators.push(Default::default());
    }
    proof {
        reveal(tallied);
    }
    aggregators
}

/// The mean of each range.
fn averages(
    aggregators: Vec<LogBandAggregator>,
    Ghost(bands): Ghost<Seq<Datum>>,
    Ghost(sampling_rate): Ghost<nat>,
) -> (levels: Vec<Option<Binary32>>)
    requires
        tallied(aggregators@, bands, sampling_rate, bands.len()),
    ensures
        levels.len() == LOG_BANDS,
        gapped_data_of(levels@) == log_levels(bands, sampling_rate),
{
    proof {
        reveal(tallied);
    }
    let mut levels: Vec<Option<Binary32>> = Vec::new();
    while levels.len() < aggregators.len()
        invariant
            levels.len() <= aggregators.len(),
            tallied(aggregators@, bands, sampling_rate, bands.len()),
            forall|j: int|
                0 <= j < levels.len() ==> datum_of(#[trigger] levels@[j]) == log_levels(
                    bands,
                    sampling_rate,
                )[j],
        decreases aggregators.len() - levels.len(),
    {
        proof {
            reveal(tallied);
        }
        levels.push(aggregators[levels.len()].get_avg());
    }
    assert(gapped_data_of(levels@) =~= log_levels(bands, sampling_rate));
    levels
}

/// The levels of a spectrum on the logarithmic scale. Bands and ranges are both in order of
/// frequency, so that one pass over the two finds the range of each band.
pub fn transform_ffi_to_log_scale(ffi_bands: Vec<Binary32>, sampling_rate: u32) -> (levels: Vec<
    Option<Binary32>,
>)
    requires
        0 < ffi_bands.len() <= u32::MAX,
        sampling_rate > 0,
    ensures
        levels.len() == LOG_BANDS,
        gapped_data_of(levels@) == log_levels(data_of(ffi_bands@), sampling_rate as nat),
        forall|j: int|
            0 <= j < 100 ==> (#[trigger] levels@[j] is Some <==> exists|i: int|
                0 <= i < ffi_bands.len() && #[trigger] levels::takes_in(
                    sampling_rate as nat,
                    ffi_bands@.len(),
                    i,
                    j,
                )),
{
    let ffi_bands_count: usize = ffi_bands.len();
    let log_bands_count: usize = LOG_BANDS as usize;
    let bw: Binary32 = band_width(sampling_rate, ffi_bands_count as u32);
    let log_freq_ranges: Vec<(u32, u32)> = create_freq_tuples(LOG_BANDS);

    let ghost bands = data_of(ffi_bands@);
    let ghost rate = sampling_rate as nat;
    let ghost count = bands.len();
    let mut log_band_aggregators: Vec<LogBandAggregator> = empty_aggregators(
        Ghost(bands),
        Ghost(rate),
    );
    let mut ffi_idx: usize = 0;
    let mut log_idx: usize = 0;
    proof {
        reveal(passed);
    }
    while ffi_idx < ffi_bands_count && log_idx < log_bands_count
        invariant
            ffi_bands_count == ffi_bands.len() <= u32::MAX,
            log_bands_count == LOG_BANDS,
            bands == data_of(ffi_bands@),
            count == bands.len(),
            rate == sampling_rate,
            rate > 0,
            bw@ == ffi_spectrum::width(rate, count),
            log_freq_ranges@ == log_ranges(),
            ffi_idx <= ffi_bands_count,
            log_idx <= log_bands_count,
            tallied(log_band_aggregators@, bands, rate, ffi_idx as nat),
            passed(rate, count, ffi_idx as int, log_idx as int),
        decreases (ffi_bands_count - ffi_idx) + (log_bands_count - log_idx),
    {
        let ffi_band_freq: u32 = get_freq_for_band_n(bw, ffi_idx as u32);
        let curr_log_freq_range: (u32, u32) = log_freq_ranges[log_idx];
        assert(ffi_band_freq == freq_of(rate, count, ffi_idx as int));

        if freq_in_range(curr_log_freq_range, ffi_band_freq) {
            let ghost before = log_band_aggregators@;
            proof {
                lemma_belongs_here(rate, count, ffi_idx as int, log_idx as int);
                lemma_range_count_bound(count, rate, log_idx as int, ffi_idx as nat);
                reveal(tallied);
            }
            let mut aggregator: LogBandAggregator = log_band_aggregators[log_idx];
            aggregator.add_ffi_band(ffi_bands[ffi_idx]);
            log_band_aggregators.set(log_idx, aggregator);
            proof {
                lemma_tally(
                    before,
                    log_band_aggregators@,
                    bands,
                    rate,
                    ffi_idx as int,
                    log_idx as int,
                );
                reveal(passed);
            }
            ffi_idx = ffi_idx + 1;
        } else if ffi_band_freq < curr_log_freq_range.0 {
            proof {
                lemma_belongs_nowhere(rate, count, ffi_idx as int, log_idx as int);
                lemma_tally_unchanged(
                    log_band_aggregators@,
                    bands,
                    rate,
                    ffi_idx as nat,
                    (ffi_idx + 1) as nat,
                );
                reveal(passed);
            }
            ffi_idx = ffi_idx + 1;
        } else {
            proof {
                lemma_pass(rate, count, ffi_idx as int, log_idx as int);
            }
            log_idx = log_idx + 1;
        }
    }
    proof {
        if ffi_idx < ffi_bands_count {
            lemma_all_passed(rate, count, ffi_idx as int);
            lemma_tally_unchanged(log_band_aggregators@, bands, rate, ffi_idx as nat, count);
        }
    }
    let levels: Vec<Option<Binary32>> = averages(log_band_aggregators, Ghost(bands), Ghost(rate));
    proof {
        assert forall|j: int| 0 <= j < 100 implies (#[trigger] levels@[j] is Some <==> exists|i: int|
            0 <= i < ffi_bands.len() && #[trigger] levels::takes_in(rate, count, i, j)) by {
            levels::lemma_level_where_bands(bands, rate, j);
            assert(gapped_data_of(levels@)[j] == datum_of(levels@[j]));
        }
    }
    levels
}

/// The levels on the logarithmic scale of a spectrum of decibels, each raised by the threshold
/// and gaps filled.
pub open spec fn transformed(
    bands: Seq<Datum>,
    db_threshold: Datum,
    sampling_rate: nat,
) -> Seq<Datum> {
    let raised = Seq::new(
        bands.len(),
        |i: int| binary32::sum(bands[i], binary32::opposite(db_threshold)),
    );
    let levels = log_levels(raised, sampling_rate);
    Seq::new(levels.len(), |j: int| filled(levels, j))
}

/// The levels of a spectrum, raised by the threshold, on the logarithmic scale without gaps.
pub fn transform_bands(bands: Vec<Binary32>, config: Config) -> (levels: Vec<Binary32>)
    requires
        binary32::is_less(config.db_threshold@, zero()),
        config.sampling_rate > 0,
        0 < bands.len() <= u32::MAX,
    ensures
        levels.len() == LOG_BANDS,
        data_of(levels@) == transformed(
            data_of(bands@),
            config.db_threshold@,
            config.sampling_rate as nat,
        ),
        binary32::is_finite(config.db_threshold@) && (forall|i: int|
            0 <= i < bands.len() ==> binary32::is_finite(#[trigger] bands@[i]@) && binary32::signed(
                bands@[i]@,
            ) == binary32::signed(config.db_threshold@)) ==> forall|j: int|
            0 <= j < 100 ==> (#[trigger] levels@[j])@ == binary32::number(false, 0),
{
    let offset: Binary32 = config.db_threshold.negate();
    let mut raised: Vec<Binary32> = Vec::new();
    while raised.len() < bands.len()
        invariant
            raised.len() <= bands.len(),
            forall|i: int|
                0 <= i < raised.len() ==> (#[trigger] raised@[i])@ == binary32::sum(
                    bands@[i]@,
                    offset@,
                ),
        decreases bands.len() - raised.len(),
    {
        raised.push(bands[raised.len()].plus(offset));
    }
    proof {
        assert(data_of(raised@) =~= Seq::new(
            bands@.len(),
            |i: int|
                binary32::sum(data_of(bands@)[i], binary32::opposite(config.db_threshold@)),
        ));
    }
    let log_levels: Vec<Option<Binary32>> = transform_ffi_to_log_scale(
        raised,
        config.sampling_rate,
    );
    let levels: Vec<Binary32> = interpolate_empty(log_levels);
    proof {
        let data = data_of(bands@);
        let all = transformed(data, config.db_threshold@, config.sampling_rate as nat);
        assert(data_of(levels@) =~= all);
        assert(rounding::units(0) == 0);
        if binary32::is_finite(config.db_threshold@) && (forall|i: int|
            0 <= i < bands.len() ==> binary32::is_finite(#[trigger] bands@[i]@) && binary32::signed(
                bands@[i]@,
            ) == binary32::signed(config.db_threshold@)) {
            assert forall|i: int| 0 <= i < data.len() implies binary32::is_finite(
                #[trigger] data[i],
            ) && binary32::signed(data[i]) == binary32::signed(config.db_threshold@) by {
                assert(binary32::is_finite(bands@[i]@));
            }
            assert forall|j: int| 0 <= j < 100 implies (#[trigger] levels@[j])@ == binary32::number(
                false,
                0,
            ) by {
                levels::lemma_silence(
                    data,
                    config.db_threshold@,
                    config.sampling_rate as nat,
                    j,
                );
                assert(data_of(levels@)[j] == levels@[j]@);
            }
        }
    }
    levels
}

/// The difference of two whole numbers in order is plain, and only zero for equal data.
proof fn lemma_whole_difference(m: nat, n: nat)
    requires
        m <= n <= u64::MAX,
    ensures
        binary32::is_plain(binary32::difference(binary32::whole(n), binary32::whole(m))),
        binary32::whole(m) != binary32::whole(n) ==> binary32::difference(
            binary32::whole(n),
            binary32::whole(m),
        )->magnitude > 0,
{
    let x = binary32::whole(m);
    let y = binary32::whole(n);
    let d = binary32::difference(y, x);
    binary32::lemma_whole_finite(m);
    binary32::lemma_whole_finite(n);
    binary32::lemma_whole_order(m, n);
    let gap = (binary32::signed(y) - binary32::signed(x)) as nat;
    rounding::lemma_nearest_exact(y->magnitude, 1);
    assert(rounding::units(y->magnitude) * 1 == rounding::units(y->magnitude));
    rounding::lemma_nearest_keeps_order(gap, 1, rounding::units(y->magnitude), 1);
    if x->magnitude < y->magnitude {
        rounding::lemma_units_increase(x->magnitude, y->magnitude);
        rounding::lemma_units_at(0, 1);
        lemma2_to64();
        rounding::lemma_nearest_exact(1, 1);
        rounding::lemma_nearest_keeps_order(1, 1, gap, 1);
    }
}

/// A position between two others is a fraction of the way from one to the other, whenever the
/// format tells the two apart.
pub proof fn lemma_progress_is_fraction(left: nat, i: nat, right: nat)
    requires
        left <= i <= right <= u64::MAX,
        binary32::whole(left) != binary32::whole(right),
    ensures
        binary32::is_at_most(zero(), progress(left, i, right)),
        binary32::is_at_most(progress(left, i, right), binary32::whole(1)),
{
    let x = binary32::whole(left);
    let a = binary32::difference(binary32::whole(i), x);
    let b = binary32::difference(binary32::whole(right), x);
    lemma_whole_difference(left, i);
    lemma_whole_difference(left, right);
    binary32::lemma_whole_finite(left);
    binary32::lemma_whole_finite(i);
    binary32::lemma_whole_finite(right);
    binary32::lemma_whole_order(left, i);
    binary32::lemma_whole_order(i, right);
    let small = (binary32::signed(binary32::whole(i)) - binary32::signed(x)) as nat;
    let large = (binary32::signed(binary32::whole(right)) - binary32::signed(x)) as nat;
    rounding::lemma_nearest_keeps_order(small, 1, large, 1);
    assert(a->magnitude <= b->magnitude);
    binary32::lemma_fraction_of_one(a, b);
}

/// Positions up to two to the power of 24 are told apart.
pub proof fn lemma_positions_told_apart(left: nat, right: nat)
    requires
        left < right < 0x100_0000,
    ensures
        binary32::whole(left) != binary32::whole(right),
{
    binary32::lemma_whole_exact(left);
    binary32::lemma_whole_exact(right);
    lemma_pow2_pos(binary32::ONE_EXPONENT as nat);
    lemma_mul_strict_inequality(
        left as int,
        right as int,
        pow2(binary32::ONE_EXPONENT as nat) as int,
    );
}

/// The neighbour on the left is the nearest one: there are only gaps between.
pub proof fn lemma_left_is_nearest(data: Seq<Option<Datum>>, i: int)
    requires
        0 <= i <= data.len(),
    ensures
        match left_of(data, i) {
            Some(l) => {
                &&& 0 <= l < i
                &&& data[l] is Some
                &&& forall|j: int| l < j < i ==> #[trigger] data[j] is None
            },
            None => forall|j: int| 0 <= j < i ==> #[trigger] data[j] is None,
        },
    decreases i,
{
    if i > 0 && data[i - 1] is None {
        lemma_left_is_nearest(data, i - 1);
    }
}

/// The neighbour on the right is the nearest one: there are only gaps between.
pub proof fn lemma_right_is_nearest(data: Seq<Option<Datum>>, i: int)
    requires
        0 <= i <= data.len(),
    ensures
        match right_from(data, i) {
            Some(r) => {
                &&& i <= r < data.len()
                &&& data[r] is Some
                &&& forall|j: int| i <= j < r ==> #[trigger] data[j] is None
            },
            None => forall|j: int| i <= j < data.len() ==> #[trigger] data[j] is None,
        },
    decreases data.len() - i,
{
    if i < data.len() && data[i] is None {
        lemma_right_is_nearest(data, i + 1);
    }
}

/// A band belongs to at most one range, and to one exactly when its frequency is audible.
pub proof fn lemma_band_has_one_range(sampling_rate: nat, bands_count: nat, i: int)
    ensures
        forall|j: int, k: int|
            belongs(sampling_rate, bands_count, i, j) && belongs(sampling_rate, bands_count, i, k)
                ==> j == k,
        (exists|j: int| belongs(sampling_rate, bands_count, i, j)) <==> (log_partition::MIN_FREQ
            <= ffi_spectrum::band_freq(ffi_spectrum::width(sampling_rate, bands_count), i as nat)
            <= log_partition::MAX_FREQ),
{
    let freq = freq_of(sampling_rate, bands_count, i);
    log_partition::lemma_first_range(log_ranges(), freq);
    log_partition::lemma_partition_covers(LOG_BANDS as nat, freq);
    if exists|j: int| log_partition::is_first_range(log_ranges(), freq, j) {
        let j = choose|j: int| log_partition::is_first_range(log_ranges(), freq, j);
        assert(belongs(sampling_rate, bands_count, i, j));
    }
}

/// Sums of amplitudes that are not below zero are not below zero.
proof fn lemma_range_sum_not_below_zero(bands: Seq<Datum>, sampling_rate: nat, j: int, n: nat)
    requires
        n <= bands.len(),
        forall|i: int|
            0 <= i < bands.len() ==> binary32::is_not_below_zero(#[trigger] bands[i]),
    ensures
        binary32::is_not_below_zero(range_sum(bands, sampling_rate, j, n)),
    decreases n,
{
    if n == 0 {
        assert(rounding::units(0) == 0);
    } else {
        let before = range_sum(bands, sampling_rate, j, (n - 1) as nat);
        lemma_range_sum_not_below_zero(bands, sampling_rate, j, (n - 1) as nat);
        binary32::lemma_sum_not_below_zero(before, bands[n - 1]);
    }
}

/// Gaps between values that are not below zero are filled with such values.
proof fn lemma_filled_not_below_zero(data: Seq<Option<Datum>>, i: int)
    requires
        0 <= i < data.len() < 0x100_0000,
        forall|j: int|
            0 <= j < data.len() && (#[trigger] data[j]) is Some ==> binary32::is_not_below_zero(
                data[j]->0,
            ),
    ensures
        binary32::is_not_below_zero(filled(data, i)),
{
    assert(rounding::units(0) == 0);
    lemma_left_is_nearest(data, i);
    lemma_right_is_nearest(data, i + 1);
    if data[i] is None {
        match (left_of(data, i), right_from(data, i + 1)) {
            (Some(l), Some(r)) => {
                let a = data[l]->0;
                let b = data[r]->0;
                let t = progress(l as nat, i as nat, r as nat);
                let rest = binary32::difference(binary32::whole(1), t);
                binary32::lemma_whole_difference_exact(l as nat, i as nat);
                binary32::lemma_whole_difference_exact(l as nat, r as nat);
                binary32::lemma_proper_fraction((i - l) as nat, (r - l) as nat);
                binary32::lemma_product_not_below_zero(a, rest);
                binary32::lemma_product_not_below_zero(b, t);
                binary32::lemma_sum_not_below_zero(
                    binary32::product(a, rest),
                    binary32::product(b, t),
                );
            },
            _ => {},
        }
    }
}

/// A spectrum that is nowhere below its threshold has no level below zero.
pub proof fn lemma_levels_not_below_zero(
    bands: Seq<Datum>,
    db_threshold: Datum,
    sampling_rate: nat,
    j: int,
)
    requires
        0 <= j < LOG_BANDS,
        bands.len() <= u32::MAX,
        db_threshold is Number,
        !binary32::is_infinite(db_threshold),
        db_threshold->magnitude <= INFINITE,
        forall|i: int|
            0 <= i < bands.len() ==> binary32::is_at_most(db_threshold, #[trigger] bands[i])
                && bands[i]->magnitude <= INFINITE,
    ensures
        binary32::is_at_most(zero(), transformed(bands, db_threshold, sampling_rate)[j]),
{
    let raised = Seq::new(
        bands.len(),
        |i: int| binary32::sum(bands[i], binary32::opposite(db_threshold)),
    );
    let levels = log_levels(raised, sampling_rate);
    assert(rounding::units(0) == 0);
    assert forall|i: int| 0 <= i < raised.len() implies binary32::is_not_below_zero(
        #[trigger] raised[i],
    ) by {
        binary32::lemma_difference_not_below_zero(bands[i], db_threshold);
    }
    assert forall|k: int|
        0 <= k < levels.len() && (#[trigger] levels[k]) is Some implies binary32::is_not_below_zero(
        levels[k]->0,
    ) by {
        let total = range_sum(raised, sampling_rate, k, raised.len());
        let count = range_count(raised.len(), sampling_rate, k, raised.len());
        lemma_range_sum_not_below_zero(raised, sampling_rate, k, raised.len());
        lemma_range_count_bound(raised.len(), sampling_rate, k, raised.len());
        binary32::lemma_whole_finite(count);
        binary32::lemma_quotient_not_below_zero(total, binary32::whole(count));
    }
    lemma_filled_not_below_zero(levels, j);
}

} // verus!
