//! A partition of the audible frequencies into ranges of equal ratio.

use crate::accuracy;
use crate::binary32;
use crate::binary32::{Binary32, Datum, ONE_EXPONENT};
use crate::nearness;
use crate::power;
use crate::power::thousand_power;
use crate::rounding;
use crate::rounding::INFINITE;
use vstd::arithmetic::mul::*;
use vstd::arithmetic::power::*;
use vstd::arithmetic::power2::*;
use vstd::prelude::*;

verus! {

/// The lowest frequency of the partition.
pub const MIN_FREQ: u32 = 20;

/// The highest frequency of the partition.
pub const MAX_FREQ: u32 = 20000;

/// Whether a frequency lies in a range, both ends included.
pub open spec fn in_range(range: (u32, u32), freq: u32) -> bool {
    range.0 <= freq <= range.1
}

/// Whether the range at `i` is the first one that holds the frequency.
pub open spec fn is_first_range(ranges: Seq<(u32, u32)>, freq: u32, i: int) -> bool {
    &&& 0 <= i < ranges.len()
    &&& in_range(ranges[i], freq)
    &&& forall|j: int| 0 <= j < i ==> !in_range(#[trigger] ranges[j], freq)
}

/// Whether no range holds the frequency.
pub open spec fn is_outside(ranges: Seq<(u32, u32)>, freq: u32) -> bool {
    forall|j: int| 0 <= j < ranges.len() ==> !in_range(#[trigger] ranges[j], freq)
}

/// The frequency at the fraction `t` of the partition: the lowest frequency times one thousand
/// to the power of `t`, rounded to a whole number. Below a fraction of minus one this is less than
/// a fiftieth, and nothing is left of it.
pub open spec fn freq_at(t: Datum) -> nat {
    if binary32::signed(t) < -pow2(ONE_EXPONENT as nat) {
        0
    } else {
        binary32::rounded_count(
            binary32::product(binary32::whole(MIN_FREQ as nat), power::thousand_to(t)),
        )
    }
}

/// The frequency at the end of part `n` of `parts` equal parts.
pub open spec fn boundary(n: nat, parts: nat) -> nat {
    freq_at(binary32::quotient(binary32::whole(n), binary32::whole(parts)))
}

/// The ranges of a partition into `len` parts.
pub open spec fn partition(len: nat) -> Seq<(u32, u32)> {
    Seq::new(
        len,
        |i: int| (boundary(i as nat, len) as u32, boundary((i + 1) as nat, len) as u32),
    )
}

/// Whether `freq` is what rounding gives of a point near `20 * 1000^(n / parts)`, the point `n` of
/// the geometric progression from 20 to 20000 in `parts` steps: `freq - 1/2` is at most, and
/// `freq + 1/2` at least, this point up to one part in 400000. The powers are those of both sides
/// with the exponent `parts`, multiplied by 20000.
pub open spec fn is_near_progression(freq: nat, n: nat, parts: nat) -> bool {
    &&& pow(10000 * (2 * freq - 1), parts) <= pow(1000, n) * pow(400001, parts)
    &&& pow(1000, n) * pow(399999, parts) <= pow(10000 * (2 * freq + 1) as int, parts)
}

/// Whether `ranges` are the ranges between neighbours of `list`.
pub open spec fn are_neighbours(list: Seq<u32>, ranges: Seq<(u32, u32)>) -> bool {
    &&& ranges.len() == if list.len() > 0 {
        list.len() - 1
    } else {
        0
    }
    &&& forall|i: int|
        0 <= i < ranges.len() ==> #[trigger] ranges[i] == (list[i], list[i + 1])
}

/// Whether a frequency lies in a range, both ends included.
pub fn freq_in_range(tuple: (u32, u32), freq: u32) -> (contained: bool)
    ensures
        contained == in_range(tuple, freq),
        contained == (tuple.0 <= freq <= tuple.1),
{
    tuple.0 <= freq && freq <= tuple.1
}

/// The index of the first range that holds a frequency.
pub fn get_tuple_index_containing_freq(tuple_list: &[(u32, u32)], freq: u32) -> (index: Option<usize>)
    ensures
        match index {
            Some(i) => is_first_range(tuple_list@, freq, i as int),
            None => is_outside(tuple_list@, freq),
        },
        match index {
            Some(i) => {
                &&& i < tuple_list.len()
                &&& tuple_list@[i as int].0 <= freq <= tuple_list@[i as int].1
                &&& forall|j: int|
                    0 <= j < i ==> !((#[trigger] tuple_list@[j]).0 <= freq <= tuple_list@[j].1)
            },
            None => forall|j: int|
                0 <= j < tuple_list.len() ==> !((#[trigger] tuple_list@[j]).0 <= freq
                    <= tuple_list@[j].1),
        },
{
    let mut i: usize = 0;
    while i < tuple_list.len()
        invariant
            i <= tuple_list.len(),
            forall|j: int| 0 <= j < i ==> !in_range(#[trigger] tuple_list@[j], freq),
        decreases tuple_list.len() - i,
    {
        if freq_in_range(tuple_list[i], freq) {
            return Some(i);
        }
        i = i + 1;
    }
    None
}

/// The first range that holds a frequency.
pub fn get_tuple_containing_freq(tuple_list: &[(u32, u32)], freq: u32) -> (tuple: Option<(u32, u32)>)
    ensures
        match tuple {
            Some(range) => exists|i: int|
                is_first_range(tuple_list@, freq, i) && range == tuple_list@[i],
            None => is_outside(tuple_list@, freq),
        },
        match tuple {
            Some(range) => {
                &&& range.0 <= freq <= range.1
                &&& exists|i: int|
                    {
                        &&& 0 <= i < tuple_list.len()
                        &&& #[trigger] tuple_list@[i] == range
                        &&& forall|j: int|
                            0 <= j < i ==> !((#[trigger] tuple_list@[j]).0 <= freq
                                <= tuple_list@[j].1)
                    }
            },
            None => forall|j: int|
                0 <= j < tuple_list.len() ==> !((#[trigger] tuple_list@[j]).0 <= freq
                    <= tuple_list@[j].1),
        },
{
    match get_tuple_index_containing_freq(tuple_list, freq) {
        Some(i) => {
            assert(is_first_range(tuple_list@, freq, i as int));
            Some(tuple_list[i])
        },
        None => None,
    }
}

/// The ranges between neighbours of a list.
pub fn create_tuples(list: Vec<u32>) -> (tuples: Vec<(u32, u32)>)
    ensures
        are_neighbours(list@, tuples@),
        list.len() == 0 ==> tuples.len() == 0,
        list.len() > 0 ==> tuples.len() == list.len() - 1,
        forall|i: int|
            0 <= i < list.len() - 1 ==> (#[trigger] tuples@[i]).0 == list@[i] && tuples@[i].1
                == list@[i + 1],
{
    let mut tuples: Vec<(u32, u32)> = Vec::new();
    let mut i: usize = 1;
    while i < list.len()
        invariant
            1 <= i,
            i <= list.len() || i == 1,
            tuples.len() == i - 1,
            forall|j: int|
                0 <= j < tuples.len() ==> #[trigger] tuples@[j] == (list@[j], list@[j + 1]),
        decreases list.len() - i,
    {
        tuples.push((list[i - 1], list[i]));
        i = i + 1;
    }
    tuples
}

/// The frequency at a fraction of the partition.
pub fn f(t: Binary32) -> (freq: u32)
    requires
        binary32::is_at_most(t@, binary32::whole(1)),
    ensures
        freq == freq_at(t@),
        binary32::signed(t@) < -nearness::one() ==> freq == 0,
        -nearness::one() <= binary32::signed(t@) ==> exists|product: Datum|
            {
                &&& #[trigger] binary32::is_rounding(
                    product,
                    20 * nearness::one() * binary32::signed(power::thousand_to(t@)),
                    nearness::one(),
                )
                &&& product is Number && !product->negative
                &&& nearness::is_rounded_count(product, freq as nat)
            },
{
    proof {
        binary32::lemma_whole_exact(1);
        assert(1 * nearness::one() == nearness::one());
        lemma_freq_steps(t@);
    }
    let one: Binary32 = Binary32::from_whole(1);
    if t.less_than(one.negate()) {
        return 0;
    }
    Binary32::from_whole(MIN_FREQ as u64).times(thousand_power(t)).to_count()
}

/// The fraction of a part among all parts is between zero and one.
pub proof fn lemma_fraction(n: nat, parts: nat)
    requires
        n <= parts,
        0 < parts <= 0x1_0000_0000_0000_0000,
    ensures
        ({
            let t = binary32::quotient(binary32::whole(n), binary32::whole(parts));
            &&& t is Number
            &&& !t->negative
            &&& binary32::is_at_most(t, binary32::whole(1))
        }),
{
    binary32::lemma_whole_finite(n);
    binary32::lemma_whole_finite(parts);
    binary32::lemma_whole_order(n, parts);
    binary32::lemma_fraction_of_one(binary32::whole(n), binary32::whole(parts));
}

/// The frequencies at the ends of `len - 1` equal parts of the partition.
pub fn create_freq_arr(len: u32) -> (frequencies: Vec<u32>)
    requires
        len > 1,
    ensures
        frequencies.len() == len,
        forall|n: int|
            0 <= n < len ==> #[trigger] frequencies@[n] == boundary(n as nat, (len - 1) as nat),
        forall|n: int|
            0 <= n < len ==> is_near_progression(
                #[trigger] frequencies@[n] as nat,
                n as nat,
                (len - 1) as nat,
            ),
        forall|m: int, n: int|
            0 <= m <= n < len ==> #[trigger] frequencies@[m] <= #[trigger] frequencies@[n],
        frequencies@[0] == MIN_FREQ,
        frequencies@[len - 1] == MAX_FREQ,
        frequencies@[0] == 20,
        frequencies@[len - 1] == 20000,
        forall|n: int|
            0 <= n < len ==> {
                &&& pow(10000 * (2 * #[trigger] frequencies@[n] - 1), (len - 1) as nat) <= pow(
                    1000,
                    n as nat,
                ) * pow(400001, (len - 1) as nat)
                &&& pow(1000, n as nat) * pow(399999, (len - 1) as nat) <= pow(
                    10000 * (2 * frequencies@[n] + 1),
                    (len - 1) as nat,
                )
            },
{
    let mut frequencies: Vec<u32> = Vec::new();
    let parts: Binary32 = Binary32::from_whole((len - 1) as u64);
    let mut n: u32 = 0;
    while n < len
        invariant
            len > 1,
            n <= len,
            parts@ == binary32::whole((len - 1) as nat),
            frequencies.len() == n,
            forall|i: int|
                0 <= i < n ==> #[trigger] frequencies@[i] == boundary(i as nat, (len - 1) as nat),
        decreases len - n,
    {
        proof {
            lemma_fraction(n as nat, (len - 1) as nat);
        }
        let t: Binary32 = Binary32::from_whole(n as u64).over(parts);
        frequencies.push(f(t));
        n = n + 1;
    }
    proof {
        let parts = (len - 1) as nat;
        assert forall|n: int| 0 <= n < len implies is_near_progression(
            #[trigger] frequencies@[n] as nat,
            n as nat,
            parts,
        ) by {
            accuracy::lemma_boundary_near_progression(n as nat, parts);
        }
        assert forall|m: int, n: int| 0 <= m <= n < len implies #[trigger] frequencies@[m]
            <= #[trigger] frequencies@[n] by {
            lemma_boundaries_ordered(m as nat, n as nat, parts);
        }
        lemma_boundary_ends(parts);
    }
    frequencies
}

/// The ranges of a partition into `len` parts.
pub fn create_freq_tuples(len: u32) -> (tuples: Vec<(u32, u32)>)
    requires
        0 < len < u32::MAX,
    ensures
        tuples@ == partition(len as nat),
        forall|i: int|
            0 <= i < len ==> is_near_progression(
                (#[trigger] tuples@[i]).0 as nat,
                i as nat,
                len as nat,
            ) && is_near_progression(tuples@[i].1 as nat, (i + 1) as nat, len as nat),
        tuples.len() == len,
        tuples@[0].0 == 20,
        tuples@[len - 1].1 == 20000,
        forall|i: int|
            0 <= i < len ==> (#[trigger] tuples@[i]).0 == boundary(i as nat, len as nat)
                && tuples@[i].1 == boundary((i + 1) as nat, len as nat),
        forall|i: int, j: int|
            0 <= i && i + 1 == j && j < len ==> (#[trigger] tuples@[i]).1 == (
            #[trigger] tuples@[j]).0,
{
    let frequencies: Vec<u32> = create_freq_arr(len + 1);
    let tuples: Vec<(u32, u32)> = create_tuples(frequencies);
    assert(tuples@ =~= partition(len as nat));
    tuples
}

/// The frequency at a fraction is found in steps that are each rounded: one thousand to the power
/// of the fraction, twenty times that, and the nearest whole number.
pub proof fn lemma_freq_steps(t: Datum)
    requires
        t is Number,
        binary32::signed(t) <= nearness::one(),
    ensures
        binary32::signed(t) < -nearness::one() ==> freq_at(t) == 0,
        -nearness::one() <= binary32::signed(t) ==> exists|product: Datum|
            {
                &&& #[trigger] binary32::is_rounding(
                    product,
                    20 * nearness::one() * binary32::signed(power::thousand_to(t)),
                    nearness::one(),
                )
                &&& product is Number && !product->negative
                &&& nearness::is_rounded_count(product, freq_at(t))
            },
{
    if -nearness::one() <= binary32::signed(t) {
        let low = binary32::whole(MIN_FREQ as nat);
        let p = power::thousand_to(t);
        let product = binary32::product(low, p);
        binary32::lemma_whole_exact(MIN_FREQ as nat);
        accuracy::lemma_thousand_near_power(t);
        nearness::lemma_product_rounds(low, p);
        nearness::lemma_count_is_nearest(product);
        nearness::lemma_unusual_products(low, p);
        assert(binary32::is_rounding(
            product,
            20 * nearness::one() * binary32::signed(p),
            nearness::one(),
        ));
    }
}

/// A boundary is the frequency at a fraction that is found in steps that are each rounded.
pub proof fn lemma_boundary_steps(n: nat, parts: nat)
    requires
        n <= parts,
        0 < parts <= u32::MAX,
    ensures
        exists|t: Datum, count: Datum, all: Datum|
            {
                &&& #[trigger] binary32::is_rounding(count, (n * nearness::one()) as int, 1)
                &&& #[trigger] binary32::is_rounding(all, (parts * nearness::one()) as int, 1)
                &&& #[trigger] binary32::is_rounding(
                    t,
                    binary32::signed(count) * nearness::one(),
                    binary32::signed(all) as nat,
                )
                &&& boundary(n, parts) == freq_at(t)
            },
{
    let count = binary32::whole(n);
    let all = binary32::whole(parts);
    let t = binary32::quotient(count, all);
    binary32::lemma_whole_finite(n);
    binary32::lemma_whole_finite(parts);
    rounding::lemma_units_increase(0, all->magnitude);
    assert(rounding::units(0) == 0);
    nearness::lemma_whole_rounds(n);
    nearness::lemma_whole_rounds(parts);
    nearness::lemma_quotient_rounds(count, all);
    assert(binary32::is_rounding(count, (n * nearness::one()) as int, 1));
    assert(binary32::is_rounding(all, (parts * nearness::one()) as int, 1));
    assert(binary32::is_rounding(
        t,
        binary32::signed(count) * nearness::one(),
        binary32::signed(all) as nat,
    ));
}

/// The boundaries of a partition do not decrease.
pub proof fn lemma_boundaries_ordered(m: nat, n: nat, parts: nat)
    requires
        m <= n <= parts,
        0 < parts <= u32::MAX,
    ensures
        boundary(m, parts) <= boundary(n, parts),
{
    let d = binary32::whole(parts);
    let x = binary32::whole(m);
    let y = binary32::whole(n);
    let s = binary32::quotient(x, d);
    let t = binary32::quotient(y, d);
    let low = binary32::whole(MIN_FREQ as nat);
    binary32::lemma_whole_finite(m);
    binary32::lemma_whole_finite(n);
    binary32::lemma_whole_finite(parts);
    binary32::lemma_whole_order(m, n);
    binary32::lemma_quotient_order(x, y, d);
    lemma_fraction(m, parts);
    lemma_fraction(n, parts);
    binary32::lemma_whole_exact(1);
    binary32::lemma_whole_exact(MIN_FREQ as nat);
    if s->magnitude < t->magnitude {
        rounding::lemma_units_increase(s->magnitude, t->magnitude);
    }
    power::lemma_thousand_order(s, t);
    binary32::lemma_product_order(low, power::thousand_to(s), power::thousand_to(t));
    binary32::lemma_count_order(
        binary32::product(low, power::thousand_to(s)),
        binary32::product(low, power::thousand_to(t)),
    );
}

/// A partition starts at the lowest frequency and ends at the highest.
pub proof fn lemma_boundary_ends(parts: nat)
    requires
        0 < parts <= u32::MAX,
    ensures
        boundary(0, parts) == MIN_FREQ,
        boundary(parts, parts) == MAX_FREQ,
{
    let one = pow2(ONE_EXPONENT as nat);
    let d = binary32::whole(parts);
    let zero = binary32::whole(0);
    let low = binary32::whole(MIN_FREQ as nat);
    let size = rounding::units(d->magnitude);
    lemma_pow2_pos(ONE_EXPONENT as nat);
    binary32::lemma_whole_finite(parts);
    binary32::lemma_whole_finite(0);
    binary32::lemma_whole_exact(1);
    binary32::lemma_whole_exact(1000);
    binary32::lemma_whole_exact(MIN_FREQ as nat);
    rounding::lemma_units_increase(0, d->magnitude);
    let s = binary32::quotient(zero, d);
    let t = binary32::quotient(d, d);
    assert(rounding::units(0) * one == 0) by (nonlinear_arith)
        requires
            rounding::units(0) == 0,
    ;
    rounding::lemma_rounds_small(0, size);
    rounding::lemma_nearest_scales(1 * one, 1, size);
    assert((1 * one) * size == size * one) by (nonlinear_arith);
    assert(t == binary32::whole(1));
    power::lemma_thousand_ends(s, t);
    lemma_exact_product(MIN_FREQ as nat, 1);
    lemma_exact_product(MIN_FREQ as nat, 1000);
    lemma_exact_count(MIN_FREQ as nat);
    lemma_exact_count(MAX_FREQ as nat);
}

/// Small whole numbers multiply exactly.
proof fn lemma_exact_product(m: nat, n: nat)
    requires
        m < 0x100_0000,
        n < 0x100_0000,
        m * n < 0x100_0000,
    ensures
        binary32::product(binary32::whole(m), binary32::whole(n)) == binary32::whole(m * n),
{
    let one = pow2(ONE_EXPONENT as nat);
    lemma_pow2_pos(ONE_EXPONENT as nat);
    binary32::lemma_whole_exact(m);
    binary32::lemma_whole_exact(n);
    rounding::lemma_nearest_scales((m * n) * one, 1, one);
    assert((m * one) * (n * one) == (m * n) * one * one) by (nonlinear_arith);
    assert(1 * one == one);
}

/// Small whole numbers are their own counts.
proof fn lemma_exact_count(n: nat)
    requires
        n < 0x100_0000,
    ensures
        binary32::rounded_count(binary32::whole(n)) == n,
{
    let one = pow2(ONE_EXPONENT as nat);
    lemma_pow2_pos(ONE_EXPONENT as nat);
    binary32::lemma_whole_exact(n);
    assert((2 * (n * one) + one) / (2 * one) == n) by (nonlinear_arith)
        requires
            one > 0,
    ;
}

/// The ranges of a partition are in order and meet at their ends.
pub proof fn lemma_partition_ordered(len: nat, i: int, j: int)
    requires
        0 < len <= u32::MAX,
        0 <= i <= j < len,
    ensures
        MIN_FREQ <= partition(len)[i].0 <= partition(len)[i].1 <= MAX_FREQ,
        partition(len)[i].0 <= partition(len)[j].0,
        i < j ==> partition(len)[i].1 <= partition(len)[j].0,
        i + 1 == j ==> partition(len)[i].1 == partition(len)[j].0,
        partition(len)[0].0 == MIN_FREQ,
        partition(len)[len - 1].1 == MAX_FREQ,
{
    lemma_boundary_ends(len);
    lemma_boundaries_ordered(0, i as nat, len);
    lemma_boundaries_ordered(i as nat, (i + 1) as nat, len);
    lemma_boundaries_ordered((i + 1) as nat, len, len);
    lemma_boundaries_ordered(i as nat, j as nat, len);
    lemma_boundaries_ordered(j as nat, len, len);
    if i < j {
        lemma_boundaries_ordered((i + 1) as nat, j as nat, len);
    }
}

/// A frequency is in some range among the first `n` unless it is above them.
proof fn lemma_covered_up_to(len: nat, freq: u32, n: nat) -> (i: int)
    requires
        0 < n <= len <= u32::MAX,
        MIN_FREQ <= freq <= partition(len)[n - 1].1,
    ensures
        0 <= i < n,
        in_range(partition(len)[i], freq),
    decreases n,
{
    let last = n - 1;
    lemma_partition_ordered(len, last, last);
    if partition(len)[last].0 <= freq {
        last
    } else {
        lemma_partition_ordered(len, last - 1, last);
        lemma_covered_up_to(len, freq, last as nat)
    }
}

/// A partition leaves out no frequency from the lowest to the highest, and holds no other.
pub proof fn lemma_partition_covers(len: nat, freq: u32)
    requires
        0 < len <= u32::MAX,
    ensures
        is_outside(partition(len), freq) <==> !(MIN_FREQ <= freq <= MAX_FREQ),
{
    if MIN_FREQ <= freq <= MAX_FREQ {
        lemma_partition_ordered(len, 0, len - 1);
        let i = lemma_covered_up_to(len, freq, len);
        assert(in_range(partition(len)[i], freq));
    } else {
        assert forall|j: int| 0 <= j < partition(len).len() implies !in_range(
            #[trigger] partition(len)[j],
            freq,
        ) by {
            lemma_partition_ordered(len, j, j);
        }
    }
}

/// At most one range is the first that holds a frequency, and there is one unless all leave it
/// out.
pub proof fn lemma_first_range(ranges: Seq<(u32, u32)>, freq: u32)
    ensures
        forall|i: int, j: int|
            is_first_range(ranges, freq, i) && is_first_range(ranges, freq, j) ==> i == j,
        (exists|i: int| is_first_range(ranges, freq, i)) <==> !is_outside(ranges, freq),
{
    assert forall|i: int, j: int|
        is_first_range(ranges, freq, i) && is_first_range(ranges, freq, j) implies i == j by {
        assert(in_range(ranges[i], freq) && in_range(ranges[j], freq));
    }
    if !is_outside(ranges, freq) {
        let some = choose|j: int| 0 <= j < ranges.len() && in_range(#[trigger] ranges[j], freq);
        lemma_first_up_to(ranges, freq, some);
    }
}

proof fn lemma_first_up_to(ranges: Seq<(u32, u32)>, freq: u32, some: int)
    requires
        0 <= some < ranges.len(),
        in_range(ranges[some], freq),
    ensures
        exists|i: int| is_first_range(ranges, freq, i),
    decreases some,
{
    if forall|j: int| 0 <= j < some ==> !in_range(#[trigger] ranges[j], freq) {
        assert(is_first_range(ranges, freq, some));
    } else {
        let less = choose|j: int| 0 <= j < some && in_range(#[trigger] ranges[j], freq);
        lemma_first_up_to(ranges, freq, less);
    }
}

} // verus!
