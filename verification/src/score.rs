//! From predicted arrival distances to a score: Euclidean distance, the
//! sample of the matched-filter curve that a distance falls on, and the sum
//! over a sorted distance list in which near-coincident arrivals count once.

use vstd::prelude::*;
use vstd::seq_lib::lemma_sorted_unique;
use crate::units::{floor_sqrt, isqrt, magnitude, REACH};

verus! {

/// Both coordinates are within `REACH` of the origin.
pub open spec fn in_reach(p: (i64, i64)) -> bool {
    -REACH <= p.0 <= REACH && -REACH <= p.1 <= REACH
}

/// Whether both coordinates of a point are within `REACH` of the origin.
pub fn is_in_reach(p: &(i64, i64)) -> (b: bool)
    ensures
        b == in_reach(*p),
{
    -REACH <= p.0 && p.0 <= REACH && -REACH <= p.1 && p.1 <= REACH
}

/// A point as a pair of mathematical integers.
pub open spec fn at(p: (i64, i64)) -> (int, int) {
    (p.0 as int, p.1 as int)
}

/// Euclidean distance between two points, rounded down to a whole micrometre.
pub open spec fn distance(a: (int, int), b: (int, int)) -> int {
    floor_sqrt((a.0 - b.0) * (a.0 - b.0) + (a.1 - b.1) * (a.1 - b.1))
}

/// Euclidean distance between two points, rounded down to a whole micrometre.
pub fn dist2(a: &(i64, i64), b: &(i64, i64)) -> (d: u64)
    requires
        in_reach(*a),
        in_reach(*b),
    ensures
        d == distance(at(*a), at(*b)),
{
    let dx: i128 = a.0 as i128 - b.0 as i128;
    let dy: i128 = a.1 as i128 - b.1 as i128;
    assert(0 <= dx * dx <= 0x4000_0000_0000_0000_0000_0000_0000_0000) by (nonlinear_arith)
        requires
            -0x8000_0000_0000_0000 <= dx <= 0x8000_0000_0000_0000,
    ;
    assert(0 <= dy * dy <= 0x4000_0000_0000_0000_0000_0000_0000_0000) by (nonlinear_arith)
        requires
            -0x8000_0000_0000_0000 <= dy <= 0x8000_0000_0000_0000,
    ;
    let square: u128 = (dx * dx) as u128 + (dy * dy) as u128;
    isqrt(square)
}

/// Length of the probe in flight: `speed * len / rate`, rounded down.
pub open spec fn span_of(speed: int, len: int, rate: int) -> int {
    (speed * len) / rate
}

/// Distance that sound travels while a probe of `len` samples plays.
pub fn sample_span(speed: u64, len: usize, rate: u32) -> (span: u128)
    requires
        rate > 0,
    ensures
        span == span_of(speed as int, len as int, rate as int),
{
    assert(0 <= speed * len <= 0xffff_ffff_ffff_ffff * 0xffff_ffff_ffff_ffff) by (nonlinear_arith)
        requires
            0 <= speed <= 0xffff_ffff_ffff_ffff,
            0 <= len <= 0xffff_ffff_ffff_ffff,
    ;
    (speed as u128) * (len as u128) / (rate as u128)
}

/// Index of the curve sample that a one-way path of `d` micrometres falls on:
/// `rate * d / speed`, rounded to the nearest whole sample (halves upwards).
pub open spec fn sample_index(rate: int, speed: int, d: int) -> int {
    (2 * rate * d + speed) / (2 * speed)
}

/// The sample with index `i` stands for the distance `speed * i / rate`:
/// that distance falls on it, provided that one sample spans at least two
/// micrometres.
pub proof fn lemma_sample_of_its_distance(rate: int, speed: int, i: int)
    requires
        0 < rate,
        2 * rate <= speed,
        0 <= i,
    ensures
        sample_index(rate, speed, (speed * i) / rate) == i,
{
    let d = (speed * i) / rate;
    let r = (speed * i) % rate;
    vstd::arithmetic::div_mod::lemma_fundamental_div_mod(speed * i, rate);
    assert(0 <= r < rate);
    // rate * d = speed * i - r, so 2 * rate * d + speed lies in
    // [2 * speed * i, 2 * speed * (i + 1)) when 2 * r <= speed
    assert(2 * rate * d + speed == (2 * speed) * i + (speed - 2 * r)) by (nonlinear_arith)
        requires
            speed * i == rate * d + r,
    ;
    assert(0 <= speed - 2 * r < 2 * speed);
    vstd::arithmetic::div_mod::lemma_fundamental_div_mod_converse(
        2 * rate * d + speed,
        2 * speed,
        i,
        speed - 2 * r,
    );
}

/// Value of the curve at distance `d`: the sample the distance falls on, or
/// zero where that sample lies at or beyond the end of the curve.
pub open spec fn sample_value(signal: Seq<i64>, rate: int, speed: int, d: int) -> int {
    let i = sample_index(rate, speed, d);
    if 0 <= i < signal.len() {
        signal[i] as int
    } else {
        0
    }
}

/// The curve as a function of distance.
pub open spec fn curve_lookup(signal: Seq<i64>, rate: int, speed: int) -> spec_fn(int) -> int {
    |d: int| sample_value(signal, rate, speed, d)
}

/// Value of the matched-filter curve at a propagation distance.
pub fn sample_at(signal: &Vec<i64>, rate: u32, speed: u64, d: u64) -> (value: i64)
    requires
        speed > 0,
    ensures
        value == sample_value(signal@, rate as int, speed as int, d as int),
        sample_index(rate as int, speed as int, d as int) >= signal.len() ==> value == 0,
{
    assert(0 <= 2 * rate * d <= 2 * 0xffff_ffff * 0xffff_ffff_ffff_ffff) by (nonlinear_arith)
        requires
            0 <= rate <= 0xffff_ffff,
            0 <= d <= 0xffff_ffff_ffff_ffff,
    ;
    let twice: u128 = 2 * (rate as u128) * (d as u128) + (speed as u128);
    let index: u128 = twice / (2 * (speed as u128));
    if index < signal.len() as u128 {
        signal[index as usize]
    } else {
        0
    }
}

/// Whether the `k`-th distance of a sorted list is counted: the first always
/// is, a later one exactly if it lies more than `min_delta` from the one
/// before it. A run of distances, each within `min_delta` of the one before
/// it, thus counts once, at its first distance.
pub open spec fn counted(ds: Seq<u64>, min_delta: int, k: int) -> bool {
    k == 0 || magnitude(ds[k] - ds[k - 1]) > min_delta
}

/// What the `k`-th distance adds to the score.
pub open spec fn contribution(ds: Seq<u64>, min_delta: int, value: spec_fn(int) -> int, k: int) -> int {
    if counted(ds, min_delta, k) {
        value(ds[k] as int)
    } else {
        0
    }
}

/// Sum of the contributions of the first `n` distances.
pub open spec fn tally(ds: Seq<u64>, min_delta: int, value: spec_fn(int) -> int, n: int) -> int
    decreases n,
{
    if n <= 0 {
        0
    } else {
        tally(ds, min_delta, value, n - 1) + contribution(ds, min_delta, value, n - 1)
    }
}

/// Score of a sorted distance list: every counted distance adds the value of the curve there.
pub open spec fn total_cost(ds: Seq<u64>, min_delta: int, value: spec_fn(int) -> int) -> int {
    tally(ds, min_delta, value, ds.len() as int)
}

/// Score of a sorted distance list against a matched-filter curve.
pub fn score(distances: &Vec<u64>, signal: &Vec<i64>, rate: u32, speed: u64, min_delta: u64) -> (total: i128)
    requires
        speed > 0,
    ensures
        total == total_cost(
            distances@,
            min_delta as int,
            curve_lookup(signal@, rate as int, speed as int),
        ),
{
    let ghost value = curve_lookup(signal@, rate as int, speed as int);
    let mut total: i128 = 0;
    let mut i: usize = 0;
    while i < distances.len()
        invariant
            i <= distances.len(),
            speed > 0,
            value == curve_lookup(signal@, rate as int, speed as int),
            total == tally(distances@, min_delta as int, value, i as int),
            -0x8000_0000_0000_0000 * i <= total <= 0x8000_0000_0000_0000 * i,
        decreases distances.len() - i,
    {
        let here: u64 = distances[i];
        let counts: bool = if i == 0 {
            true
        } else {
            let before: u64 = distances[i - 1];
            if here >= before {
                here - before > min_delta
            } else {
                before - here > min_delta
            }
        };
        assert(counts == counted(distances@, min_delta as int, i as int));
        if counts {
            let sample: i64 = sample_at(signal, rate, speed, here);
            total = total + sample as i128;
        }
        i = i + 1;
    }
    total
}

/// A score over a curve that is nowhere negative is not negative.
pub proof fn lemma_tally_nonnegative(ds: Seq<u64>, min_delta: int, value: spec_fn(int) -> int, n: int)
    requires
        forall|d: int| (#[trigger] value(d)) >= 0,
    ensures
        tally(ds, min_delta, value, n) >= 0,
    decreases n,
{
    if n > 0 {
        lemma_tally_nonnegative(ds, min_delta, value, n - 1);
    }
}

/// The curve as a function of distance is nowhere negative if no sample is.
pub proof fn lemma_lookup_nonnegative(signal: Seq<i64>, rate: int, speed: int)
    requires
        forall|i: int| 0 <= i < signal.len() ==> signal[i] >= 0,
    ensures
        forall|d: int| (#[trigger] curve_lookup(signal, rate, speed)(d)) >= 0,
{
}

/// In an ascending list a counted distance lies more than `min_delta`
/// beyond every earlier one, the counted ones among them.
pub proof fn lemma_counted_stands_apart(ds: Seq<u64>, min_delta: int, j: int, k: int)
    requires
        ascending(ds),
        0 <= j < k < ds.len(),
        counted(ds, min_delta, k),
    ensures
        ds[k] - ds[j] > min_delta,
{
    assert(ds[k - 1] <= ds[k]);
    if j < k - 1 {
        assert(ds[j] <= ds[k - 1]);
    }
}

/// How the sum over the first `n` distances changes when `d` is inserted at
/// position `j`: before the insertion point nothing changes, behind it every
/// distance keeps its neighbour, and only the inserted distance and the one
/// that now follows it are judged anew.
pub proof fn lemma_tally_with_insertion(
    ds: Seq<u64>,
    j: int,
    d: u64,
    min_delta: int,
    value: spec_fn(int) -> int,
    n: int,
)
    requires
        0 <= j <= ds.len(),
        0 <= n <= ds.len() + 1,
    ensures
        n <= j ==> tally(ds.insert(j, d), min_delta, value, n) == tally(ds, min_delta, value, n),
        n == j + 1 ==> tally(ds.insert(j, d), min_delta, value, n) == tally(
            ds,
            min_delta,
            value,
            j,
        ) + contribution(ds.insert(j, d), min_delta, value, j),
        n >= j + 2 ==> tally(ds.insert(j, d), min_delta, value, n) == tally(
            ds,
            min_delta,
            value,
            n - 1,
        ) - contribution(ds, min_delta, value, j) + contribution(
            ds.insert(j, d),
            min_delta,
            value,
            j,
        ) + contribution(ds.insert(j, d), min_delta, value, j + 1),
    decreases n,
{
    let ds2 = ds.insert(j, d);
    if n > 0 {
        lemma_tally_with_insertion(ds, j, d, min_delta, value, n - 1);
        let k = n - 1;
        if k < j {
            assert(ds2[k] == ds[k]);
            if k > 0 {
                assert(ds2[k - 1] == ds[k - 1]);
            }
        } else if k > j + 1 {
            assert(ds2[k] == ds[k - 1]);
            assert(ds2[k - 1] == ds[k - 2]);
        }
    }
}

/// A distance inserted within `min_delta` behind an existing one adds
/// nothing to the score: it is not counted itself, and the distance that
/// follows it is counted only if it was counted before. Over a curve that is
/// nowhere negative the score therefore does not grow.
pub proof fn lemma_near_duplicate_after(
    ds: Seq<u64>,
    j: int,
    d: u64,
    min_delta: int,
    value: spec_fn(int) -> int,
)
    requires
        0 < j <= ds.len(),
        ascending(ds.insert(j, d)),
        d - ds[j - 1] <= min_delta,
        forall|v: int| (#[trigger] value(v)) >= 0,
    ensures
        total_cost(ds.insert(j, d), min_delta, value) <= total_cost(ds, min_delta, value),
{
    let ds2 = ds.insert(j, d);
    lemma_tally_with_insertion(ds, j, d, min_delta, value, ds.len() as int + 1);
    assert(ds2[j] == d);
    assert(ds2[j - 1] == ds[j - 1]);
    assert(ds2[j - 1] <= ds2[j]);
    assert(!counted(ds2, min_delta, j));
    if j < ds.len() {
        assert(ds2[j + 1] == ds[j]);
        assert(ds2[j] <= ds2[j + 1]);
        assert(counted(ds2, min_delta, j + 1) ==> counted(ds, min_delta, j));
        assert(value(ds[j] as int) >= 0);
    }
}

/// A distance inserted within `min_delta` in front of an existing one, and
/// itself counted, takes that one's place: the score loses the value at the
/// old distance and gains the value at the new one, so the pair still counts once.
pub proof fn lemma_near_duplicate_before(
    ds: Seq<u64>,
    j: int,
    d: u64,
    min_delta: int,
    value: spec_fn(int) -> int,
)
    requires
        0 <= j < ds.len(),
        ascending(ds.insert(j, d)),
        ds[j] - d <= min_delta,
        j == 0 || d - ds[j - 1] > min_delta,
    ensures
        total_cost(ds.insert(j, d), min_delta, value) == total_cost(ds, min_delta, value) - value(
            ds[j] as int,
        ) + value(d as int),
{
    let ds2 = ds.insert(j, d);
    lemma_tally_with_insertion(ds, j, d, min_delta, value, ds.len() as int + 1);
    assert(ds2[j] == d);
    assert(ds2[j + 1] == ds[j]);
    assert(ds2[j] <= ds2[j + 1]);
    assert(!counted(ds2, min_delta, j + 1));
    if j > 0 {
        assert(ds2[j - 1] == ds[j - 1]);
        assert(ds2[j - 1] <= ds2[j]);
    }
    assert(counted(ds2, min_delta, j));
    assert(counted(ds, min_delta, j));
}

/// No two neighbours are out of order.
pub open spec fn ascending(s: Seq<u64>) -> bool {
    forall|i: int, j: int| 0 <= i < j < s.len() ==> s[i] <= s[j]
}

/// The order that distances are sorted by.
pub open spec fn at_most() -> spec_fn(u64, u64) -> bool {
    |a: u64, b: u64| a <= b
}

/// The distances of `raw` in ascending order.
pub open spec fn sorted(raw: Seq<u64>) -> Seq<u64> {
    raw.sort_by(at_most())
}

/// An ascending rearrangement of a list is its sorted form.
pub proof fn lemma_sorted_is_unique(raw: Seq<u64>, s: Seq<u64>)
    requires
        ascending(s),
        s.to_multiset() == raw.to_multiset(),
    ensures
        s == sorted(raw),
        ascending(sorted(raw)),
{
    let leq = at_most();
    assert(vstd::relations::total_ordering(leq));
    raw.lemma_sort_by_ensures(leq);
    assert(vstd::relations::sorted_by(s, leq));
    lemma_sorted_unique(s, raw.sort_by(leq), leq);
}

/// `<[u64]>::sort` of std: afterwards the vector holds the same values as
/// before, each as often as before, in ascending order.
#[verifier::external_body]
fn sort_in_place(v: &mut Vec<u64>)
    ensures
        final(v)@.to_multiset() == old(v)@.to_multiset(),
        ascending(final(v)@),
{
    v.sort();
}

/// A list of distances in ascending order.
pub fn sort_distances(raw: Vec<u64>) -> (s: Vec<u64>)
    ensures
        s@ == sorted(raw@),
        ascending(s@),
        s.len() == raw.len(),
{
    let mut s: Vec<u64> = raw;
    sort_in_place(&mut s);
    proof {
        lemma_sorted_is_unique(raw@, s@);
        s@.to_multiset_ensures();
        raw@.to_multiset_ensures();
    }
    s
}

} // verus!
