//! The matched filter: a recording is correlated with the probe that was
//! played, and the correlation is normalised by its maximum.

use vstd::prelude::*;
use crate::units::{div_floor, lemma_quotient_bound};

verus! {

/// The value that stands for 1 in a matched-filter curve (2^16): the maximum
/// of a normalised curve.
pub const PEAK: i64 = 65_536;

/// Longest probe that can be correlated: with more samples a normalised
/// value might not fit in 64 bits.
pub const MAX_PROBE_LEN: usize = 131_071;

/// Why a recording has no matched-filter curve.
#[derive(Debug, Clone, Copy, PartialEq, Eq, Structural)]
pub enum SignalError {
    /// The recording is shorter than the probe.
    InsufficientSamples,
    /// The correlation is nowhere positive.
    DegenerateSignal,
}

/// Sum of the first `n` products of the window of `raw` that starts at `i` with `probe`.
pub open spec fn window_dot(raw: Seq<i16>, probe: Seq<i16>, i: int, n: int) -> int
    decreases n,
{
    if n <= 0 {
        0
    } else {
        window_dot(raw, probe, i, n - 1) + raw[i + n - 1] * probe[n - 1]
    }
}

/// Correlation of the probe with the recording at offset `i`: the sum of
/// `raw[i + k] * probe[k]` over the probe.
pub open spec fn correlation(raw: Seq<i16>, probe: Seq<i16>, i: int) -> int {
    window_dot(raw, probe, i, probe.len() as int)
}

/// Number of offsets at which the probe fits into the recording.
pub open spec fn offsets(raw: Seq<i16>, probe: Seq<i16>) -> int {
    raw.len() - probe.len() + 1
}

/// Largest correlation among the first `n` offsets.
pub open spec fn peak_upto(raw: Seq<i16>, probe: Seq<i16>, n: int) -> int
    decreases n,
{
    if n <= 1 {
        correlation(raw, probe, 0)
    } else if correlation(raw, probe, n - 1) > peak_upto(raw, probe, n - 1) {
        correlation(raw, probe, n - 1)
    } else {
        peak_upto(raw, probe, n - 1)
    }
}

/// Largest correlation of the probe with the recording.
pub open spec fn peak(raw: Seq<i16>, probe: Seq<i16>) -> int {
    peak_upto(raw, probe, offsets(raw, probe))
}

/// Correlation at offset `i` in parts of `PEAK` of the largest one, rounded down.
pub open spec fn normalized(raw: Seq<i16>, probe: Seq<i16>, i: int) -> int {
    (correlation(raw, probe, i) * PEAK) / peak(raw, probe)
}

/// The largest correlation among the first `n` offsets is reached at one of
/// them and exceeded at none.
pub proof fn lemma_peak_upto(raw: Seq<i16>, probe: Seq<i16>, n: int)
    requires
        1 <= n,
    ensures
        forall|i: int| 0 <= i < n ==> #[trigger] correlation(raw, probe, i) <= peak_upto(raw, probe, n),
        exists|i: int| 0 <= i < n && #[trigger] correlation(raw, probe, i) == peak_upto(raw, probe, n),
    decreases n,
{
    if n > 1 {
        lemma_peak_upto(raw, probe, n - 1);
        let w = choose|i: int|
            0 <= i < n - 1 && #[trigger] correlation(raw, probe, i) == peak_upto(raw, probe, n - 1);
        if correlation(raw, probe, n - 1) > peak_upto(raw, probe, n - 1) {
            assert(correlation(raw, probe, n - 1) == peak_upto(raw, probe, n));
        } else {
            assert(correlation(raw, probe, w) == peak_upto(raw, probe, n));
        }
    } else {
        assert(correlation(raw, probe, 0) == peak_upto(raw, probe, n));
    }
}

/// The peak is the maximum of the correlation: it is reached at some offset
/// and exceeded at none.
pub proof fn lemma_peak_is_maximum(raw: Seq<i16>, probe: Seq<i16>)
    requires
        probe.len() <= raw.len(),
    ensures
        forall|i: int|
            0 <= i < offsets(raw, probe) ==> #[trigger] correlation(raw, probe, i) <= peak(raw, probe),
        exists|i: int|
            0 <= i < offsets(raw, probe) && #[trigger] correlation(raw, probe, i) == peak(raw, probe),
{
    lemma_peak_upto(raw, probe, offsets(raw, probe));
}

/// With an empty probe every correlation, and so the peak, is zero.
pub proof fn lemma_empty_probe(raw: Seq<i16>, probe: Seq<i16>, n: int)
    requires
        probe.len() == 0,
    ensures
        peak_upto(raw, probe, n) == 0,
    decreases n,
{
    if n > 1 {
        lemma_empty_probe(raw, probe, n - 1);
    }
}

fn correlate(signal: &Vec<i16>, sample: &Vec<i16>, i: usize) -> (sum: i64)
    requires
        sample.len() <= MAX_PROBE_LEN,
        i + sample.len() <= signal.len(),
    ensures
        sum == correlation(signal@, sample@, i as int),
        -0x4000_0000 * sample.len() <= sum <= 0x4000_0000 * sample.len(),
{
    let mut sum: i64 = 0;
    let mut k: usize = 0;
    while k < sample.len()
        invariant
            k <= sample.len() <= MAX_PROBE_LEN,
            i + sample.len() <= signal.len(),
            sum == window_dot(signal@, sample@, i as int, k as int),
            -0x4000_0000 * k <= sum <= 0x4000_0000 * k,
        decreases sample.len() - k,
    {
        let a: i64 = signal[i + k] as i64;
        let b: i64 = sample[k] as i64;
        assert(-0x4000_0000 <= a * b <= 0x4000_0000) by (nonlinear_arith)
            requires
                -0x8000 <= a <= 0x7fff,
                -0x8000 <= b <= 0x7fff,
        ;
        sum = sum + a * b;
        k = k + 1;
    }
    sum
}

/// The matched-filter curve of a recording: its correlation with the probe
/// at every offset at which the probe fits, in parts of `PEAK` of the
/// largest correlation.
///
/// Fails with `InsufficientSamples` if the recording is shorter than the
/// probe, and with `DegenerateSignal` if no correlation is positive.
pub fn process_signal(signal: &Vec<i16>, sample: &Vec<i16>) -> (result: Result<Vec<i64>, SignalError>)
    requires
        sample.len() <= MAX_PROBE_LEN,
    ensures
        result == Err::<Vec<i64>, SignalError>(SignalError::InsufficientSamples) <==> signal.len()
            < sample.len(),
        result == Err::<Vec<i64>, SignalError>(SignalError::DegenerateSignal) <==> signal.len()
            >= sample.len() && peak(signal@, sample@) <= 0,
        result matches Ok(curve) ==> {
            &&& curve.len() == offsets(signal@, sample@)
            &&& forall|i: int|
                0 <= i < curve.len() ==> (#[trigger] curve[i]) == normalized(signal@, sample@, i)
            &&& forall|i: int| 0 <= i < curve.len() ==> (#[trigger] curve[i]) <= PEAK
            &&& exists|i: int| 0 <= i < curve.len() && (#[trigger] curve[i]) == PEAK
        },
{
    if signal.len() < sample.len() {
        return Err(SignalError::InsufficientSamples);
    }
    if sample.len() == 0 {
        proof {
            lemma_empty_probe(signal@, sample@, offsets(signal@, sample@));
        }
        return Err(SignalError::DegenerateSignal);
    }
    let count: usize = signal.len() - sample.len() + 1;
    let mut products: Vec<i64> = Vec::new();
    let first: i64 = correlate(signal, sample, 0);
    products.push(first);
    let mut top: i64 = first;
    let mut i: usize = 1;
    while i < count
        invariant
            1 <= i <= count,
            count == offsets(signal@, sample@),
            0 < sample.len() <= MAX_PROBE_LEN,
            products.len() == i,
            top == peak_upto(signal@, sample@, i as int),
            forall|j: int|
                0 <= j < i ==> (#[trigger] products[j]) == correlation(signal@, sample@, j),
            forall|j: int|
                0 <= j < i ==> -0x4000_0000 * MAX_PROBE_LEN <= (#[trigger] products[j])
                    <= 0x4000_0000 * MAX_PROBE_LEN,
        decreases count - i,
    {
        let here: i64 = correlate(signal, sample, i);
        if here > top {
            top = here;
        }
        products.push(here);
        i = i + 1;
    }
    if top <= 0 {
        return Err(SignalError::DegenerateSignal);
    }
    proof {
        lemma_peak_is_maximum(signal@, sample@);
    }
    let mut curve: Vec<i64> = Vec::new();
    let mut i: usize = 0;
    while i < count
        invariant
            i <= count,
            products.len() == count,
            count == offsets(signal@, sample@),
            curve.len() == i,
            0 < top == peak(signal@, sample@),
            forall|j: int|
                0 <= j < count ==> (#[trigger] products[j]) == correlation(signal@, sample@, j),
            forall|j: int|
                0 <= j < count ==> -0x4000_0000 * MAX_PROBE_LEN <= (#[trigger] products[j])
                    <= 0x4000_0000 * MAX_PROBE_LEN,
            forall|j: int|
                0 <= j < count ==> #[trigger] correlation(signal@, sample@, j) <= peak(
                    signal@,
                    sample@,
                ),
            forall|j: int|
                0 <= j < i ==> (#[trigger] curve[j]) == normalized(signal@, sample@, j),
            forall|j: int| 0 <= j < i ==> (#[trigger] curve[j]) <= PEAK,
        decreases count - i,
    {
        let here: i64 = products[i];
        let scaled: i128 = (here as i128) * (PEAK as i128);
        let part: i128 = div_floor(scaled, top as i128);
        proof {
            assert(correlation(signal@, sample@, i as int) <= peak(signal@, sample@));
            lemma_quotient_bound(scaled as int, top as int);
            assert(scaled <= top * PEAK) by (nonlinear_arith)
                requires
                    scaled == here * PEAK,
                    here <= top,
                    PEAK == 65_536,
            ;
            vstd::arithmetic::div_mod::lemma_div_is_ordered(
                scaled as int,
                top * PEAK,
                top as int,
            );
            vstd::arithmetic::div_mod::lemma_div_multiples_vanish(PEAK as int, top as int);
        }
        curve.push(part as i64);
        i = i + 1;
    }
    proof {
        let top_at = choose|j: int|
            0 <= j < offsets(signal@, sample@) && #[trigger] correlation(signal@, sample@, j) == peak(
                signal@,
                sample@,
            );
        vstd::arithmetic::div_mod::lemma_div_multiples_vanish(PEAK as int, top as int);
        assert(top * PEAK == PEAK * top) by (nonlinear_arith);
        assert(curve[top_at] == PEAK);
    }
    Ok(curve)
}

} // verus!
