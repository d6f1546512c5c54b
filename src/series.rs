//! Demultiplexing of parsed lines into per-channel series.
//!
//! A line is complete when it holds at least one reading per channel. Only
//! complete lines contribute, to every channel at once; each incomplete line
//! is reported once and contributes nothing.
use vstd::prelude::*;
use crate::temperature_parser::TemperatureLine;

verus! {

/// Number of cores in a sample line.
pub const CORE_COUNT: usize = 4;

pub open spec fn is_complete(s: TemperatureLine, channel_count: nat) -> bool {
    s.readings.len() >= channel_count
}

/// The complete lines among the first `n`, in order.
pub open spec fn complete_upto(samples: Seq<TemperatureLine>, channel_count: nat, n: int) -> Seq<
    TemperatureLine,
>
    decreases n,
{
    if n <= 0 {
        Seq::empty()
    } else {
        let prev = complete_upto(samples, channel_count, n - 1);
        if is_complete(samples[n - 1], channel_count) {
            prev.push(samples[n - 1])
        } else {
            prev
        }
    }
}

/// The indices of the incomplete lines among the first `n`, in order.
pub open spec fn incomplete_upto(samples: Seq<TemperatureLine>, channel_count: nat, n: int) -> Seq<
    usize,
>
    decreases n,
{
    if n <= 0 {
        Seq::empty()
    } else {
        let prev = incomplete_upto(samples, channel_count, n - 1);
        if is_complete(samples[n - 1], channel_count) {
            prev
        } else {
            prev.push((n - 1) as usize)
        }
    }
}

pub open spec fn complete_samples(samples: Seq<TemperatureLine>, channel_count: nat) -> Seq<
    TemperatureLine,
> {
    complete_upto(samples, channel_count, samples.len() as int)
}

pub open spec fn spec_series_times(samples: Seq<TemperatureLine>, channel_count: nat) -> Seq<u64> {
    complete_samples(samples, channel_count).map_values(|s: TemperatureLine| s.time_step)
}

pub open spec fn spec_channel_values(
    samples: Seq<TemperatureLine>,
    channel_count: nat,
    channel: int,
) -> Seq<u32> {
    complete_samples(samples, channel_count).map_values(|s: TemperatureLine| s.readings@[channel])
}

pub open spec fn spec_incomplete_lines(samples: Seq<TemperatureLine>, channel_count: nat) -> Seq<
    usize,
> {
    incomplete_upto(samples, channel_count, samples.len() as int)
}

/// The time of every complete line, in order.
pub fn series_times(samples: &Vec<TemperatureLine>, channel_count: usize) -> (r: Vec<u64>)
    ensures
        r@ == spec_series_times(samples@, channel_count as nat),
{
    let mut r: Vec<u64> = Vec::new();
    let mut i: usize = 0;
    while i < samples.len()
        invariant
            i <= samples.len(),
            r@ == complete_upto(samples@, channel_count as nat, i as int).map_values(
                |s: TemperatureLine| s.time_step,
            ),
        decreases samples.len() - i,
    {
        let ghost prev = complete_upto(samples@, channel_count as nat, i as int);
        if samples[i].readings.len() >= channel_count {
            r.push(samples[i].time_step);
            assert(prev.push(samples@[i as int]).map_values(|s: TemperatureLine| s.time_step)
                =~= r@);
        }
        i += 1;
    }
    r
}

/// The reading of channel `channel` in every complete line, in order.
pub fn channel_values(samples: &Vec<TemperatureLine>, channel_count: usize, channel: usize) -> (r:
    Vec<u32>)
    requires
        channel < channel_count,
    ensures
        r@ == spec_channel_values(samples@, channel_count as nat, channel as int),
{
    let mut r: Vec<u32> = Vec::new();
    let mut i: usize = 0;
    while i < samples.len()
        invariant
            i <= samples.len(),
            channel < channel_count,
            r@ == complete_upto(samples@, channel_count as nat, i as int).map_values(
                |s: TemperatureLine| s.readings@[channel as int],
            ),
        decreases samples.len() - i,
    {
        let ghost prev = complete_upto(samples@, channel_count as nat, i as int);
        if samples[i].readings.len() >= channel_count {
            r.push(samples[i].readings[channel]);
            assert(prev.push(samples@[i as int]).map_values(
                |s: TemperatureLine| s.readings@[channel as int],
            ) =~= r@);
        }
        i += 1;
    }
    r
}

/// The index of every incomplete line, in order: one warning each.
pub fn incomplete_lines(samples: &Vec<TemperatureLine>, channel_count: usize) -> (r: Vec<usize>)
    ensures
        r@ == spec_incomplete_lines(samples@, channel_count as nat),
{
    let mut r: Vec<usize> = Vec::new();
    let mut i: usize = 0;
    while i < samples.len()
        invariant
            i <= samples.len(),
            r@ == incomplete_upto(samples@, channel_count as nat, i as int),
        decreases samples.len() - i,
    {
        if samples[i].readings.len() < channel_count {
            r.push(i);
        }
        i += 1;
    }
    r
}

/// The per-channel series of a run: the shared times, one sequence of
/// readings per channel (index-aligned with `times`), and the incomplete
/// lines that were left out.
#[derive(Debug)]
pub struct Series {
    pub times: Vec<u64>,
    pub channels: Vec<Vec<u32>>,
    pub incomplete: Vec<usize>,
}

/// Splits parsed lines into `channel_count` aligned series. Readings beyond
/// the first `channel_count` of a line are ignored.
pub fn build_series(samples: &Vec<TemperatureLine>, channel_count: usize) -> (r: Series)
    ensures
        r.times@ == spec_series_times(samples@, channel_count as nat),
        r.channels.len() == channel_count,
        forall|k: int|
            0 <= k < channel_count ==> #[trigger] r.channels[k]@ == spec_channel_values(
                samples@,
                channel_count as nat,
                k,
            ),
        forall|k: int| 0 <= k < channel_count ==> #[trigger] r.channels[k].len() == r.times.len(),
        r.incomplete@ == spec_incomplete_lines(samples@, channel_count as nat),
{
    let times = series_times(samples, channel_count);
    let mut channels: Vec<Vec<u32>> = Vec::new();
    let mut k: usize = 0;
    while k < channel_count
        invariant
            k <= channel_count,
            channels.len() == k,
            times@ == spec_series_times(samples@, channel_count as nat),
            forall|j: int|
                0 <= j < k ==> #[trigger] channels[j]@ == spec_channel_values(
                    samples@,
                    channel_count as nat,
                    j,
                ),
            forall|j: int| 0 <= j < k ==> #[trigger] channels[j].len() == times.len(),
        decreases channel_count - k,
    {
        let values = channel_values(samples, channel_count, k);
        channels.push(values);
        k += 1;
    }
    let incomplete = incomplete_lines(samples, channel_count);
    Series { times, channels, incomplete }
}

proof fn lemma_incomplete_upto_bounded(samples: Seq<TemperatureLine>, c: nat, n: int)
    requires
        0 <= n <= samples.len() <= usize::MAX,
    ensures
        forall|j: int|
            0 <= j < incomplete_upto(samples, c, n).len() ==> #[trigger] incomplete_upto(
                samples,
                c,
                n,
            )[j] < n,
        forall|j: int, l: int|
            0 <= j < l < incomplete_upto(samples, c, n).len() ==> #[trigger] incomplete_upto(
                samples,
                c,
                n,
            )[j] < #[trigger] incomplete_upto(samples, c, n)[l],
        n > 0 && !is_complete(samples[n - 1], c) ==> incomplete_upto(samples, c, n).last() == n
            - 1,
    decreases n,
{
    if n > 0 {
        lemma_incomplete_upto_bounded(samples, c, n - 1);
        let prev = incomplete_upto(samples, c, n - 1);
        let cur = incomplete_upto(samples, c, n);
        assert forall|j: int| 0 <= j < cur.len() implies #[trigger] cur[j] < n by {
            if j < prev.len() {
                assert(cur[j] == prev[j]);
            }
        }
        assert forall|j: int, l: int| 0 <= j < l < cur.len() implies #[trigger] cur[j]
            < #[trigger] cur[l] by {
            assert(cur[j] == prev[j]);
            if l < prev.len() {
                assert(cur[l] == prev[l]);
            }
        }
    }
}

proof fn lemma_incomplete_upto_keeps(samples: Seq<TemperatureLine>, c: nat, i: int, n: int)
    requires
        0 <= i < n <= samples.len() <= usize::MAX,
        !is_complete(samples[i], c),
    ensures
        incomplete_upto(samples, c, n).contains(i as usize),
    decreases n,
{
    if n - 1 > i {
        lemma_incomplete_upto_keeps(samples, c, i, n - 1);
        let prev = incomplete_upto(samples, c, n - 1);
        let j = choose|j: int| 0 <= j < prev.len() && prev[j] == i as usize;
        if !is_complete(samples[n - 1], c) {
            assert(prev.push((n - 1) as usize)[j] == i as usize);
        }
    } else {
        lemma_incomplete_upto_bounded(samples, c, n);
        let cur = incomplete_upto(samples, c, n);
        assert(cur[cur.len() - 1] == i as usize);
    }
}

proof fn lemma_complete_upto_remove(samples: Seq<TemperatureLine>, c: nat, i: int, n: int)
    requires
        0 <= i < samples.len(),
        0 <= n <= samples.len(),
        !is_complete(samples[i], c),
    ensures
        n <= i ==> complete_upto(samples.remove(i), c, n) == complete_upto(samples, c, n),
        n > i ==> complete_upto(samples.remove(i), c, n - 1) == complete_upto(samples, c, n),
    decreases n,
{
    let rest = samples.remove(i);
    if n > 0 {
        lemma_complete_upto_remove(samples, c, i, n - 1);
        if n - 1 > i {
            assert(rest[n - 2] == samples[n - 1]);
        } else if n - 1 < i {
            assert(rest[n - 1] == samples[n - 1]);
        }
    }
}

/// A line with fewer readings than channels adds nothing to any series: the
/// series are those of the input without that line. It is reported as
/// incomplete, and no line is reported twice.
pub proof fn lemma_incomplete_line_excluded(
    samples: Seq<TemperatureLine>,
    channel_count: nat,
    i: int,
)
    requires
        0 <= i < samples.len() <= usize::MAX,
        samples[i].readings.len() < channel_count,
    ensures
        spec_series_times(samples, channel_count) == spec_series_times(
            samples.remove(i),
            channel_count,
        ),
        forall|k: int|
            0 <= k < channel_count ==> #[trigger] spec_channel_values(samples, channel_count, k)
                == spec_channel_values(samples.remove(i), channel_count, k),
        spec_incomplete_lines(samples, channel_count).contains(i as usize),
        forall|j: int, l: int|
            0 <= j < l < spec_incomplete_lines(samples, channel_count).len()
                ==> #[trigger] spec_incomplete_lines(samples, channel_count)[j]
                != #[trigger] spec_incomplete_lines(samples, channel_count)[l],
{
    lemma_complete_upto_remove(samples, channel_count, i, samples.len() as int);
    lemma_incomplete_upto_keeps(samples, channel_count, i, samples.len() as int);
    lemma_incomplete_upto_bounded(samples, channel_count, samples.len() as int);
}

} // verus!
