//! Piecewise-linear interpolation: one line through each pair of
//! consecutive points.
use vstd::prelude::*;
use crate::fit::{FitError, LinearFit, Ratio};

verus! {

/// The segment through `(t0, v0)` and `(t1, v1)`. The slope is
/// `(v1 - v0) / (t1 - t0)`, and the intercept `v1 - slope * t1`, which is
/// `(v0 * t1 - v1 * t0) / (t1 - t0)`.
pub open spec fn spec_segment(t0: u64, v0: u32, t1: u64, v1: u32) -> LinearFit {
    LinearFit {
        x_lo: t0,
        x_hi: t1,
        intercept: Ratio { num: (v0 * t1 - v1 * t0) as i128, den: (t1 - t0) as i128 },
        slope: Ratio { num: (v1 - v0) as i128, den: (t1 - t0) as i128 },
    }
}

/// Whether no two consecutive times are equal.
pub open spec fn distinct_steps(times: Seq<u64>) -> bool {
    forall|k: int| 0 <= k < times.len() - 1 ==> #[trigger] times[k] != times[k + 1]
}

/// One segment per pair of consecutive points, in order: `n - 1` segments for
/// `n` points, none for fewer than two. Fails when two consecutive times are
/// equal.
pub fn piece_wise_linear_interpolation(times: &Vec<u64>, readings_core: &Vec<u32>) -> (r: Result<
    Vec<LinearFit>,
    FitError,
>)
    requires
        times.len() == readings_core.len(),
    ensures
        r is Ok <==> distinct_steps(times@),
        r is Err ==> r == Err::<Vec<LinearFit>, FitError>(FitError::ZeroInterval),
        r matches Ok(segs) ==> {
            &&& segs.len() == if times.len() < 2 { 0 } else { times.len() - 1 }
            &&& forall|k: int|
                0 <= k < segs.len() ==> #[trigger] segs[k] == spec_segment(
                    times[k],
                    readings_core[k],
                    times[k + 1],
                    readings_core[k + 1],
                )
        },
{
    let mut segs: Vec<LinearFit> = Vec::new();
    let mut k: usize = 0;
    while k + 1 < times.len()
        invariant
            times.len() == readings_core.len(),
            k == segs.len(),
            times.len() >= 1 ==> k < times.len(),
            times.len() == 0 ==> k == 0,
            forall|j: int| 0 <= j < k ==> #[trigger] times[j] != times[j + 1],
            forall|j: int|
                0 <= j < k ==> #[trigger] segs[j] == spec_segment(
                    times[j],
                    readings_core[j],
                    times[j + 1],
                    readings_core[j + 1],
                ),
        decreases times.len() - k,
    {
        let t0 = times[k] as i128;
        let t1 = times[k + 1] as i128;
        let v0 = readings_core[k] as i128;
        let v1 = readings_core[k + 1] as i128;
        if t0 == t1 {
            return Err(FitError::ZeroInterval);
        }
        proof {
            assert(0 <= v0 * t1 <= 0xffff_ffff * 0xffff_ffff_ffff_ffffi128) by (nonlinear_arith)
                requires
                    0 <= v0 <= 0xffff_ffff,
                    0 <= t1 <= 0xffff_ffff_ffff_ffffi128,
            ;
            assert(0 <= v1 * t0 <= 0xffff_ffff * 0xffff_ffff_ffff_ffffi128) by (nonlinear_arith)
                requires
                    0 <= v1 <= 0xffff_ffff,
                    0 <= t0 <= 0xffff_ffff_ffff_ffffi128,
            ;
        }
        let seg = LinearFit {
            x_lo: times[k],
            x_hi: times[k + 1],
            intercept: Ratio { num: v0 * t1 - v1 * t0, den: t1 - t0 },
            slope: Ratio { num: v1 - v0, den: t1 - t0 },
        };
        segs.push(seg);
        k += 1;
    }
    Ok(segs)
}

/// Each segment interpolates: its line goes through both of its points,
/// `intercept + slope * t == v` at `(t0, v0)` and at `(t1, v1)`.
pub proof fn lemma_segment_interpolates(t0: u64, v0: u32, t1: u64, v1: u32)
    requires
        t0 != t1,
    ensures
        ({
            let seg = spec_segment(t0, v0, t1, v1);
            &&& seg.intercept.den == seg.slope.den
            &&& seg.slope.den != 0
            &&& seg.intercept.num + seg.slope.num * t0 == v0 * seg.slope.den
            &&& seg.intercept.num + seg.slope.num * t1 == v1 * seg.slope.den
        }),
{
    let (a, b, c, d) = (t0 as int, v0 as int, t1 as int, v1 as int);
    assert(0 <= b * c <= 0xffff_ffff * 0xffff_ffff_ffff_ffff) by (nonlinear_arith)
        requires
            0 <= b <= 0xffff_ffff,
            0 <= c <= 0xffff_ffff_ffff_ffff,
    ;
    assert(0 <= d * a <= 0xffff_ffff * 0xffff_ffff_ffff_ffff) by (nonlinear_arith)
        requires
            0 <= d <= 0xffff_ffff,
            0 <= a <= 0xffff_ffff_ffff_ffff,
    ;
    assert((b * c - d * a) + (d - b) * a == b * (c - a)) by (nonlinear_arith);
    assert((b * c - d * a) + (d - b) * c == d * (c - a)) by (nonlinear_arith);
}

} // verus!
