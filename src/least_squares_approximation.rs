//! Least-squares approximation: one line fitted to all points at once.
//!
//! With `n` points, `Sx = sum t`, `Sy = sum v`, `Sxx = sum t*t`,
//! `Sxy = sum t*v` and `det = n*Sxx - Sx*Sx`, the fitted line has slope
//! `(n*Sxy - Sx*Sy) / det` and intercept `(Sy*Sxx - Sx*Sxy) / det`.
use vstd::prelude::*;
use crate::fit::{FitError, LinearFit, Ratio};

verus! {

/// The sum of the first `n` terms of `s`.
pub open spec fn prefix_sum(s: Seq<int>, n: int) -> int
    decreases n,
{
    if n <= 0 {
        0
    } else {
        prefix_sum(s, n - 1) + s[n - 1]
    }
}

pub open spec fn sum(s: Seq<int>) -> int {
    prefix_sum(s, s.len() as int)
}

pub open spec fn xs(t: Seq<u64>) -> Seq<int> {
    Seq::new(t.len(), |i: int| t[i] as int)
}

pub open spec fn ys(v: Seq<u32>) -> Seq<int> {
    Seq::new(v.len(), |i: int| v[i] as int)
}

pub open spec fn squares(t: Seq<u64>) -> Seq<int> {
    Seq::new(t.len(), |i: int| t[i] * t[i])
}

pub open spec fn products(t: Seq<u64>, v: Seq<u32>) -> Seq<int> {
    Seq::new(t.len(), |i: int| t[i] * v[i])
}

/// The four sums of the normal equations.
pub open spec fn sx(t: Seq<u64>) -> int {
    sum(xs(t))
}

pub open spec fn sy(v: Seq<u32>) -> int {
    sum(ys(v))
}

pub open spec fn sxx(t: Seq<u64>) -> int {
    sum(squares(t))
}

pub open spec fn sxy(t: Seq<u64>, v: Seq<u32>) -> int {
    sum(products(t, v))
}

pub open spec fn determinant(t: Seq<u64>) -> int {
    t.len() * sxx(t) - sx(t) * sx(t)
}

pub open spec fn slope_numerator(t: Seq<u64>, v: Seq<u32>) -> int {
    t.len() * sxy(t, v) - sx(t) * sy(v)
}

pub open spec fn intercept_numerator(t: Seq<u64>, v: Seq<u32>) -> int {
    sy(v) * sxx(t) - sx(t) * sxy(t, v)
}

pub open spec fn fits_i128(x: int) -> bool {
    x <= i128::MAX
}

/// Whether every sum and product that the fit computes fits in an `i128`.
pub open spec fn in_range(t: Seq<u64>, v: Seq<u32>) -> bool {
    let n = t.len() as int;
    &&& fits_i128(sx(t))
    &&& fits_i128(sy(v))
    &&& fits_i128(sxx(t))
    &&& fits_i128(sxy(t, v))
    &&& fits_i128(n * sxx(t))
    &&& fits_i128(sx(t) * sx(t))
    &&& fits_i128(n * sxy(t, v))
    &&& fits_i128(sx(t) * sy(v))
    &&& fits_i128(sy(v) * sxx(t))
    &&& fits_i128(sx(t) * sxy(t, v))
}

/// The least-squares line through the points `(t[i], v[i])`.
pub open spec fn spec_least_squares(t: Seq<u64>, v: Seq<u32>) -> LinearFit {
    LinearFit {
        x_lo: t[0],
        x_hi: t[t.len() - 1],
        intercept: Ratio {
            num: intercept_numerator(t, v) as i128,
            den: determinant(t) as i128,
        },
        slope: Ratio { num: slope_numerator(t, v) as i128, den: determinant(t) as i128 },
    }
}

/// A prefix sum of terms that are never negative grows with the prefix.
pub proof fn lemma_prefix_sum_monotone(s: Seq<int>, i: int, j: int)
    requires
        0 <= i <= j <= s.len(),
        forall|k: int| 0 <= k < s.len() ==> #[trigger] s[k] >= 0,
    ensures
        0 <= prefix_sum(s, i) <= prefix_sum(s, j),
    decreases j,
{
    if i < j {
        lemma_prefix_sum_monotone(s, i, j - 1);
    } else if j > 0 {
        lemma_prefix_sum_monotone(s, j - 1, j - 1);
    }
}

/// The product of two values that are not negative is not negative.
proof fn lemma_product_nonneg(a: int, b: int)
    requires
        0 <= a,
        0 <= b,
    ensures
        0 <= a * b,
{
    assert(0 <= a * b) by (nonlinear_arith)
        requires
            0 <= a,
            0 <= b,
    ;
}

/// The least-squares line through all points `(times[i], readings_core[i])`,
/// over `[times[0], times[n - 1]]`. Fails with `Overflow` when an
/// intermediate value does not fit in an `i128`, and otherwise with
/// `ZeroDeterminant` when the times have no spread.
pub fn least_squares_approximation(times: &Vec<u64>, readings_core: &Vec<u32>) -> (r: Result<
    LinearFit,
    FitError,
>)
    requires
        times.len() == readings_core.len(),
    ensures
        r == Err::<LinearFit, FitError>(FitError::Overflow) <==> !in_range(times@, readings_core@),
        r == Err::<LinearFit, FitError>(FitError::ZeroDeterminant) <==> in_range(
            times@,
            readings_core@,
        ) && determinant(times@) == 0,
        r is Ok <==> in_range(times@, readings_core@) && determinant(times@) != 0,
        r matches Ok(fit) ==> fit == spec_least_squares(times@, readings_core@),
{
    let ghost t = times@;
    let ghost v = readings_core@;
    let n = times.len();
    let mut sum_x: i128 = 0;
    let mut sum_y: i128 = 0;
    let mut sum_x2: i128 = 0;
    let mut sum_xy: i128 = 0;
    let mut i: usize = 0;
    proof {
        assert forall|k: int| 0 <= k < n implies #[trigger] squares(t)[k] >= 0 by {
            lemma_product_nonneg(t[k] as int, t[k] as int);
        }
        assert forall|k: int| 0 <= k < n implies #[trigger] products(t, v)[k] >= 0 by {
            lemma_product_nonneg(t[k] as int, v[k] as int);
        }
    }
    while i < n
        invariant
            n == times.len() == readings_core.len(),
            t == times@,
            v == readings_core@,
            i <= n,
            forall|k: int| 0 <= k < n ==> #[trigger] squares(t)[k] >= 0,
            forall|k: int| 0 <= k < n ==> #[trigger] products(t, v)[k] >= 0,
            sum_x == prefix_sum(xs(t), i as int),
            sum_y == prefix_sum(ys(v), i as int),
            sum_x2 == prefix_sum(squares(t), i as int),
            sum_xy == prefix_sum(products(t, v), i as int),
        decreases n - i,
    {
        let x = times[i] as i128;
        let y = readings_core[i] as i128;
        proof {
            lemma_prefix_sum_monotone(xs(t), i as int + 1, n as int);
            lemma_prefix_sum_monotone(ys(v), i as int + 1, n as int);
            lemma_prefix_sum_monotone(squares(t), i as int + 1, n as int);
            lemma_prefix_sum_monotone(products(t, v), i as int + 1, n as int);
            lemma_prefix_sum_monotone(xs(t), i as int, i as int);
            lemma_prefix_sum_monotone(ys(v), i as int, i as int);
            lemma_prefix_sum_monotone(squares(t), i as int, i as int);
            lemma_prefix_sum_monotone(products(t, v), i as int, i as int);
            assert(prefix_sum(xs(t), i + 1) == sum_x + x);
            assert(prefix_sum(ys(v), i + 1) == sum_y + y);
            assert(prefix_sum(squares(t), i + 1) == sum_x2 + x * x);
            assert(prefix_sum(products(t, v), i + 1) == sum_xy + x * y);
            assert(0 <= x * y <= 0xffff_ffff_ffff_ffffi128 * 0xffff_ffff) by (nonlinear_arith)
                requires
                    0 <= x <= 0xffff_ffff_ffff_ffffi128,
                    0 <= y <= 0xffff_ffff,
            ;
        }
        let x2 = match x.checked_mul(x) {
            Some(p) => p,
            None => return Err(FitError::Overflow),
        };
        sum_x = match sum_x.checked_add(x) {
            Some(s) => s,
            None => return Err(FitError::Overflow),
        };
        sum_y = match sum_y.checked_add(y) {
            Some(s) => s,
            None => return Err(FitError::Overflow),
        };
        sum_x2 = match sum_x2.checked_add(x2) {
            Some(s) => s,
            None => return Err(FitError::Overflow),
        };
        sum_xy = match sum_xy.checked_add(x * y) {
            Some(s) => s,
            None => return Err(FitError::Overflow),
        };
        i += 1;
    }
    let k = n as i128;
    proof {
        lemma_prefix_sum_monotone(xs(t), 0, n as int);
        lemma_prefix_sum_monotone(ys(v), 0, n as int);
        lemma_prefix_sum_monotone(squares(t), 0, n as int);
        lemma_prefix_sum_monotone(products(t, v), 0, n as int);
        lemma_product_nonneg(k as int, sum_x2 as int);
        lemma_product_nonneg(sum_x as int, sum_x as int);
        lemma_product_nonneg(k as int, sum_xy as int);
        lemma_product_nonneg(sum_x as int, sum_y as int);
        lemma_product_nonneg(sum_y as int, sum_x2 as int);
        lemma_product_nonneg(sum_x as int, sum_xy as int);
    }
    let n_x2 = match k.checked_mul(sum_x2) {
        Some(p) => p,
        None => return Err(FitError::Overflow),
    };
    let x_x = match sum_x.checked_mul(sum_x) {
        Some(p) => p,
        None => return Err(FitError::Overflow),
    };
    let n_xy = match k.checked_mul(sum_xy) {
        Some(p) => p,
        None => return Err(FitError::Overflow),
    };
    let x_y = match sum_x.checked_mul(sum_y) {
        Some(p) => p,
        None => return Err(FitError::Overflow),
    };
    let y_x2 = match sum_y.checked_mul(sum_x2) {
        Some(p) => p,
        None => return Err(FitError::Overflow),
    };
    let x_xy = match sum_x.checked_mul(sum_xy) {
        Some(p) => p,
        None => return Err(FitError::Overflow),
    };
    let det = n_x2 - x_x;
    if det == 0 {
        return Err(FitError::ZeroDeterminant);
    }
    Ok(
        LinearFit {
            x_lo: times[0],
            x_hi: times[n - 1],
            intercept: Ratio { num: y_x2 - x_xy, den: det },
            slope: Ratio { num: n_xy - x_y, den: det },
        },
    )
}

proof fn lemma_linear_sums(t: Seq<u64>, v: Seq<u32>, p: int, q: int, r: int, n: int)
    requires
        t.len() == v.len(),
        0 <= n <= t.len(),
        forall|i: int| 0 <= i < t.len() ==> q * #[trigger] v[i] == p + r * t[i],
    ensures
        q * prefix_sum(ys(v), n) == n * p + r * prefix_sum(xs(t), n),
        q * prefix_sum(products(t, v), n) == p * prefix_sum(xs(t), n) + r * prefix_sum(
            squares(t),
            n,
        ),
    decreases n,
{
    if n > 0 {
        lemma_linear_sums(t, v, p, q, r, n - 1);
        let (x, y) = (t[n - 1] as int, v[n - 1] as int);
        let (sy, sx, sxy, sxx) = (
            prefix_sum(ys(v), n - 1),
            prefix_sum(xs(t), n - 1),
            prefix_sum(products(t, v), n - 1),
            prefix_sum(squares(t), n - 1),
        );
        assert(q * y == p + r * x);
        assert(prefix_sum(ys(v), n) == sy + y);
        assert(prefix_sum(xs(t), n) == sx + x);
        assert(prefix_sum(products(t, v), n) == sxy + x * y);
        assert(prefix_sum(squares(t), n) == sxx + x * x);
        assert(q * (sy + y) == q * sy + q * y) by (nonlinear_arith);
        assert(n * p + r * (sx + x) == (n - 1) * p + r * sx + (p + r * x)) by (nonlinear_arith);
        assert(q * (sxy + x * y) == q * sxy + x * (q * y)) by (nonlinear_arith);
        assert(p * (sx + x) + r * (sxx + x * x) == (p * sx + r * sxx) + x * (p + r * x))
            by (nonlinear_arith);
    } else {
        assert(q * 0 == 0 * p + r * 0) by (nonlinear_arith);
    }
}

/// On points that all lie on one line, `q * v == p + r * t`, the fit is that
/// line: with `q` and the determinant non-zero, its slope is `r / q` and its
/// intercept `p / q`.
pub proof fn lemma_exact_on_a_line(t: Seq<u64>, v: Seq<u32>, p: int, q: int, r: int)
    requires
        t.len() == v.len(),
        forall|i: int| 0 <= i < t.len() ==> q * #[trigger] v[i] == p + r * t[i],
    ensures
        slope_numerator(t, v) * q == r * determinant(t),
        intercept_numerator(t, v) * q == p * determinant(t),
{
    let n = t.len() as int;
    lemma_linear_sums(t, v, p, q, r, n);
    let (sx, sy, sxx, sxy) = (sx(t), sy(v), sxx(t), sxy(t, v));
    assert((n * sxy - sx * sy) * q == n * (q * sxy) - sx * (q * sy)) by (nonlinear_arith);
    assert(n * (p * sx + r * sxx) - sx * (n * p + r * sx) == r * (n * sxx - sx * sx))
        by (nonlinear_arith);
    assert((sy * sxx - sx * sxy) * q == sxx * (q * sy) - sx * (q * sxy)) by (nonlinear_arith);
    assert(sxx * (n * p + r * sx) - sx * (p * sx + r * sxx) == p * (n * sxx - sx * sx))
        by (nonlinear_arith);
}

} // verus!
