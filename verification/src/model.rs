//! The mathematical model of a fitted standardizer and of the two ways to
//! obtain one: from a first batch, and by merging a further batch into an
//! existing one.
use vstd::prelude::*;

verus! {

/// What a fitted standardizer stands for: a mean and a variance, with the
/// degrees-of-freedom correction that the variance was computed under. The
/// standard deviation is the square root of `variance`, which stands here for
/// the standard deviation squared.
pub struct Moments {
    pub ddof: nat,
    pub mean: real,
    pub variance: real,
}

/// The moments of `count` values that add up to `total` and whose squares add
/// up to `total_sq`.
pub open spec fn from_sums(ddof: nat, count: nat, total: real, total_sq: real) -> Moments {
    Moments {
        ddof,
        mean: total / (count as real),
        variance: (total_sq - total * total / (count as real)) / ((count - ddof) as real),
    }
}

/// The moments of one batch, by the standard definitions: the arithmetic mean
/// and the sum of squared deviations from it over `batch.len() - ddof`.
pub open spec fn fitted(batch: Seq<i32>, ddof: nat) -> Moments {
    Moments {
        ddof,
        mean: crate::statistics::mean(crate::statistics::samples(batch)),
        variance: crate::statistics::variance(crate::statistics::samples(batch), ddof),
    }
}

/// The moments after `batch` has been absorbed into `current`, which
/// summarizes `count` earlier samples: the pairwise update of the mean and the
/// pooled variance, each batch's sum of squared deviations weighed by its own
/// corrected size, plus the term for the shift between the two means.
pub open spec fn merged(current: Moments, count: nat, batch: Seq<i32>) -> Moments {
    let ddof = current.ddof;
    let n1 = count as real;
    let n2 = batch.len() as real;
    let n = n1 + n2;
    let batch_mean = crate::statistics::mean(crate::statistics::samples(batch));
    let batch_variance = crate::statistics::variance(crate::statistics::samples(batch), ddof);
    let delta = batch_mean - current.mean;
    Moments {
        ddof,
        mean: current.mean + delta * n2 / n,
        variance: (current.variance * (n1 - ddof as real) + batch_variance * (n2 - ddof as real)
            + delta * delta * n1 * n2 / n) / (n - ddof as real),
    }
}

/// The moments after an update with `batch`: an empty batch changes nothing,
/// any other is merged.
pub open spec fn updated(current: Moments, count: nat, batch: Seq<i32>) -> Moments {
    if batch.len() == 0 {
        current
    } else {
        merged(current, count, batch)
    }
}

/// The raw sum of the squares of a batch's samples.
pub open spec fn batch_sum_sq(batch: Seq<i32>) -> real {
    crate::statistics::sum_sq_dev(crate::statistics::samples(batch), 0real)
}

/// The raw sum of a batch's samples.
pub open spec fn batch_sum(batch: Seq<i32>) -> real {
    crate::statistics::sum(crate::statistics::samples(batch))
}

/// A batch's moments are those of its raw sums.
pub proof fn lemma_fitted_from_sums(batch: Seq<i32>, ddof: nat)
    requires
        batch.len() > 0,
    ensures
        fitted(batch, ddof) == from_sums(ddof, batch.len(), batch_sum(batch), batch_sum_sq(batch)),
{
    let s = crate::statistics::samples(batch);
    crate::statistics::lemma_sum_sq_dev_about_mean(s);
}

/// Merging a batch adds its raw sums to those merged before.
pub proof fn lemma_merged_from_sums(
    ddof: nat,
    count: nat,
    total: real,
    total_sq: real,
    batch: Seq<i32>,
)
    requires
        count > ddof,
        batch.len() > ddof,
    ensures
        merged(from_sums(ddof, count, total, total_sq), count, batch) == from_sums(
            ddof,
            count + batch.len(),
            total + batch_sum(batch),
            total_sq + batch_sum_sq(batch),
        ),
{
    let current = from_sums(ddof, count, total, total_sq);
    let s = crate::statistics::samples(batch);
    let n1 = count as real;
    let n2 = batch.len() as real;
    let w2 = batch_sum(batch);
    let q2 = batch_sum_sq(batch);
    let d = ddof as real;
    let batch_variance = crate::statistics::variance(s, ddof);
    crate::statistics::lemma_sum_sq_dev_about_mean(s);
    crate::algebra::lemma_quotient_times_divisor(total_sq - total * total / n1, n1 - d);
    crate::algebra::lemma_quotient_times_divisor(q2 - w2 * w2 / n2, n2 - d);
    crate::algebra::lemma_pool_mean(n1, total, n2, w2);
    crate::algebra::lemma_pool_sq(n1, total, n2, w2);
    assert(current.variance * (n1 - d) == total_sq - total * total / n1);
    assert(batch_variance * (n2 - d) == q2 - w2 * w2 / n2);
    assert(((count + batch.len()) as nat) as real == n1 + n2);
}

/// Any moments of `count` samples are the moments of some pair of raw sums.
pub proof fn lemma_moments_have_sums(current: Moments, count: nat) -> (sums: (real, real))
    requires
        count > current.ddof,
    ensures
        current == from_sums(current.ddof, count, sums.0, sums.1),
{
    let n = count as real;
    let d = current.ddof as real;
    let total = current.mean * n;
    let total_sq = current.variance * (n - d) + total * total / n;
    crate::algebra::lemma_quotient_unique(current.mean, total, n);
    crate::algebra::lemma_quotient_unique(current.variance, total_sq - total * total / n, n - d);
    (total, total_sq)
}

/// The square of a batch's sum is at most its length times the sum of its
/// squares.
pub proof fn lemma_sums_spread(batch: Seq<i32>)
    ensures
        batch_sum(batch) * batch_sum(batch) <= (batch.len() as real) * batch_sum_sq(batch),
{
    let s = crate::statistics::samples(batch);
    let n = batch.len() as real;
    let t = batch_sum(batch);
    let q = batch_sum_sq(batch);
    if batch.len() == 0 {
        assert(t * t == 0real) by (nonlinear_arith)
            requires
                t == 0real,
        ;
        assert(n * q == 0real) by (nonlinear_arith)
            requires
                n == 0real,
        ;
    } else {
        crate::statistics::lemma_sum_sq_dev_about_mean(s);
        crate::statistics::lemma_sum_sq_dev_nonnegative(s, crate::statistics::mean(s));
        crate::algebra::lemma_scale_inequality(t * t / n, q, n);
        crate::algebra::lemma_quotient_times_divisor(t * t, n);
        assert(q * n == n * q) by (nonlinear_arith);
    }
}

/// The raw sums of a concatenation are the sums of the parts' raw sums.
pub proof fn lemma_sums_concat(a: Seq<i32>, b: Seq<i32>)
    ensures
        batch_sum(a + b) == batch_sum(a) + batch_sum(b),
        batch_sum_sq(a + b) == batch_sum_sq(a) + batch_sum_sq(b),
{
    let sa = crate::statistics::samples(a);
    let sb = crate::statistics::samples(b);
    assert(crate::statistics::samples(a + b) =~= sa + sb);
    crate::statistics::lemma_sum_concat(sa, sb);
    crate::statistics::lemma_sum_sq_dev_concat(sa, sb, 0real);
}

/// The sum of a batch's samples, as a whole number.
pub open spec fn whole_sum(batch: Seq<i32>) -> int
    decreases batch.len(),
{
    if batch.len() == 0 {
        0
    } else {
        whole_sum(batch.drop_last()) + batch.last()
    }
}

/// The sum of the squares of a batch's samples, as a whole number.
pub open spec fn whole_sum_sq(batch: Seq<i32>) -> int
    decreases batch.len(),
{
    if batch.len() == 0 {
        0
    } else {
        whole_sum_sq(batch.drop_last()) + batch.last() * batch.last()
    }
}

/// The raw sums of a batch are whole numbers.
pub proof fn lemma_sums_are_whole(batch: Seq<i32>)
    ensures
        batch_sum(batch) == whole_sum(batch) as real,
        batch_sum_sq(batch) == whole_sum_sq(batch) as real,
    decreases batch.len(),
{
    if batch.len() > 0 {
        let front = batch.drop_last();
        lemma_sums_are_whole(front);
        assert(crate::statistics::samples(batch).drop_last() =~= crate::statistics::samples(
            front,
        ));
        crate::algebra::lemma_cast_product(batch.last() as int, batch.last() as int);
    }
}

} // verus!
