//! Laws that relate fitting, updating and standardizing to one another.
use vstd::prelude::*;

verus! {

/// The standard scores of a batch, taken from the batch's own mean in units
/// of any `scale`, have mean zero, and their variance is the batch's variance
/// in units of `scale * scale`.
pub proof fn standardized_batch_is_centered(batch: Seq<i32>, ddof: nat, scale: real)
    requires
        batch.len() > ddof,
        scale > 0real,
    ensures
        ({
            let moments = crate::model::fitted(batch, ddof);
            let scores = crate::statistics::standardized(
                crate::statistics::samples(batch),
                moments.mean,
                scale,
            );
            &&& crate::statistics::mean(scores) == 0real
            &&& crate::statistics::variance(scores, ddof) * (scale * scale) == moments.variance
        }),
{
    let s = crate::statistics::samples(batch);
    let center = crate::statistics::mean(s);
    let scores = crate::statistics::standardized(s, center, scale);
    let n = batch.len() as real;
    let corrected = (batch.len() - ddof) as real;
    crate::statistics::lemma_sum_standardized(s, center, scale);
    crate::statistics::lemma_sum_sq_standardized(s, center, scale);
    crate::algebra::lemma_quotient_times_divisor(crate::statistics::sum(s), n);
    assert(n * center == center * n) by (nonlinear_arith);
    crate::algebra::lemma_zero_product(crate::statistics::sum(scores), scale);
    crate::algebra::lemma_zero_quotient(n);
    crate::algebra::lemma_quotient_times_factor(
        crate::statistics::sum_sq_dev(scores, 0real),
        corrected,
        scale * scale,
    );
}

/// A batch with a variance other than zero, standardized by its own mean and
/// standard deviation, has mean zero and variance one.
pub proof fn standardized_batch_has_unit_variance(batch: Seq<i32>, ddof: nat, deviation: real)
    requires
        batch.len() > ddof,
        deviation > 0real,
        deviation * deviation == crate::model::fitted(batch, ddof).variance,
    ensures
        ({
            let moments = crate::model::fitted(batch, ddof);
            let scores = crate::statistics::standardized(
                crate::statistics::samples(batch),
                moments.mean,
                deviation,
            );
            &&& crate::statistics::mean(scores) == 0real
            &&& crate::statistics::variance(scores, ddof) == 1real
        }),
{
    let moments = crate::model::fitted(batch, ddof);
    let scores = crate::statistics::standardized(
        crate::statistics::samples(batch),
        moments.mean,
        deviation,
    );
    standardized_batch_is_centered(batch, ddof, deviation);
    crate::algebra::lemma_product_positive(deviation, deviation);
    assert(1real * (deviation * deviation) == deviation * deviation) by (nonlinear_arith);
    crate::algebra::lemma_cancel_factor(
        crate::statistics::variance(scores, ddof),
        1real,
        deviation * deviation,
    );
}

/// Rounding each standard score, in units of `1 / scale`, toward zero moves
/// the sum of the scores by less than one unit for each value.
proof fn lemma_rounded_scores(batch: Seq<i32>, center: real, unit: real, scale: real)
    requires
        batch.len() > 0,
        unit != 0real,
    ensures
        ({
            let exact = crate::statistics::standardized(
                crate::statistics::samples(batch),
                center,
                unit,
            );
            let rounded = crate::statistics::whole(
                Seq::new(
                    batch.len(),
                    |i: int|
                        crate::fixed::truncate(
                            crate::statistics::standard_score(batch[i] as real, center, unit)
                                * scale,
                        ),
                ),
            );
            let shift = crate::statistics::sum(rounded) - crate::statistics::sum(exact) * scale;
            -(batch.len() as real) < shift < batch.len() as real
        }),
    decreases batch.len(),
{
    let exact = crate::statistics::standardized(crate::statistics::samples(batch), center, unit);
    let rounded = crate::statistics::whole(
        Seq::new(
            batch.len(),
            |i: int|
                crate::fixed::truncate(
                    crate::statistics::standard_score(batch[i] as real, center, unit) * scale,
                ),
        ),
    );
    let front = batch.drop_last();
    let exact_front = crate::statistics::standardized(
        crate::statistics::samples(front),
        center,
        unit,
    );
    let rounded_front = crate::statistics::whole(
        Seq::new(
            front.len(),
            |i: int|
                crate::fixed::truncate(
                    crate::statistics::standard_score(front[i] as real, center, unit) * scale,
                ),
        ),
    );
    assert(exact.drop_last() =~= exact_front);
    assert(rounded.drop_last() =~= rounded_front);
    crate::algebra::lemma_distribute(
        crate::statistics::sum(exact_front),
        exact.last(),
        scale,
    );
    if front.len() > 0 {
        lemma_rounded_scores(front, center, unit, scale);
    } else {
        assert(crate::statistics::sum(exact_front) * scale == 0real) by (nonlinear_arith)
            requires
                crate::statistics::sum(exact_front) == 0real,
        ;
    }
}

/// The square of anything between `-n` and `n` is below the square of `n`.
proof fn lemma_square_below(a: real, n: real)
    by (nonlinear_arith)
    requires
        -n < a < n,
    ensures
        0real <= a * a < n * n,
{
}

/// An inequality between multiples of a positive factor holds of what is
/// multiplied.
proof fn lemma_cancel_inequality(a: real, b: real, c: real)
    by (nonlinear_arith)
    requires
        a * c <= b * c,
        c > 0real,
    ensures
        a <= b,
{
}

/// The round trip: the scores that `transform` returns for the very batch
/// its standardizer was fitted to have a mean within `1e-9` of zero and a
/// standard deviation, under the same correction, within `1e-9` of one,
/// whenever the batch's variance is not zero. The scores are in units of
/// `1 / SCALE`: their sum times `10^9` is at most `n * SCALE` in magnitude,
/// and their variance over `SCALE * SCALE` lies between the squares of
/// `1 - 1e-9` and of `1 + 1e-9`.
pub proof fn transformed_fitted_batch_is_standardized(batch: Seq<i32>, ddof: nat)
    requires
        ddof < batch.len() <= u32::MAX,
        crate::model::fitted(batch, ddof).variance != 0real,
    ensures
        ({
            let scores = crate::statistics::whole(
                crate::transformer::standard_scores(crate::model::fitted(batch, ddof), batch),
            );
            let total = crate::statistics::sum(scores);
            let variance = crate::statistics::variance(scores, ddof);
            let n = batch.len() as real;
            let scale = crate::fixed::SCALE as real;
            &&& -(n * scale) <= total * 1_000_000_000real <= n * scale
            &&& (999_999_999real * 999_999_999real) * (scale * scale) <= variance * (
            1_000_000_000real * 1_000_000_000real)
            &&& variance * (1_000_000_000real * 1_000_000_000real) <= (1_000_000_001real
                * 1_000_000_001real) * (scale * scale)
        }),
{
    let moments = crate::model::fitted(batch, ddof);
    let s = crate::statistics::samples(batch);
    let scores = crate::statistics::whole(crate::transformer::standard_scores(moments, batch));
    let n = batch.len() as real;
    let c = (batch.len() - ddof) as real;
    let k = crate::fixed::SCALE as real;
    let count: int = batch.len() as int;
    let sum: int = crate::model::whole_sum(batch);
    let sum_sq: int = crate::model::whole_sum_sq(batch);
    let spread: int = count * sum_sq - sum * sum;
    let divisor: int = count * (count - ddof);
    assert(k == 281474976710656real);
    assert(k * k == 79228162514264337593543950336real) by (nonlinear_arith)
        requires
            k == 281474976710656real,
    ;
    // the variance is a quotient of whole numbers
    crate::model::lemma_sums_are_whole(batch);
    crate::model::lemma_fitted_from_sums(batch, ddof);
    crate::transformer::lemma_variance_quotient(ddof, batch.len(), sum, sum_sq);
    crate::model::lemma_sums_spread(batch);
    crate::algebra::lemma_cast_product(sum, sum);
    crate::algebra::lemma_cast_product(count, sum_sq);
    assert(divisor < 0x1_0000_0000_0000_0000) by (nonlinear_arith)
        requires
            divisor == count * (count - ddof),
            0 < count <= 0xffff_ffff,
            0 <= ddof < count,
    ;
    assert(spread >= 1) by {
        if spread == 0 {
            crate::algebra::lemma_zero_quotient(divisor as real);
        }
    }
    crate::transformer::lemma_rounded_deviation_bounds(spread, divisor);
    let variance = moments.variance;
    let deviation = crate::transformer::rounded_deviation(variance);
    // the sum of the scores
    let exact = crate::statistics::standardized(s, moments.mean, deviation);
    crate::statistics::lemma_sum_standardized(s, moments.mean, deviation);
    crate::algebra::lemma_quotient_times_divisor(crate::statistics::sum(s), n);
    assert(n * moments.mean == moments.mean * n) by (nonlinear_arith);
    crate::algebra::lemma_zero_product(crate::statistics::sum(exact), deviation);
    assert(crate::statistics::sum(exact) * k == 0real) by (nonlinear_arith)
        requires
            crate::statistics::sum(exact) == 0real,
    ;
    lemma_rounded_scores(batch, moments.mean, deviation, k);
    assert(crate::transformer::standard_scores(moments, batch) =~= Seq::new(
        batch.len(),
        |i: int|
            crate::fixed::truncate(
                crate::statistics::standard_score(batch[i] as real, moments.mean, deviation)
                    * k,
            ),
    ));
    let total = crate::statistics::sum(scores);
    assert(-n < total < n);
    // the squares of the scores, against those of the scores before rounding
    let unit = deviation / k;
    crate::algebra::lemma_quotient_times_divisor(deviation, k);
    assert(unit > 0real) by {
        if unit <= 0real {
            assert(unit * k <= 0real) by (nonlinear_arith)
                requires
                    unit <= 0real,
                    k > 0real,
            ;
        }
    }
    let fine = crate::statistics::standardized(s, moments.mean, unit);
    assert forall|i: int| 0 <= i < scores.len() implies crate::fixed::shrunk(
        #[trigger] scores[i],
        fine[i],
    ) by {
        let x = batch[i] as real;
        let coarse = crate::statistics::standard_score(x, moments.mean, deviation);
        crate::algebra::lemma_quotient_times_divisor(x - moments.mean, deviation);
        assert((coarse * k) * unit == x - moments.mean) by {
            crate::algebra::lemma_regroup3(coarse, k, unit);
            assert(k * unit == unit * k) by (nonlinear_arith);
        }
        crate::algebra::lemma_quotient_unique(coarse * k, x - moments.mean, unit);
        crate::fixed::lemma_truncation_shrinks(coarse * k);
    }
    crate::statistics::lemma_sum_sq_shrunk(scores, fine);
    let rounded_sq = crate::statistics::sum_sq_dev(scores, 0real);
    let fine_sq = crate::statistics::sum_sq_dev(fine, 0real);
    // the squares before rounding, against the variance
    crate::statistics::lemma_sum_sq_standardized(s, moments.mean, unit);
    crate::algebra::lemma_quotient_times_divisor(
        crate::statistics::sum_sq_dev(s, moments.mean),
        c,
    );
    let dd = deviation * deviation;
    let ckk = c * (k * k);
    assert(fine_sq * dd == variance * ckk) by {
        crate::algebra::lemma_regroup4(unit, k, unit, k);
        crate::algebra::lemma_regroup3(fine_sq, unit * unit, k * k);
        crate::algebra::lemma_regroup3(variance, c, k * k);
    }
    crate::algebra::lemma_product_positive(deviation, deviation);
    crate::algebra::lemma_product_nonnegative(c, k * k);
    // fine_sq >= c * k * k
    crate::algebra::lemma_scale_inequality(dd, variance, ckk);
    assert(dd * ckk == ckk * dd && variance * ckk == fine_sq * dd) by (nonlinear_arith)
        requires
            fine_sq * dd == variance * ckk,
    ;
    lemma_cancel_inequality(ckk, fine_sq, dd);
    // fine_sq * 10^18 <= c * k * k * (10^9 + 1)^2
    let big = 1_000_000_000real * 1_000_000_000real;
    let bigger = 1_000_000_001real * 1_000_000_001real;
    crate::algebra::lemma_scale_inequality(variance * big, dd * bigger, ckk);
    assert((fine_sq * big) * dd == (variance * big) * ckk) by {
        crate::algebra::lemma_regroup3(fine_sq, big, dd);
        crate::algebra::lemma_regroup3(variance, big, ckk);
    }
    assert((dd * bigger) * ckk == (ckk * bigger) * dd) by {
        crate::algebra::lemma_regroup3(dd, bigger, ckk);
        crate::algebra::lemma_regroup3(ckk, bigger, dd);
        assert(dd * ckk == ckk * dd) by (nonlinear_arith);
    }
    lemma_cancel_inequality(fine_sq * big, ckk * bigger, dd);
    // the variance of the scores
    let spread_sq = crate::statistics::sum_sq_dev(scores, crate::statistics::mean(scores));
    let result = crate::statistics::variance(scores, ddof);
    crate::statistics::lemma_sum_sq_dev_about_mean(scores);
    crate::algebra::lemma_quotient_times_divisor(spread_sq, c);
    let lost = total * total / n;
    lemma_square_below(total, n);
    crate::algebra::lemma_quotient_below(total * total, n, n);
    crate::algebra::lemma_quotient_nonnegative(total * total, n);
    assert(ckk == 79228162514264337593543950336real * c) by (nonlinear_arith)
        requires
            ckk == c * (k * k),
            k * k == 79228162514264337593543950336real,
    ;
    assert(big == 1_000_000_000_000_000_000real && bigger == 1_000_000_002_000_000_001real);
    assert(999_999_999real * 999_999_999real == 999_999_998_000_000_001real);
    assert(n <= 4294967296real * c);
    assert(spread_sq * 1_000_000_000_000_000_000real <= 1_000_000_002_000_000_001real * ckk);
    assert(999_999_998_000_000_001real * ckk <= spread_sq * 1_000_000_000_000_000_000real);
    // from the sums to the variance
    assert((result * big) * c == spread_sq * big) by {
        crate::algebra::lemma_regroup3(result, big, c);
    }
    assert(((999_999_999real * 999_999_999real) * (k * k)) * c == 999_999_998_000_000_001real
        * ckk) by (nonlinear_arith)
        requires
            ckk == c * (k * k),
    ;
    assert((bigger * (k * k)) * c == 1_000_000_002_000_000_001real * ckk) by (nonlinear_arith)
        requires
            ckk == c * (k * k),
            bigger == 1_000_000_002_000_000_001real,
    ;
    lemma_cancel_inequality((999_999_999real * 999_999_999real) * (k * k), result * big, c);
    lemma_cancel_inequality(result * big, bigger * (k * k), c);
}

/// Of two numbers that are not negative, the one with the smaller square is
/// the smaller.
proof fn lemma_root_order(a: real, b: real)
    by (nonlinear_arith)
    requires
        0real <= a,
        0real <= b,
        a * a <= b * b,
    ensures
        a <= b,
{
}

/// A single score: what a standardizer fitted to `batch` gives for any value
/// `x` is the exact standard score of `x`, in units of `1 / SCALE`, moved by
/// less than one unit toward zero and by at most one part in `10^9` away from
/// it. `deviation` is the batch's true standard deviation.
pub proof fn score_is_close_to_exact(batch: Seq<i32>, ddof: nat, x: i32, deviation: real)
    requires
        ddof < batch.len() <= u32::MAX,
        deviation > 0real,
        deviation * deviation == crate::model::fitted(batch, ddof).variance,
    ensures
        ({
            let moments = crate::model::fitted(batch, ddof);
            let exact = crate::statistics::standard_score(x as real, moments.mean, deviation) * (
            crate::fixed::SCALE as real);
            let score = crate::transformer::standard_score(moments, x) as real;
            &&& exact >= 0real ==> exact - 1real < score && score * 1_000_000_000real <= exact
                * 1_000_000_001real
            &&& exact <= 0real ==> score < exact + 1real && score * 1_000_000_000real >= exact
                * 1_000_000_001real
        }),
{
    let moments = crate::model::fitted(batch, ddof);
    let k = crate::fixed::SCALE as real;
    let count: int = batch.len() as int;
    let sum: int = crate::model::whole_sum(batch);
    let sum_sq: int = crate::model::whole_sum_sq(batch);
    let spread: int = count * sum_sq - sum * sum;
    let divisor: int = count * (count - ddof);
    // the variance is a quotient of whole numbers, and not zero
    crate::model::lemma_sums_are_whole(batch);
    crate::model::lemma_fitted_from_sums(batch, ddof);
    crate::transformer::lemma_variance_quotient(ddof, batch.len(), sum, sum_sq);
    crate::model::lemma_sums_spread(batch);
    crate::algebra::lemma_cast_product(sum, sum);
    crate::algebra::lemma_cast_product(count, sum_sq);
    assert(divisor < 0x1_0000_0000_0000_0000) by (nonlinear_arith)
        requires
            divisor == count * (count - ddof),
            0 < count <= 0xffff_ffff,
            0 <= ddof < count,
    ;
    crate::algebra::lemma_product_positive(deviation, deviation);
    assert(spread >= 1) by {
        if spread == 0 {
            crate::algebra::lemma_zero_quotient(divisor as real);
        }
    }
    crate::transformer::lemma_rounded_deviation_bounds(spread, divisor);
    let rounded = crate::transformer::rounded_deviation(moments.variance);
    // rounded <= deviation, and deviation * 10^9 <= rounded * (10^9 + 1)
    lemma_root_order(rounded, deviation);
    assert((deviation * 1_000_000_000real) * (deviation * 1_000_000_000real) == (deviation
        * deviation) * (1_000_000_000real * 1_000_000_000real) && (rounded * 1_000_000_001real)
        * (rounded * 1_000_000_001real) == (rounded * rounded) * (1_000_000_001real
        * 1_000_000_001real)) by (nonlinear_arith);
    lemma_root_order(deviation * 1_000_000_000real, rounded * 1_000_000_001real);
    // the two scores before rounding
    let a = x as real - moments.mean;
    let exact = crate::statistics::standard_score(x as real, moments.mean, deviation) * k;
    let coarse = crate::statistics::standard_score(x as real, moments.mean, rounded) * k;
    crate::algebra::lemma_quotient_times_divisor(a, deviation);
    crate::algebra::lemma_quotient_times_divisor(a, rounded);
    assert(exact * deviation == a * k) by {
        crate::algebra::lemma_regroup3(a / deviation, k, deviation);
    }
    assert(coarse * rounded == a * k) by {
        crate::algebra::lemma_regroup3(a / rounded, k, rounded);
    }
    assert(k > 0real);
    let score = crate::transformer::standard_score(moments, x) as real;
    if exact >= 0real {
        assert(coarse >= exact && coarse * 1_000_000_000real <= exact * 1_000_000_001real)
            by (nonlinear_arith)
            requires
                exact >= 0real,
                exact * deviation == coarse * rounded,
                0real < rounded <= deviation,
                deviation * 1_000_000_000real <= rounded * 1_000_000_001real,
        ;
    }
    if exact <= 0real {
        assert(coarse <= exact && coarse * 1_000_000_000real >= exact * 1_000_000_001real)
            by (nonlinear_arith)
            requires
                exact <= 0real,
                exact * deviation == coarse * rounded,
                0real < rounded <= deviation,
                deviation * 1_000_000_000real <= rounded * 1_000_000_001real,
        ;
    }
}

/// Fitting a first batch and then updating with a second gives exactly the
/// moments of fitting the two batches joined, whenever each step has enough
/// samples for the degrees-of-freedom correction.
pub proof fn update_after_fit_is_fit_of_concatenation(first: Seq<i32>, second: Seq<i32>, ddof: nat)
    requires
        first.len() > ddof,
        second.len() == 0 || second.len() > ddof,
    ensures
        crate::model::updated(crate::model::fitted(first, ddof), first.len(), second)
            == crate::model::fitted(first + second, ddof),
{
    if second.len() == 0 {
        assert(first + second =~= first);
    } else {
        crate::model::lemma_fitted_from_sums(first, ddof);
        crate::model::lemma_merged_from_sums(
            ddof,
            first.len(),
            crate::model::batch_sum(first),
            crate::model::batch_sum_sq(first),
            second,
        );
        crate::model::lemma_sums_concat(first, second);
        crate::model::lemma_fitted_from_sums(first + second, ddof);
    }
}

/// Updating with a batch in two consecutive parts gives exactly the moments
/// of updating with the whole batch at once, wherever the batch is split,
/// whenever each non-empty part has enough samples for the degrees-of-freedom
/// correction.
pub proof fn update_in_parts_is_update_at_once(
    current: crate::model::Moments,
    count: nat,
    head: Seq<i32>,
    tail: Seq<i32>,
)
    requires
        count > current.ddof,
        head.len() == 0 || head.len() > current.ddof,
        tail.len() == 0 || tail.len() > current.ddof,
    ensures
        crate::model::updated(
            crate::model::updated(current, count, head),
            count + head.len(),
            tail,
        ) == crate::model::updated(current, count, head + tail),
{
    let ddof = current.ddof;
    if head.len() == 0 {
        assert(head + tail =~= tail);
    } else if tail.len() == 0 {
        assert(head + tail =~= head);
    } else {
        let sums = crate::model::lemma_moments_have_sums(current, count);
        crate::model::lemma_merged_from_sums(ddof, count, sums.0, sums.1, head);
        crate::model::lemma_merged_from_sums(
            ddof,
            count + head.len(),
            sums.0 + crate::model::batch_sum(head),
            sums.1 + crate::model::batch_sum_sq(head),
            tail,
        );
        crate::model::lemma_merged_from_sums(ddof, count, sums.0, sums.1, head + tail);
        crate::model::lemma_sums_concat(head, tail);
        assert(count + head.len() + tail.len() == count + (head + tail).len());
    }
}

} // verus!
