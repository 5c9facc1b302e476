//! The statistics that standardization rests on, over finite sequences of
//! real numbers: sum, arithmetic mean, sum of squared deviations and the
//! variance under a chosen degrees-of-freedom correction.
use vstd::prelude::*;

verus! {

/// The sum of all elements of `s`.
pub open spec fn sum(s: Seq<real>) -> real
    decreases s.len(),
{
    if s.len() == 0 {
        0real
    } else {
        sum(s.drop_last()) + s.last()
    }
}

/// The sum of the squared distances of the elements of `s` from `center`.
pub open spec fn sum_sq_dev(s: Seq<real>, center: real) -> real
    decreases s.len(),
{
    if s.len() == 0 {
        0real
    } else {
        sum_sq_dev(s.drop_last(), center) + (s.last() - center) * (s.last() - center)
    }
}

/// The arithmetic mean of `s`, meaningful for a non-empty `s`.
pub open spec fn mean(s: Seq<real>) -> real {
    sum(s) / (s.len() as real)
}

/// The variance of `s` with divisor `s.len() - ddof`, meaningful where
/// `s.len() > ddof`: `ddof == 1` gives the unbiased sample estimator,
/// `ddof == 0` the population estimator.
pub open spec fn variance(s: Seq<real>, ddof: nat) -> real {
    sum_sq_dev(s, mean(s)) / ((s.len() - ddof) as real)
}

/// The standard score of `x`: its distance from `center` in units of `scale`.
pub open spec fn standard_score(x: real, center: real, scale: real) -> real {
    (x - center) / scale
}

/// Every element of `s` replaced by its standard score.
pub open spec fn standardized(s: Seq<real>, center: real, scale: real) -> Seq<real> {
    Seq::new(s.len(), |i: int| standard_score(s[i], center, scale))
}

/// A batch of integer samples as real numbers.
pub open spec fn samples(batch: Seq<i32>) -> Seq<real> {
    Seq::new(batch.len(), |i: int| batch[i] as real)
}

/// A sequence of whole numbers as real numbers.
pub open spec fn whole(s: Seq<int>) -> Seq<real> {
    Seq::new(s.len(), |i: int| s[i] as real)
}

/// The sum over a concatenation is the sum of the sums.
pub proof fn lemma_sum_concat(a: Seq<real>, b: Seq<real>)
    ensures
        sum(a + b) == sum(a) + sum(b),
    decreases b.len(),
{
    if b.len() == 0 {
        assert(a + b =~= a);
    } else {
        assert((a + b).drop_last() =~= a + b.drop_last());
        lemma_sum_concat(a, b.drop_last());
    }
}

/// Squared deviations from a fixed centre add up over a concatenation.
pub proof fn lemma_sum_sq_dev_concat(a: Seq<real>, b: Seq<real>, center: real)
    ensures
        sum_sq_dev(a + b, center) == sum_sq_dev(a, center) + sum_sq_dev(b, center),
    decreases b.len(),
{
    if b.len() == 0 {
        assert(a + b =~= a);
    } else {
        assert((a + b).drop_last() =~= a + b.drop_last());
        lemma_sum_sq_dev_concat(a, b.drop_last(), center);
    }
}

/// A sum of squares is never negative.
pub proof fn lemma_sum_sq_dev_nonnegative(s: Seq<real>, center: real)
    ensures
        sum_sq_dev(s, center) >= 0real,
    decreases s.len(),
{
    if s.len() > 0 {
        lemma_sum_sq_dev_nonnegative(s.drop_last(), center);
        let d = s.last() - center;
        assert(d * d >= 0real) by (nonlinear_arith);
    }
}

/// Moving the centre: the squared deviations from `center` in terms of the
/// raw sum and the raw sum of squares.
pub proof fn lemma_sum_sq_dev_shift(s: Seq<real>, center: real)
    ensures
        sum_sq_dev(s, center) == sum_sq_dev(s, 0real) - 2real * center * sum(s) + (s.len() as real)
            * center * center,
    decreases s.len(),
{
    if s.len() > 0 {
        let p = s.drop_last();
        let x = s.last();
        lemma_sum_sq_dev_shift(p, center);
        let n = p.len() as real;
        let q = sum_sq_dev(p, 0real);
        let t = sum(p);
        assert(s.len() as real == n + 1real);
        assert((q - 2real * center * t + n * center * center) + (x - center) * (x - center) == (q
            + (x - 0real) * (x - 0real)) - 2real * center * (t + x) + (n + 1real) * center
            * center) by (nonlinear_arith);
    }
}

/// The squared deviations from the mean, from the raw sums.
pub proof fn lemma_sum_sq_dev_about_mean(s: Seq<real>)
    requires
        s.len() > 0,
    ensures
        sum_sq_dev(s, mean(s)) == sum_sq_dev(s, 0real) - sum(s) * sum(s) / (s.len() as real),
{
    let n = s.len() as real;
    let t = sum(s);
    let m = mean(s);
    lemma_sum_sq_dev_shift(s, m);
    crate::algebra::lemma_quotient_times_divisor(t, n);
    assert(t * t / n == m * t) by {
        crate::algebra::lemma_regroup3(m, t, n);
        crate::algebra::lemma_quotient_unique(m * t, t * t, n);
    }
    assert((n * m) * m == m * t) by {
        crate::algebra::lemma_regroup3(n, m, m);
        crate::algebra::lemma_regroup3(m, n, m);
    }
    assert((2real * m) * t == 2real * (m * t)) by {
        crate::algebra::lemma_regroup3(2real, m, t);
    }
}

/// The standard scores add up to the sum of the distances from the centre,
/// in units of `scale`.
pub proof fn lemma_sum_standardized(s: Seq<real>, center: real, scale: real)
    requires
        scale != 0real,
    ensures
        sum(standardized(s, center, scale)) * scale == sum(s) - (s.len() as real) * center,
    decreases s.len(),
{
    let z = standardized(s, center, scale);
    if s.len() == 0 {
        assert(sum(z) * scale == 0real) by (nonlinear_arith)
            requires
                sum(z) == 0real,
        ;
        assert((s.len() as real) * center == 0real) by (nonlinear_arith)
            requires
                s.len() as real == 0real,
        ;
    } else {
        let p = s.drop_last();
        assert(z.drop_last() =~= standardized(p, center, scale));
        lemma_sum_standardized(p, center, scale);
        crate::algebra::lemma_quotient_times_divisor(s.last() - center, scale);
        crate::algebra::lemma_distribute(sum(z.drop_last()), z.last(), scale);
        crate::algebra::lemma_distribute(p.len() as real, 1real, center);
    }
}

/// The squares of the standard scores add up to the squared distances from
/// the centre, in units of `scale * scale`.
pub proof fn lemma_sum_sq_standardized(s: Seq<real>, center: real, scale: real)
    requires
        scale != 0real,
    ensures
        sum_sq_dev(standardized(s, center, scale), 0real) * (scale * scale) == sum_sq_dev(
            s,
            center,
        ),
    decreases s.len(),
{
    let z = standardized(s, center, scale);
    if s.len() == 0 {
        assert(sum_sq_dev(z, 0real) * (scale * scale) == 0real) by (nonlinear_arith)
            requires
                sum_sq_dev(z, 0real) == 0real,
        ;
    } else {
        let p = s.drop_last();
        let last = z.last();
        assert(z.drop_last() =~= standardized(p, center, scale));
        lemma_sum_sq_standardized(p, center, scale);
        crate::algebra::lemma_quotient_times_divisor(s.last() - center, scale);
        crate::algebra::lemma_distribute(
            sum_sq_dev(z.drop_last(), 0real),
            (last - 0real) * (last - 0real),
            scale * scale,
        );
        crate::algebra::lemma_regroup4(last, last, scale, scale);
    }
}

/// Where every element of `a` is the element of `b` moved toward zero by
/// less than one, the squares of `a` add up to no more than those of `b`, and
/// fall short by less than one part in `2^31` and `2^31` more for each
/// element.
pub proof fn lemma_sum_sq_shrunk(a: Seq<real>, b: Seq<real>)
    requires
        a.len() == b.len(),
        forall|i: int| 0 <= i < a.len() ==> crate::fixed::shrunk(#[trigger] a[i], b[i]),
    ensures
        sum_sq_dev(a, 0real) <= sum_sq_dev(b, 0real),
        2147483648real * sum_sq_dev(a, 0real) >= 2147483647real * sum_sq_dev(b, 0real)
            - 4611686018427387904real * (a.len() as real),
    decreases a.len(),
{
    if a.len() > 0 {
        let i = a.len() - 1;
        assert(crate::fixed::shrunk(a[i], b[i]));
        lemma_sum_sq_shrunk(a.drop_last(), b.drop_last());
    }
}

} // verus!
