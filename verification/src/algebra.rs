//! Elementary facts of real arithmetic, each stated for every value of its
//! arguments, from which the identities of the statistics are assembled.
use vstd::prelude::*;

verus! {

/// A quotient times its divisor is the dividend.
pub proof fn lemma_quotient_times_divisor(a: real, b: real)
    by (nonlinear_arith)
    requires
        b != 0real,
    ensures
        (a / b) * b == a,
{
}

/// What gives `a` when multiplied by `b` is the quotient `a / b`.
pub proof fn lemma_quotient_unique(x: real, a: real, b: real)
    by (nonlinear_arith)
    requires
        b != 0real,
        x * b == a,
    ensures
        x == a / b,
{
}

/// A common factor other than zero can be cancelled.
pub proof fn lemma_cancel_factor(x: real, y: real, b: real)
    by (nonlinear_arith)
    requires
        b != 0real,
        x * b == y * b,
    ensures
        x == y,
{
}

/// Multiplication distributes over sums and differences, on either side.
pub proof fn lemma_distribute(x: real, y: real, b: real)
    by (nonlinear_arith)
    ensures
        (x + y) * b == x * b + y * b,
        (x - y) * b == x * b - y * b,
        b * (x + y) == b * x + b * y,
        b * (x - y) == b * x - b * y,
{
}

/// The square of a sum.
pub proof fn lemma_square_of_sum(a: real, b: real)
    by (nonlinear_arith)
    ensures
        (a + b) * (a + b) == a * a + 2real * (a * b) + b * b,
{
}

/// The product of two differences, multiplied out.
pub proof fn lemma_product_of_differences(x: real, a: real, b: real, y: real)
    by (nonlinear_arith)
    ensures
        (x - a) * (b - y) == x * b - x * y - a * b + a * y,
{
}

/// The product of two sums, multiplied out.
pub proof fn lemma_product_of_sums(a: real, b: real, c: real, d: real)
    by (nonlinear_arith)
    ensures
        (a + b) * (c + d) == a * c + a * d + b * c + b * d,
{
}

/// A product of three factors does not depend on how they are grouped.
pub proof fn lemma_regroup3(a: real, b: real, c: real)
    by (nonlinear_arith)
    ensures
        (a * b) * c == b * (a * c),
        (a * b) * c == a * (b * c),
        (a * b) * c == (a * c) * b,
{
}

/// A product of four factors does not depend on how they are paired.
pub proof fn lemma_regroup4(a: real, b: real, c: real, d: real)
    by (nonlinear_arith)
    ensures
        (a * b) * (c * d) == (c * b) * (a * d),
        (a * b) * (c * d) == (a * c) * (b * d),
        a * b * c * d == (a * b) * (c * d),
{
}

/// The mean of two groups joined, from the mean of the first and its
/// distance to the mean of the second: `n1`, `n2` are the groups' sizes and
/// `w1`, `w2` their sums.
pub proof fn lemma_pool_mean(n1: real, w1: real, n2: real, w2: real)
    requires
        n1 > 0real,
        n2 > 0real,
    ensures
        w1 / n1 + (w2 / n2 - w1 / n1) * n2 / (n1 + n2) == (w1 + w2) / (n1 + n2),
{
    let n = n1 + n2;
    let m1 = w1 / n1;
    let m2 = w2 / n2;
    let d = (m2 - m1) * n2 / n;
    lemma_quotient_times_divisor(w1, n1);
    lemma_quotient_times_divisor(w2, n2);
    lemma_quotient_times_divisor((m2 - m1) * n2, n);
    lemma_distribute(m1, d, n);
    lemma_distribute(n1, n2, m1);
    lemma_distribute(m2, m1, n2);
    lemma_quotient_unique(m1 + d, w1 + w2, n);
}

/// How the squared sums of two groups, each over the group's size, exceed the
/// same of the groups joined: by the squared distance of the two means,
/// weighed by `n1 * n2 / (n1 + n2)`.
pub proof fn lemma_pool_sq(n1: real, w1: real, n2: real, w2: real)
    requires
        n1 > 0real,
        n2 > 0real,
    ensures
        w1 * w1 / n1 + w2 * w2 / n2 == (w1 + w2) * (w1 + w2) / (n1 + n2) + (w2 / n2 - w1 / n1) * (
        w2 / n2 - w1 / n1) * n1 * n2 / (n1 + n2),
{
    let n = n1 + n2;
    let m1 = w1 / n1;
    let m2 = w2 / n2;
    let d = m2 - m1;
    let a1 = w1 * w1 / n1;
    let a2 = w2 * w2 / n2;
    let c = d * d * n1 * n2 / n;
    let e = (w1 + w2) * (w1 + w2) / n;
    let x = m2 * n1;
    let y = m1 * n2;
    lemma_quotient_times_divisor(w1, n1);
    lemma_quotient_times_divisor(w2, n2);
    lemma_quotient_times_divisor(d * d * n1 * n2, n);
    lemma_quotient_times_divisor((w1 + w2) * (w1 + w2), n);
    assert(a1 == m1 * w1) by {
        lemma_regroup3(m1, w1, n1);
        lemma_quotient_unique(m1 * w1, w1 * w1, n1);
    }
    assert(a2 == m2 * w2) by {
        lemma_regroup3(m2, w2, n2);
        lemma_quotient_unique(m2 * w2, w2 * w2, n2);
    }
    assert(c * n == (x - w1) * (w2 - y)) by {
        lemma_regroup4(d, d, n1, n2);
        lemma_distribute(m2, m1, n1);
        lemma_distribute(m2, m1, n2);
    }
    assert(x * y == w1 * w2) by {
        lemma_regroup4(m2, n1, m1, n2);
    }
    assert((a1 + a2) * n == w1 * w1 + w1 * y + w2 * x + w2 * w2) by {
        lemma_product_of_sums(a1, a2, n1, n2);
        lemma_regroup3(m1, w1, n1);
        lemma_regroup3(m1, w1, n2);
        lemma_regroup3(m2, w2, n1);
        lemma_regroup3(m2, w2, n2);
    }
    assert((e + c) * n == w1 * w1 + w1 * y + w2 * x + w2 * w2) by {
        lemma_distribute(e, c, n);
        lemma_square_of_sum(w1, w2);
        lemma_product_of_differences(x, w1, w2, y);
    }
    lemma_cancel_factor(e + c, a1 + a2, n);
}

/// A factor can be moved from a quotient into its dividend.
pub proof fn lemma_quotient_times_factor(a: real, b: real, k: real)
    requires
        b != 0real,
    ensures
        (a / b) * k == (a * k) / b,
{
    lemma_quotient_times_divisor(a, b);
    lemma_regroup3(a / b, k, b);
    lemma_quotient_unique((a / b) * k, a * k, b);
}

/// A product is zero only if a factor is.
pub proof fn lemma_zero_product(a: real, b: real)
    by (nonlinear_arith)
    requires
        a * b == 0real,
        b != 0real,
    ensures
        a == 0real,
{
}

/// Zero divided by anything else is zero.
pub proof fn lemma_zero_quotient(b: real)
    by (nonlinear_arith)
    requires
        b != 0real,
    ensures
        0real / b == 0real,
{
}

/// The product of two integers is the product of the two as real numbers.
pub proof fn lemma_cast_product(a: int, b: int)
    by (nonlinear_arith)
    ensures
        (a * b) as real == (a as real) * (b as real),
{
}

/// An inequality survives multiplication by a factor that is not negative.
pub proof fn lemma_scale_inequality(a: real, b: real, n: real)
    by (nonlinear_arith)
    requires
        a <= b,
        n >= 0real,
    ensures
        a * n <= b * n,
{
}

/// A bound on a dividend, in multiples of a positive divisor, bounds the
/// quotient.
pub proof fn lemma_quotient_bound(a: real, b: real, n: real)
    by (nonlinear_arith)
    requires
        n > 0real,
        a <= b * n,
    ensures
        a / n <= b,
{
}

/// A quotient of a dividend that is not negative by a positive divisor is not
/// negative.
pub proof fn lemma_quotient_nonnegative(a: real, n: real)
    by (nonlinear_arith)
    requires
        n > 0real,
        a >= 0real,
    ensures
        a / n >= 0real,
{
}

/// A product of two factors that are not negative is not negative.
pub proof fn lemma_product_nonnegative(a: real, b: real)
    by (nonlinear_arith)
    requires
        a >= 0real,
        b >= 0real,
    ensures
        a * b >= 0real,
{
}

/// A square is not negative.
pub proof fn lemma_square_nonnegative(a: real)
    by (nonlinear_arith)
    ensures
        a * a >= 0real,
{
}

/// Where two groups of values each satisfy `total * total <= count * total_sq`,
/// so do the groups joined.
pub proof fn lemma_pooled_spread_nonnegative(
    n1: real,
    w1: real,
    q1: real,
    n2: real,
    w2: real,
    q2: real,
)
    requires
        n1 > 0real,
        n2 > 0real,
        w1 * w1 <= n1 * q1,
        w2 * w2 <= n2 * q2,
    ensures
        (w1 + w2) * (w1 + w2) <= (n1 + n2) * (q1 + q2),
{
    assert(n1 * q1 == q1 * n1 && n2 * q2 == q2 * n2 && (n1 + n2) * (q1 + q2) == (q1 + q2) * (n1
        + n2)) by (nonlinear_arith);
    let n = n1 + n2;
    let d = w2 / n2 - w1 / n1;
    let e = (w1 + w2) * (w1 + w2) / n;
    let c = d * d * n1 * n2 / n;
    lemma_pool_sq(n1, w1, n2, w2);
    lemma_quotient_bound(w1 * w1, q1, n1);
    lemma_quotient_bound(w2 * w2, q2, n2);
    assert(c >= 0real) by {
        lemma_square_nonnegative(d);
        lemma_product_nonnegative(d * d, n1);
        lemma_product_nonnegative(d * d * n1, n2);
        lemma_quotient_nonnegative(d * d * n1 * n2, n);
    }
    lemma_scale_inequality(e, q1 + q2, n);
    lemma_quotient_times_divisor((w1 + w2) * (w1 + w2), n);
}

/// A deviation from the mean `total / count`, taken in units of
/// `deviation / power` and then multiplied by `scale`, as one quotient.
pub proof fn lemma_score_as_quotient(
    x: real,
    total: real,
    count: real,
    deviation: real,
    power: real,
    scale: real,
)
    requires
        count > 0real,
        deviation > 0real,
        power > 0real,
    ensures
        ((x - total / count) / (deviation / power)) * scale == ((count * x - total) * (scale
            * power)) / (count * deviation),
{
    let m = total / count;
    let u = deviation / power;
    let z = (x - m) / u;
    lemma_quotient_times_divisor(total, count);
    lemma_quotient_times_divisor(deviation, power);
    assert(u != 0real) by {
        if u == 0real {
            assert(u * power == 0real) by (nonlinear_arith)
                requires
                    u == 0real,
            ;
        }
    }
    lemma_quotient_times_divisor(x - m, u);
    lemma_product_positive(count, deviation);
    assert((z * scale) * (count * deviation) == (count * x - total) * (scale * power)) by {
        lemma_regroup4(z, scale, count, deviation);
        lemma_regroup3(scale, u, power);
        lemma_regroup4(z, count, u, scale * power);
        lemma_regroup3(x - m, count, scale * power);
        lemma_distribute(x, m, count);
        lemma_regroup3(1real, x, count);
    }
    lemma_quotient_unique(z * scale, (count * x - total) * (scale * power), count * deviation);
}

/// A bound on a dividend, strictly below a multiple of a positive divisor,
/// bounds the quotient strictly.
pub proof fn lemma_quotient_below(a: real, b: real, n: real)
    by (nonlinear_arith)
    requires
        n > 0real,
        a < b * n,
    ensures
        a / n < b,
{
}

/// The opposite of a quotient is the quotient of the opposite.
pub proof fn lemma_quotient_negated(a: real, n: real)
    requires
        n != 0real,
    ensures
        (-a) / n == -(a / n),
{
    lemma_quotient_times_divisor(a, n);
    lemma_distribute(0real, a / n, n);
    lemma_quotient_unique(-(a / n), -a, n);
}

/// A product of two positive factors is positive.
pub proof fn lemma_product_positive(a: real, b: real)
    by (nonlinear_arith)
    requires
        a > 0real,
        b > 0real,
    ensures
        a * b > 0real,
{
}

} // verus!
