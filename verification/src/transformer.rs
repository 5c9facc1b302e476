use crate::error::ScalingError;
use crate::Transformer;
use vstd::prelude::*;

verus! {

/// A fitted standardizer: rescales values to zero mean and unit variance.
///
/// It keeps the exact sums of the samples it summarizes, so that its mean and
/// variance are exact fractions. One is made by fitting, by updating, or from
/// sums by `new`.
#[derive(Debug, Clone, Copy, PartialEq, Eq)]
pub struct StandardScaler {
    ddof: u64,
    count: u64,
    sum: i128,
    sum_sq: u128,
}

/// Whether `count` samples of 32 bits can have the sum `sum` and the sum of
/// squares `sum_sq`, and are enough for the correction `ddof`.
pub open spec fn valid_sums(ddof: u64, count: u64, sum: i128, sum_sq: u128) -> bool {
    &&& ddof < count <= u32::MAX
    &&& -(count * 0x8000_0000) <= sum <= count * 0x8000_0000
    &&& sum_sq <= count * 0x4000_0000_0000_0000
    &&& sum * sum <= count * sum_sq
}

impl View for StandardScaler {
    type V = crate::model::Moments;

    /// The mean and variance that this standardizer stands for.
    closed spec fn view(&self) -> crate::model::Moments {
        crate::model::from_sums(
            self.ddof as nat,
            self.count as nat,
            self.sum as real,
            self.sum_sq as real,
        )
    }
}

/// The variance `v`, in units of `unit * unit`, made four times finer until
/// it is at least `2^124` or `fuel` steps are done: the variance and the unit
/// at the end.
pub open spec fn normalized(v: real, unit: real, fuel: nat) -> (real, real)
    decreases fuel,
{
    if fuel == 0 || v >= 0x1000_0000_0000_0000_0000_0000_0000_0000real {
        (v, unit)
    } else {
        normalized(4real * v, unit / 2real, (fuel - 1) as nat)
    }
}

/// The standard deviation as the standardizer works with it: the square root
/// of the variance, rounded down to a whole number of units, where the unit
/// is the power of two at which the root is at least `2^62` (and never finer
/// than `2^-100`). It is zero for a variance of zero. For the variance of a
/// standardizer that is not zero, it falls short of the true deviation by
/// less than one part in `2^62`, see `lemma_rounded_deviation_bounds`.
pub open spec fn rounded_deviation(variance: real) -> real {
    let parts = normalized(variance, 1real, 100);
    crate::fixed::floor_sqrt(parts.0) as real * parts.1
}

/// The standard score of `x` in units of `1 / SCALE`, rounded toward zero:
/// the distance of `x` from the mean, divided by the standard deviation as
/// `rounded_deviation` gives it.
pub open spec fn standard_score(moments: crate::model::Moments, x: i32) -> int {
    crate::fixed::truncate(
        crate::statistics::standard_score(
            x as real,
            moments.mean,
            rounded_deviation(moments.variance),
        ) * (crate::fixed::SCALE as real),
    )
}

/// The standard scores of all values of `batch`, in order.
pub open spec fn standard_scores(moments: crate::model::Moments, batch: Seq<i32>) -> Seq<int> {
    Seq::new(batch.len(), |i: int| standard_score(moments, batch[i]))
}

/// The variance of `count` values with the given sums as one quotient of
/// whole numbers.
pub proof fn lemma_variance_quotient(ddof: nat, count: nat, sum: int, sum_sq: int)
    requires
        ddof < count,
    ensures
        count * (count - ddof) > 0,
        crate::model::from_sums(ddof, count, sum as real, sum_sq as real).variance == (count
            * sum_sq - sum * sum) as real / (count * (count - ddof)) as real,
{
    let n = count as real;
    let d = ddof as real;
    let t = sum as real;
    let q = sum_sq as real;
    let variance = crate::model::from_sums(ddof, count, t, q).variance;
    let spread: int = count * sum_sq - sum * sum;
    let divisor: int = count * (count - ddof);
    assert(divisor > 0) by (nonlinear_arith)
        requires
            divisor == count * (count - ddof),
            count > ddof,
            ddof >= 0,
    ;
    let a = t * t / n;
    crate::algebra::lemma_quotient_times_divisor(t * t, n);
    crate::algebra::lemma_quotient_times_divisor(q - a, n - d);
    crate::algebra::lemma_cast_product(count as int, sum_sq);
    crate::algebra::lemma_cast_product(sum, sum);
    crate::algebra::lemma_cast_product(count as int, count - ddof);
    assert(variance * (divisor as real) == spread as real) by {
        crate::algebra::lemma_regroup3(variance, n, n - d);
        crate::algebra::lemma_regroup3(n, variance, n - d);
        crate::algebra::lemma_distribute(q, a, n);
        crate::algebra::lemma_regroup3(1real, n, a);
    }
    crate::algebra::lemma_quotient_unique(variance, spread as real, divisor as real);
}

/// A variance of zero stays zero however fine the unit.
proof fn lemma_normalized_zero(unit: real, fuel: nat)
    ensures
        normalized(0real, unit, fuel).0 == 0real,
    decreases fuel,
{
    if fuel > 0 {
        lemma_normalized_zero(unit / 2real, (fuel - 1) as nat);
    }
}

/// The deviation of a variance of zero is zero.
pub proof fn lemma_rounded_deviation_of_zero()
    ensures
        rounded_deviation(0real) == 0real,
{
    lemma_normalized_zero(1real, 100);
    let parts = normalized(0real, 1real, 100);
    assert(crate::fixed::is_floor_sqrt(0, 0real)) by (nonlinear_arith);
    crate::fixed::lemma_floor_sqrt_is(0, 0real);
    assert(0real * parts.1 == 0real) by (nonlinear_arith);
}

/// One step of making the unit finer: the quotient `grown / divisor` in units
/// of `unit * unit` is four times the quotient in units half as long.
proof fn lemma_finer(grown: int, divisor: int, unit: real, doublings: nat, fuel: nat)
    requires
        divisor > 0,
        0 <= grown < 0x1000_0000_0000_0000_0000_0000_0000_0000 * divisor,
        fuel > 0,
        unit * (vstd::arithmetic::power2::pow2(doublings) as real) == 1real,
    ensures
        normalized(grown as real / divisor as real, unit, fuel) == normalized(
            (4 * grown) as real / divisor as real,
            unit / 2real,
            (fuel - 1) as nat,
        ),
        (unit / 2real) * (vstd::arithmetic::power2::pow2(doublings + 1) as real) == 1real,
        vstd::arithmetic::power2::pow2(doublings + 1) == 2 * vstd::arithmetic::power2::pow2(
            doublings,
        ),
        vstd::arithmetic::power2::pow2(2 * doublings + 2) == 4 * vstd::arithmetic::power2::pow2(
            2 * doublings,
        ),
{
    let v = grown as real / divisor as real;
    let p = vstd::arithmetic::power2::pow2(doublings) as real;
    crate::algebra::lemma_cast_product(0x1000_0000_0000_0000_0000_0000_0000_0000, divisor);
    crate::algebra::lemma_quotient_below(
        grown as real,
        0x1000_0000_0000_0000_0000_0000_0000_0000real,
        divisor as real,
    );
    crate::algebra::lemma_quotient_times_factor(grown as real, divisor as real, 4real);
    vstd::arithmetic::power2::lemma_pow2_unfold(doublings + 1);
    vstd::arithmetic::power2::lemma_pow2_unfold(2 * doublings + 2);
    vstd::arithmetic::power2::lemma_pow2_unfold(2 * doublings + 1);
    crate::algebra::lemma_quotient_times_divisor(unit, 2real);
    crate::algebra::lemma_regroup4(unit / 2real, 2real, 1real, p);
    assert((unit / 2real) * (2real * p) == ((unit / 2real) * 2real) * p) by {
        crate::algebra::lemma_regroup3(unit / 2real, 2real, p);
    }
}

/// The end of making the unit finer: the root of the whole part is the
/// deviation in the unit reached.
proof fn lemma_finest(
    grown: int,
    divisor: int,
    whole: int,
    rest: int,
    root: int,
    unit: real,
    power: int,
    fuel: nat,
)
    requires
        whole * divisor + rest == grown,
        0 <= rest < divisor,
        whole >= 0x1000_0000_0000_0000_0000_0000_0000_0000,
        0 <= root,
        root * root <= whole < (root + 1) * (root + 1),
        power > 0,
        unit * (power as real) == 1real,
    ensures
        normalized(grown as real / divisor as real, unit, fuel) == (
            grown as real / divisor as real,
            unit,
        ),
        crate::fixed::floor_sqrt(grown as real / divisor as real) as real * unit == root as real
            / power as real,
        root >= 0x4000_0000_0000_0000,
{
    let v = grown as real / divisor as real;
    crate::algebra::lemma_cast_product(whole, divisor);
    assert(whole as real <= v < (whole + 1) as real) by (nonlinear_arith)
        requires
            divisor > 0,
            (whole * divisor) as real + rest as real == grown as real,
            (whole * divisor) as real == (whole as real) * (divisor as real),
            0 <= rest < divisor,
            v == grown as real / divisor as real,
    ;
    crate::algebra::lemma_cast_product(root, root);
    crate::algebra::lemma_cast_product(root + 1, root + 1);
    assert(crate::fixed::is_floor_sqrt(root as nat, v));
    crate::fixed::lemma_floor_sqrt_is(root as nat, v);
    assert((root as real * unit) * (power as real) == root as real) by {
        crate::algebra::lemma_regroup3(root as real, unit, power as real);
    }
    crate::algebra::lemma_quotient_unique(root as real * unit, root as real, power as real);
    if root < 0x4000_0000_0000_0000 {
        assert((root + 1) * (root + 1) <= 0x4000_0000_0000_0000 * 0x4000_0000_0000_0000)
            by (nonlinear_arith)
            requires
                0 <= root + 1 <= 0x4000_0000_0000_0000,
        ;
    }
}

/// Two hundred doublings of anything positive reach `2^124` times any
/// divisor below `2^64`.
proof fn lemma_fine_enough(whole: int, rest: int, divisor: int)
    requires
        0 <= rest < divisor < 0x1_0000_0000_0000_0000,
        whole >= 0,
        whole * divisor + rest >= vstd::arithmetic::power2::pow2(200),
    ensures
        whole >= 0x1000_0000_0000_0000_0000_0000_0000_0000,
{
    vstd::arithmetic::power2::lemma2_to64();
    vstd::arithmetic::power2::lemma_pow2_adds(64, 64);
    vstd::arithmetic::power2::lemma_pow2_adds(128, 64);
    vstd::arithmetic::power2::lemma_pow2_strictly_increases(192, 200);
    let a: int = vstd::arithmetic::power2::pow2(64) as int;
    let b: int = vstd::arithmetic::power2::pow2(128) as int;
    assert(a * a == 0x1_0000_0000_0000_0000_0000_0000_0000_0000) by (nonlinear_arith)
        requires
            a == 0x1_0000_0000_0000_0000,
    ;
    assert(b * a >= 0x1_0000_0000_0000_0000_0000_0000_0000_0000 * 0x1_0000_0000_0000_0000)
        by (nonlinear_arith)
        requires
            b == 0x1_0000_0000_0000_0000_0000_0000_0000_0000,
            a == 0x1_0000_0000_0000_0000,
    ;
    if whole < 0x1000_0000_0000_0000_0000_0000_0000_0000 {
        assert(whole * divisor <= 0x1000_0000_0000_0000_0000_0000_0000_0000
            * 0x1_0000_0000_0000_0000) by (nonlinear_arith)
            requires
                0 <= whole <= 0x1000_0000_0000_0000_0000_0000_0000_0000,
                0 < divisor <= 0x1_0000_0000_0000_0000,
        ;
    }
}

/// Making the unit finer keeps the variance and, where `2^(2 * steps)` times
/// the variance is at least `2^124` within the steps allowed, ends at
/// `2^124` or more.
proof fn lemma_normalized_reaches(v: real, unit: real, fuel: nat, steps: nat)
    requires
        unit > 0real,
        steps <= fuel,
        v * (vstd::arithmetic::power2::pow2(2 * steps) as real)
            >= 0x1000_0000_0000_0000_0000_0000_0000_0000real,
    ensures
        normalized(v, unit, fuel).0 >= 0x1000_0000_0000_0000_0000_0000_0000_0000real,
        normalized(v, unit, fuel).1 > 0real,
        normalized(v, unit, fuel).0 * (normalized(v, unit, fuel).1 * normalized(v, unit, fuel).1)
            == v * (unit * unit),
    decreases fuel,
{
    if steps == 0 {
        let one = vstd::arithmetic::power2::pow2(0) as real;
        vstd::arithmetic::power2::lemma2_to64();
        assert(v * one == v) by (nonlinear_arith)
            requires
                one == 1real,
        ;
    }
    if fuel == 0 || v >= 0x1000_0000_0000_0000_0000_0000_0000_0000real {
    } else {
        if steps == 0 {
        } else {
            let before = vstd::arithmetic::power2::pow2(2 * steps) as real;
            let after = vstd::arithmetic::power2::pow2((2 * (steps - 1)) as nat) as real;
            vstd::arithmetic::power2::lemma_pow2_unfold(2 * steps);
            vstd::arithmetic::power2::lemma_pow2_unfold((2 * steps - 1) as nat);
            assert(before == 4real * after);
            assert((4real * v) * after == v * before) by (nonlinear_arith)
                requires
                    before == 4real * after,
            ;
            crate::algebra::lemma_quotient_times_divisor(unit, 2real);
            let half = unit / 2real;
            assert((4real * v) * (half * half) == v * (unit * unit)) by (nonlinear_arith)
                requires
                    half * 2real == unit,
            ;
            lemma_normalized_reaches(4real * v, half, (fuel - 1) as nat, (steps - 1) as nat);
        }
    }
}

/// The deviation that the standardizer works with, for a variance that is a
/// quotient of whole numbers with a divisor below `2^64` and is not zero: it
/// is more than zero, not above the true deviation, and below it by less than
/// one part in `1_000_000_000`.
pub proof fn lemma_rounded_deviation_bounds(spread: int, divisor: int)
    requires
        spread >= 1,
        0 < divisor < 0x1_0000_0000_0000_0000,
    ensures
        ({
            let variance = spread as real / divisor as real;
            let deviation = rounded_deviation(variance);
            &&& deviation > 0real
            &&& deviation * deviation <= variance
            &&& variance * (1_000_000_000real * 1_000_000_000real) <= (deviation * deviation) * (
            1_000_000_001real * 1_000_000_001real)
        }),
{
    let variance = spread as real / divisor as real;
    let parts = normalized(variance, 1real, 100);
    let v = parts.0;
    let unit = parts.1;
    let root = crate::fixed::floor_sqrt(v);
    let r = root as real;
    let deviation = rounded_deviation(variance);
    // 2^192 times the variance is at least 2^128
    vstd::arithmetic::power2::lemma2_to64();
    vstd::arithmetic::power2::lemma_pow2_adds(64, 64);
    vstd::arithmetic::power2::lemma_pow2_adds(128, 64);
    let a: int = vstd::arithmetic::power2::pow2(64) as int;
    let b: int = vstd::arithmetic::power2::pow2(128) as int;
    let c: int = vstd::arithmetic::power2::pow2(192) as int;
    assert(a * a == 0x1_0000_0000_0000_0000_0000_0000_0000_0000) by (nonlinear_arith)
        requires
            a == 0x1_0000_0000_0000_0000,
    ;
    assert(c >= 0x1_0000_0000_0000_0000_0000_0000_0000_0000 * divisor) by (nonlinear_arith)
        requires
            c == b * a,
            b == 0x1_0000_0000_0000_0000_0000_0000_0000_0000,
            a == 0x1_0000_0000_0000_0000,
            0 < divisor < 0x1_0000_0000_0000_0000,
    ;
    crate::algebra::lemma_quotient_times_divisor(spread as real, divisor as real);
    assert(variance * (c as real) >= 0x1000_0000_0000_0000_0000_0000_0000_0000real)
        by (nonlinear_arith)
        requires
            variance * (divisor as real) == spread as real,
            spread >= 1,
            divisor > 0,
            c as real >= 0x1_0000_0000_0000_0000_0000_0000_0000_0000real * (divisor as real),
    ;
    lemma_normalized_reaches(variance, 1real, 100, 96);
    assert(v * (unit * unit) == variance) by (nonlinear_arith)
        requires
            v * (unit * unit) == variance * (1real * 1real),
    ;
    crate::fixed::lemma_floor_sqrt_bounds(v);
    assert(r >= 0x4000_0000_0000_0000 as real) by {
        if root < 0x4000_0000_0000_0000 {
            crate::algebra::lemma_cast_product(root as int + 1, root as int + 1);
            assert((root + 1) * (root + 1) <= 0x4000_0000_0000_0000 * 0x4000_0000_0000_0000)
                by (nonlinear_arith)
                requires
                    0 <= root + 1 <= 0x4000_0000_0000_0000,
            ;
        }
    }
    crate::algebra::lemma_product_positive(unit, unit);
    crate::algebra::lemma_product_positive(r, unit);
    // the square of the deviation, in the two ways of grouping
    assert(deviation * deviation == (r * r) * (unit * unit)) by {
        crate::algebra::lemma_regroup4(r, unit, r, unit);
    }
    crate::algebra::lemma_scale_inequality(r * r, v, unit * unit);
    // (r + 1) * 10^9 <= r * (10^9 + 1), squared
    let up = r + 1real;
    assert((up * up) * (1_000_000_000real * 1_000_000_000real) <= (r * r) * (1_000_000_001real
        * 1_000_000_001real)) by (nonlinear_arith)
        requires
            up == r + 1real,
            r >= 1_000_000_000real,
    ;
    crate::algebra::lemma_scale_inequality(v, up * up, unit * unit);
    let big = 1_000_000_000real * 1_000_000_000real;
    let bigger = 1_000_000_001real * 1_000_000_001real;
    crate::algebra::lemma_scale_inequality(variance, (up * up) * (unit * unit), big);
    crate::algebra::lemma_scale_inequality((up * up) * big, (r * r) * bigger, unit * unit);
    assert(((up * up) * (unit * unit)) * big == ((up * up) * big) * (unit * unit)) by {
        crate::algebra::lemma_regroup3(up * up, unit * unit, big);
    }
    assert(((r * r) * bigger) * (unit * unit) == ((r * r) * (unit * unit)) * bigger) by {
        crate::algebra::lemma_regroup3(r * r, bigger, unit * unit);
    }
}

/// The score that long division gives is the standard score.
proof fn lemma_score(
    moments: crate::model::Moments,
    x: i32,
    count: int,
    sum: int,
    root: int,
    doublings: nat,
    quotient: int,
    rest: int,
)
    requires
        count > 0,
        root > 0,
        moments.mean == sum as real / count as real,
        rounded_deviation(moments.variance) == root as real / (vstd::arithmetic::power2::pow2(
            doublings,
        ) as real),
        quotient >= 0,
        0 <= rest < count * root,
        ({
            let centered = count * x - sum;
            let magnitude = if centered >= 0 {
                centered
            } else {
                -centered
            };
            quotient * (count * root) + rest == (magnitude * 0x1_0000_0000_0000)
                * vstd::arithmetic::power2::pow2(doublings)
        }),
    ensures
        standard_score(moments, x) == if count * x - sum >= 0 {
            quotient
        } else {
            -quotient
        },
{
    let centered: int = count * x - sum;
    let magnitude: int = if centered >= 0 {
        centered
    } else {
        -centered
    };
    let power: int = vstd::arithmetic::power2::pow2(doublings) as int;
    vstd::arithmetic::power2::lemma_pow2_pos(doublings);
    let k = crate::fixed::SCALE as real;
    let divisor: int = count * root;
    let grown: int = (magnitude * 0x1_0000_0000_0000) * power;
    let score = crate::statistics::standard_score(
        x as real,
        moments.mean,
        rounded_deviation(moments.variance),
    ) * k;
    crate::algebra::lemma_score_as_quotient(
        x as real,
        sum as real,
        count as real,
        root as real,
        power as real,
        k,
    );
    crate::algebra::lemma_cast_product(count, x as int);
    crate::algebra::lemma_cast_product(count, root);
    crate::algebra::lemma_cast_product(magnitude, 0x1_0000_0000_0000);
    crate::algebra::lemma_cast_product(magnitude * 0x1_0000_0000_0000, power);
    crate::fixed::lemma_quotient_with_rest(grown, divisor, quotient, rest);
    assert(k == 0x1_0000_0000_0000 as real);
    // the score is the same quotient, up to its sign
    assert(score == (centered as real * (k * (power as real))) / (divisor as real));
    assert((magnitude as real * k) * (power as real) == magnitude as real * (k * (
    power as real))) by {
        crate::algebra::lemma_regroup3(magnitude as real, k, power as real);
    }
    if centered >= 0 {
        assert(score == grown as real / divisor as real);
    } else {
        assert(centered as real * (k * (power as real)) == -(grown as real)) by {
            crate::algebra::lemma_distribute(0real, magnitude as real, k * (power as real));
        }
        crate::algebra::lemma_quotient_negated(grown as real, divisor as real);
        assert(score == -(grown as real / divisor as real));
    }
}

/// The dividend of a score, however fine the unit, stays below `2^127` times
/// its divisor.
proof fn lemma_score_fits(count: int, magnitude: int, root: int, doublings: nat)
    requires
        0 < count,
        0 <= magnitude <= count * 0x1_0000_0000,
        root >= 0x4000_0000_0000_0000,
        doublings <= 100,
    ensures
        (magnitude * 0x1_0000_0000_0000) * vstd::arithmetic::power2::pow2(doublings) < (count
            * root) * 0x8000_0000_0000_0000_0000_0000_0000_0000,
{
    let power: int = vstd::arithmetic::power2::pow2(doublings) as int;
    vstd::arithmetic::power2::lemma2_to64();
    vstd::arithmetic::power2::lemma_pow2_adds(64, 32);
    vstd::arithmetic::power2::lemma_pow2_adds(96, 4);
    if doublings < 100 {
        vstd::arithmetic::power2::lemma_pow2_strictly_increases(doublings, 100);
    }
    let a: int = vstd::arithmetic::power2::pow2(64) as int;
    let b: int = vstd::arithmetic::power2::pow2(32) as int;
    let c: int = vstd::arithmetic::power2::pow2(96) as int;
    let d: int = vstd::arithmetic::power2::pow2(4) as int;
    assert(a * b == 0x1_0000_0000_0000_0000_0000_0000) by (nonlinear_arith)
        requires
            a == 0x1_0000_0000_0000_0000,
            b == 0x1_0000_0000,
    ;
    assert(c * d == 0x10_0000_0000_0000_0000_0000_0000) by (nonlinear_arith)
        requires
            c == 0x1_0000_0000_0000_0000_0000_0000,
            d == 16,
    ;
    vstd::arithmetic::power2::lemma_pow2_pos(doublings);
    assert(vstd::arithmetic::power2::pow2(96) == a * b);
    assert(vstd::arithmetic::power2::pow2(100) == c * d);
    assert(0 < power <= 0x10_0000_0000_0000_0000_0000_0000);
    assert((magnitude * 0x1_0000_0000_0000) * power <= (count * 0x1_0000_0000_0000_0000_0000)
        * 0x10_0000_0000_0000_0000_0000_0000) by (nonlinear_arith)
        requires
            0 <= magnitude <= count * 0x1_0000_0000,
            0 < power <= 0x10_0000_0000_0000_0000_0000_0000,
            0 < count,
    ;
    assert((count * root) * 0x8000_0000_0000_0000_0000_0000_0000_0000 >= (count
        * 0x4000_0000_0000_0000) * 0x8000_0000_0000_0000_0000_0000_0000_0000) by (nonlinear_arith)
        requires
            0 < count,
            root >= 0x4000_0000_0000_0000,
    ;
    assert((count * 0x1_0000_0000_0000_0000_0000) * 0x10_0000_0000_0000_0000_0000_0000 < (count
        * 0x4000_0000_0000_0000) * 0x8000_0000_0000_0000_0000_0000_0000_0000) by (nonlinear_arith)
        requires
            0 < count,
    ;
}

impl StandardScaler {
    #[verifier::type_invariant]
    spec fn well_formed(self) -> bool {
        valid_sums(self.ddof, self.count, self.sum, self.sum_sq)
    }

    /// A standardizer of `count` samples with the given sums.
    pub(crate) fn from_sums(ddof: u64, count: u64, sum: i128, sum_sq: u128) -> (scaler: Self)
        requires
            valid_sums(ddof, count, sum, sum_sq),
        ensures
            scaler@ == crate::model::from_sums(
                ddof as nat,
                count as nat,
                sum as real,
                sum_sq as real,
            ),
            scaler.count() == count,
    {
        StandardScaler { ddof, count, sum, sum_sq }
    }

    /// The sums that this standardizer keeps: the correction, the number of
    /// samples, their sum and the sum of their squares.
    pub(crate) fn sums(&self) -> (sums: (u64, u64, i128, u128))
        ensures
            valid_sums(sums.0, sums.1, sums.2, sums.3),
            self@ == crate::model::from_sums(
                sums.0 as nat,
                sums.1 as nat,
                sums.2 as real,
                sums.3 as real,
            ),
            self.count() == sums.1,
    {
        proof {
            use_type_invariant(self);
        }
        (self.ddof, self.count, self.sum, self.sum_sq)
    }

    /// The number of samples summarized.
    pub closed spec fn spec_count(&self) -> u64 {
        self.count
    }

    /// The degrees-of-freedom correction of the variance.
    pub fn ddof(&self) -> (ddof: u64)
        ensures
            ddof == self@.ddof,
    {
        self.ddof
    }

    /// A standardizer of `count` samples that add up to `sum` and whose
    /// squares add up to `sum_sq`, where `valid_sums` holds of them.
    pub fn new(ddof: u64, count: u64, sum: i128, sum_sq: u128) -> (scaler: Option<Self>)
        ensures
            scaler is Some == valid_sums(ddof, count, sum, sum_sq),
            scaler matches Some(made) ==> {
                &&& made@ == crate::model::from_sums(
                    ddof as nat,
                    count as nat,
                    sum as real,
                    sum_sq as real,
                )
                &&& made.count() == count
            },
    {
        if ddof >= count || count > 0xffff_ffff {
            return None;
        }
        let reach: i128 = (count as i128) * 0x8000_0000;
        if sum < -reach || sum > reach || sum_sq > (count as u128) * 0x4000_0000_0000_0000 {
            return None;
        }
        let magnitude: u128 = if sum >= 0 {
            sum as u128
        } else {
            (-sum) as u128
        };
        proof {
            assert(magnitude * magnitude <= 0x8000_0000_0000_0000 * 0x8000_0000_0000_0000)
                by (nonlinear_arith)
                requires
                    0 <= magnitude <= 0x8000_0000_0000_0000,
            ;
            assert(count * sum_sq <= 0xffff_ffff * (0xffff_ffff * 0x4000_0000_0000_0000))
                by (nonlinear_arith)
                requires
                    0 <= count <= 0xffff_ffff,
                    0 <= sum_sq <= 0xffff_ffff * 0x4000_0000_0000_0000,
            ;
            assert(magnitude * magnitude == sum * sum) by (nonlinear_arith)
                requires
                    magnitude == sum || magnitude == -sum,
            ;
        }
        if magnitude * magnitude > (count as u128) * sum_sq {
            return None;
        }
        Some(StandardScaler { ddof, count, sum, sum_sq })
    }

    /// The mean in units of `1 / SCALE`, rounded toward zero.
    pub fn mean(&self) -> (mean: i128)
        ensures
            mean == crate::fixed::truncate(self@.mean * (crate::fixed::SCALE as real)),
    {
        proof {
            use_type_invariant(self);
        }
        let scaled: i128 = self.sum * 0x1_0000_0000_0000;
        let quotient: i128 = crate::fixed::truncated_quotient(scaled, self.count as u128);
        proof {
            let n = self.count as real;
            let t = self.sum as real;
            let k = crate::fixed::SCALE as real;
            assert(k == 0x1_0000_0000_0000real);
            crate::algebra::lemma_cast_product(self.sum as int, 0x1_0000_0000_0000);
            crate::algebra::lemma_quotient_times_factor(t, n, k);
        }
        quotient
    }

    /// The standard deviation as a whole number of units and the unit: the
    /// root, the number of halvings of the unit, and two to that power.
    fn deviation(&self) -> (parts: (u64, u32, u128))
        ensures
            parts.1 <= 100,
            parts.2 == vstd::arithmetic::power2::pow2(parts.1 as nat),
            rounded_deviation(self@.variance) == parts.0 as real / (parts.2 as real),
            (parts.0 == 0) == (self@.variance == 0real),
            parts.0 != 0 ==> parts.0 >= 0x4000_0000_0000_0000,
    {
        proof {
            use_type_invariant(self);
        }
        let n: u128 = self.count as u128;
        let corrected: u128 = n - self.ddof as u128;
        let magnitude: u128 = if self.sum >= 0 {
            self.sum as u128
        } else {
            (-self.sum) as u128
        };
        proof {
            assert(n * corrected <= 0xffff_ffff * 0xffff_ffff && n * corrected >= n)
                by (nonlinear_arith)
                requires
                    1 <= n <= 0xffff_ffff,
                    1 <= corrected <= 0xffff_ffff,
            ;
            assert(n * self.sum_sq <= 0xffff_ffff * (0xffff_ffff * 0x4000_0000_0000_0000))
                by (nonlinear_arith)
                requires
                    0 <= n <= 0xffff_ffff,
                    0 <= self.sum_sq <= 0xffff_ffff * 0x4000_0000_0000_0000,
            ;
            assert(magnitude * magnitude == self.sum * self.sum) by (nonlinear_arith)
                requires
                    magnitude == self.sum || magnitude == -self.sum,
            ;
        }
        let divisor: u128 = n * corrected;
        let spread: u128 = n * self.sum_sq - magnitude * magnitude;
        proof {
            vstd::arithmetic::power2::lemma2_to64();
            lemma_variance_quotient(
                self.ddof as nat,
                self.count as nat,
                self.sum as int,
                self.sum_sq as int,
            );
            crate::algebra::lemma_quotient_times_divisor(spread as real, divisor as real);
        }
        if spread == 0 {
            proof {
                crate::algebra::lemma_zero_quotient(divisor as real);
                lemma_rounded_deviation_of_zero();
                crate::algebra::lemma_zero_quotient(1real);
            }
            return (0, 0, 1);
        }
        let mut whole: u128 = spread / divisor;
        let mut rest: u128 = spread % divisor;
        let mut doublings: u32 = 0;
        let mut power: u128 = 1;
        let ghost mut unit: real = 1real;
        proof {
            assert(whole <= self.sum_sq && spread == whole * divisor + rest && rest < divisor)
                by (nonlinear_arith)
                requires
                    whole == spread / divisor,
                    rest == spread % divisor,
                    divisor >= n,
                    n >= 1,
                    0 <= spread <= n * self.sum_sq,
            ;
            assert(self@.variance != 0real) by {
                if self@.variance == 0real {
                    assert(self@.variance * (divisor as real) == 0real) by (nonlinear_arith)
                        requires
                            self@.variance == 0real,
                    ;
                }
            }
        }
        while whole < 0x1000_0000_0000_0000_0000_0000_0000_0000 && doublings < 100
            invariant
                0 < divisor < 0x1_0000_0000_0000_0000,
                rest < divisor,
                whole < 0x4000_0000_0000_0000_0000_0000_0000_0000,
                doublings <= 100,
                power == vstd::arithmetic::power2::pow2(doublings as nat),
                unit * (power as real) == 1real,
                whole * divisor + rest >= vstd::arithmetic::power2::pow2(2 * (doublings as nat)),
                normalized(self@.variance, 1real, 100) == normalized(
                    (whole * divisor + rest) as real / divisor as real,
                    unit,
                    (100 - doublings) as nat,
                ),
            decreases 100 - doublings,
        {
            proof {
                let grown: int = whole * divisor + rest;
                assert(0 <= grown < 0x1000_0000_0000_0000_0000_0000_0000_0000 * divisor)
                    by (nonlinear_arith)
                    requires
                        grown == whole * divisor + rest,
                        0 <= whole < 0x1000_0000_0000_0000_0000_0000_0000_0000,
                        0 <= rest < divisor,
                ;
                lemma_finer(
                    grown,
                    divisor as int,
                    unit,
                    doublings as nat,
                    (100 - doublings) as nat,
                );
                vstd::arithmetic::power2::lemma_pow2_adds(doublings as nat, doublings as nat);
                assert(power < 0x1_0000_0000_0000_0000_0000_0000_0000) by (nonlinear_arith)
                    requires
                        power * power <= grown,
                        grown < 0x1000_0000_0000_0000_0000_0000_0000_0000 * divisor,
                        divisor < 0x1_0000_0000_0000_0000,
                        power >= 0,
                ;
            }
            let first: (u128, u128) = crate::fixed::double_step(whole, rest, divisor);
            let second: (u128, u128) = crate::fixed::double_step(first.0, first.1, divisor);
            whole = second.0;
            rest = second.1;
            doublings = doublings + 1;
            power = power * 2;
            proof {
                unit = unit / 2real;
            }
        }
        let root: u64 = crate::fixed::integer_sqrt(whole);
        proof {
            if whole < 0x1000_0000_0000_0000_0000_0000_0000_0000 {
                lemma_fine_enough(whole as int, rest as int, divisor as int);
            }
            vstd::arithmetic::power2::lemma_pow2_pos(doublings as nat);
            lemma_finest(
                whole * divisor + rest,
                divisor as int,
                whole as int,
                rest as int,
                root as int,
                unit,
                power as int,
                (100 - doublings) as nat,
            );
        }
        (root, doublings, power)
    }

    /// The standard deviation in units of `1 / SCALE`, rounded down.
    pub fn standard_deviation(&self) -> (deviation: u128)
        ensures
            deviation == crate::fixed::truncate(
                rounded_deviation(self@.variance) * (crate::fixed::SCALE as real),
            ),
    {
        let parts: (u64, u32, u128) = self.deviation();
        let scaled: u128 = (parts.0 as u128) * 0x1_0000_0000_0000;
        proof {
            vstd::arithmetic::power2::lemma_pow2_pos(parts.1 as nat);
        }
        let deviation: u128 = scaled / parts.2;
        proof {
            assert(crate::fixed::SCALE as real == 0x1_0000_0000_0000real);
            crate::algebra::lemma_cast_product(parts.0 as int, 0x1_0000_0000_0000);
            crate::algebra::lemma_quotient_times_factor(
                parts.0 as real,
                parts.2 as real,
                crate::fixed::SCALE as real,
            );
            crate::fixed::lemma_quotient_floor(scaled as int, parts.2 as int);
        }
        deviation
    }

    /// The standard score of one value, given the standard deviation.
    fn score(&self, x: i32, parts: (u64, u32, u128)) -> (score: i128)
        requires
            parts.0 >= 0x4000_0000_0000_0000,
            parts.1 <= 100,
            parts.2 == vstd::arithmetic::power2::pow2(parts.1 as nat),
            rounded_deviation(self@.variance) == parts.0 as real / (parts.2 as real),
        ensures
            score == standard_score(self@, x),
    {
        proof {
            use_type_invariant(self);
        }
        let n: i128 = self.count as i128;
        proof {
            assert(-(0xffff_ffff * 0x8000_0000) <= n * x <= 0xffff_ffff * 0x8000_0000)
                by (nonlinear_arith)
                requires
                    0 <= n <= 0xffff_ffff,
                    -0x8000_0000 <= x <= 0x8000_0000,
            ;
            assert(-(n * 0x8000_0000) <= n * x <= n * 0x8000_0000) by (nonlinear_arith)
                requires
                    0 <= n,
                    -0x8000_0000 <= x <= 0x8000_0000,
            ;
            assert(self.count * 0x4000_0000_0000_0000 <= self.count * parts.0 <= 0xffff_ffff
                * 0xffff_ffff_ffff_ffff) by (nonlinear_arith)
                requires
                    0 < self.count <= 0xffff_ffff,
                    0x4000_0000_0000_0000 <= parts.0 <= 0xffff_ffff_ffff_ffff,
            ;
        }
        let centered: i128 = n * (x as i128) - self.sum;
        let magnitude: u128 = if centered >= 0 {
            centered as u128
        } else {
            (-centered) as u128
        };
        let dividend: u128 = magnitude * 0x1_0000_0000_0000;
        let divisor: u128 = (self.count as u128) * (parts.0 as u128);
        proof {
            lemma_score_fits(
                self.count as int,
                magnitude as int,
                parts.0 as int,
                parts.1 as nat,
            );
        }
        let division: (u128, u128) = crate::fixed::scaled_quotient(dividend, divisor, parts.1);
        proof {
            assert(division.0 < 0x8000_0000_0000_0000_0000_0000_0000_0000) by (nonlinear_arith)
                requires
                    division.0 * divisor + division.1 < divisor
                        * 0x8000_0000_0000_0000_0000_0000_0000_0000,
                    division.1 >= 0,
                    divisor > 0,
            ;
            lemma_score(
                self@,
                x,
                self.count as int,
                self.sum as int,
                parts.0 as int,
                parts.1 as nat,
                division.0 as int,
                division.1 as int,
            );
        }
        if centered >= 0 {
            division.0 as i128
        } else {
            -(division.0 as i128)
        }
    }

    /// Standardizes every value of `batch`: its distance from the mean in
    /// units of the standard deviation. Fails where the variance is zero.
    pub fn transform(&self, batch: &Vec<i32>) -> (outcome: Result<Vec<i128>, ScalingError>)
        ensures
            match outcome {
                Ok(scores) => {
                    &&& self@.variance != 0real
                    &&& scores@.len() == batch@.len()
                    &&& forall|i: int|
                        0 <= i < batch@.len() ==> scores@[i] == standard_score(self@, batch@[i])
                    &&& scores@.map_values(|score: i128| score as int) == standard_scores(
                        self@,
                        batch@,
                    )
                },
                Err(error) => {
                    &&& error == ScalingError::DegenerateScale
                    &&& self@.variance == 0real
                },
            },
    {
        let parts: (u64, u32, u128) = self.deviation();
        if parts.0 == 0 {
            return Err(ScalingError::DegenerateScale);
        }
        let mut scores: Vec<i128> = Vec::new();
        let mut done: usize = 0;
        while done < batch.len()
            invariant
                done <= batch.len(),
                parts.0 >= 0x4000_0000_0000_0000,
                parts.1 <= 100,
                parts.2 == vstd::arithmetic::power2::pow2(parts.1 as nat),
                rounded_deviation(self@.variance) == parts.0 as real / (parts.2 as real),
                scores@.len() == done,
                forall|i: int| 0 <= i < done ==> scores@[i] == standard_score(self@, batch@[i]),
            decreases batch.len() - done,
        {
            let score: i128 = self.score(batch[done], parts);
            scores.push(score);
            done = done + 1;
        }
        proof {
            assert(scores@.map_values(|score: i128| score as int) =~= standard_scores(
                self@,
                batch@,
            ));
        }
        Ok(scores)
    }

    /// The number of samples summarized: more than `ddof`, and no more than
    /// `u32::MAX`.
    #[verifier::when_used_as_spec(spec_count)]
    pub fn count(&self) -> (count: u64)
        ensures
            count == self.count(),
            count > self@.ddof,
            count <= u32::MAX,
    {
        proof {
            use_type_invariant(self);
        }
        self.count
    }
}

impl Transformer<Vec<i32>, Vec<i128>> for StandardScaler {
    type Error = ScalingError;

    open spec fn transform_ensures(
        &self,
        inputs: &Vec<i32>,
        outcome: &Result<Vec<i128>, ScalingError>,
    ) -> bool {
        match *outcome {
            Ok(scores) => {
                &&& self@.variance != 0real
                &&& scores@.len() == inputs@.len()
                &&& forall|i: int|
                    0 <= i < inputs@.len() ==> scores@[i] == standard_score(self@, inputs@[i])
                &&& scores@.map_values(|score: i128| score as int) == standard_scores(
                    self@,
                    inputs@,
                )
            },
            Err(error) => {
                &&& error == ScalingError::DegenerateScale
                &&& self@.variance == 0real
            },
        }
    }

    fn transform(&self, inputs: &Vec<i32>) -> (outcome: Result<Vec<i128>, ScalingError>) {
        self.transform(inputs)
    }
}

} // verus!
