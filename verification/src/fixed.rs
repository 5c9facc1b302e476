//! Fixed-point readout: real quantities are handed out as integers in units
//! of `1 / SCALE`, rounded toward zero.
use vstd::prelude::*;

verus! {

/// The number of readout units in one whole.
pub const SCALE: u64 = 0x1_0000_0000_0000;

/// `r` rounded toward zero.
pub open spec fn truncate(r: real) -> int {
    if r >= 0real {
        r.floor()
    } else {
        -((-r).floor())
    }
}

/// Whether `a` is `b` moved toward zero by less than one: its square is no
/// more than that of `b`, and falls short of it by less than one part in
/// `2^31` of it and `2^31` more.
pub open spec fn shrunk(a: real, b: real) -> bool {
    &&& a * a <= b * b
    &&& 2147483648real * (a * a) >= 2147483647real * (b * b) - 4611686018427387904real
}

/// Rounding toward zero shrinks.
pub proof fn lemma_truncation_shrinks(y: real)
    ensures
        shrunk(truncate(y) as real, y),
{
    let s = truncate(y) as real;
    if y >= 0real {
        assert(s * s <= y * y && 2147483648real * (s * s) >= 2147483647real * (y * y)
            - 4611686018427387904real) by (nonlinear_arith)
            requires
                0real <= s <= y < s + 1real,
        ;
    } else {
        let t = -s;
        let z = -y;
        assert(t * t <= z * z && 2147483648real * (t * t) >= 2147483647real * (z * z)
            - 4611686018427387904real) by (nonlinear_arith)
            requires
                0real <= t <= z < t + 1real,
        ;
        assert(t * t == s * s && z * z == y * y) by (nonlinear_arith)
            requires
                t == -s,
                z == -y,
        ;
    }
}

/// Whether `r` lies between the square of `k` and the next square.
pub open spec fn is_floor_sqrt(k: nat, r: real) -> bool {
    (k as real) * (k as real) <= r < ((k + 1) as real) * ((k + 1) as real)
}

/// The largest natural number whose square does not exceed `r`, for `r >= 0`.
pub open spec fn floor_sqrt(r: real) -> nat {
    choose|k: nat| is_floor_sqrt(k, r)
}

proof fn lemma_squares_grow(a: real, b: real)
    by (nonlinear_arith)
    requires
        0real <= a <= b,
    ensures
        a * a <= b * b,
{
}

/// Only one natural number has `r` between its square and the next square.
pub proof fn lemma_floor_sqrt_is(k: nat, r: real)
    requires
        is_floor_sqrt(k, r),
    ensures
        floor_sqrt(r) == k,
{
    let j: nat = floor_sqrt(r);
    if j < k {
        lemma_squares_grow((j + 1) as real, k as real);
    } else if k < j {
        lemma_squares_grow((k + 1) as real, j as real);
    }
}

/// A natural number whose square is at most `n` and whose successor's square
/// is more.
proof fn lemma_whole_root(n: nat) -> (k: nat)
    ensures
        k * k <= n < (k + 1) * (k + 1),
    decreases n,
{
    if n == 0 {
        assert(0 * 0 <= n < (0 + 1) * (0 + 1)) by (nonlinear_arith)
            requires
                n == 0,
        ;
        0
    } else {
        let below: nat = lemma_whole_root((n - 1) as nat);
        let above: nat = below + 1;
        if above * above <= n {
            assert(n < (above + 1) * (above + 1)) by (nonlinear_arith)
                requires
                    n - 1 < above * above,
                    above >= 0,
            ;
            above
        } else {
            below
        }
    }
}

/// Every real number that is not negative lies between the square of its
/// `floor_sqrt` and the next square.
pub proof fn lemma_floor_sqrt_bounds(r: real)
    requires
        r >= 0real,
    ensures
        is_floor_sqrt(floor_sqrt(r), r),
{
    let n: nat = r.floor() as nat;
    let k: nat = lemma_whole_root(n);
    crate::algebra::lemma_cast_product(k as int, k as int);
    crate::algebra::lemma_cast_product(k as int + 1, k as int + 1);
    assert(is_floor_sqrt(k, r));
}

/// The integer square root of `x`, rounded down.
pub fn integer_sqrt(x: u128) -> (root: u64)
    ensures
        root == floor_sqrt(x as real),
        root * root <= x < (root + 1) * (root + 1),
{
    let mut low: u128 = 0;
    let mut high: u128 = 0x1_0000_0000_0000_0000;
    while high - low > 1
        invariant
            low < high <= 0x1_0000_0000_0000_0000,
            low * low <= x < high * high,
        decreases high - low,
    {
        let middle: u128 = low + (high - low) / 2;
        assert(middle * middle <= 0xffff_ffff_ffff_ffff * 0xffff_ffff_ffff_ffff)
            by (nonlinear_arith)
            requires
                0 <= middle <= 0xffff_ffff_ffff_ffff,
        ;
        if middle * middle <= x {
            low = middle;
        } else {
            high = middle;
        }
    }
    let root: u64 = low as u64;
    proof {
        let k: int = low as int;
        assert((k as real) * (k as real) == (k * k) as real) by (nonlinear_arith);
        assert(((k + 1) as real) * ((k + 1) as real) == ((k + 1) * (k + 1)) as real)
            by (nonlinear_arith);
        lemma_floor_sqrt_is(root as nat, x as real);
    }
    root
}

/// The quotient of `numerator` by `denominator`, rounded toward zero.
pub(crate) fn truncated_quotient(numerator: i128, denominator: u128) -> (quotient: i128)
    requires
        denominator > 0,
        numerator > i128::MIN,
    ensures
        quotient == truncate(numerator as real / denominator as real),
{
    if numerator >= 0 {
        let n: u128 = numerator as u128;
        let q: u128 = n / denominator;
        proof {
            lemma_quotient_floor(n as int, denominator as int);
        }
        q as i128
    } else {
        let n: u128 = (-numerator) as u128;
        let q: u128 = n / denominator;
        proof {
            lemma_quotient_floor(n as int, denominator as int);
            assert(-(numerator as real / denominator as real) == (n as real) / (
            denominator as real)) by (nonlinear_arith)
                requires
                    n as real == -(numerator as real),
                    denominator > 0,
            ;
        }
        -(q as i128)
    }
}

/// One step of long division in base two: the quotient and the rest of twice
/// the dividend.
pub(crate) fn double_step(whole: u128, rest: u128, divisor: u128) -> (next: (u128, u128))
    requires
        rest < divisor <= 0x8000_0000_0000_0000_0000_0000_0000_0000,
        whole < 0x8000_0000_0000_0000_0000_0000_0000_0000,
    ensures
        next.0 * divisor + next.1 == 2 * (whole * divisor + rest),
        next.1 < divisor,
        2 * whole <= next.0 <= 2 * whole + 1,
{
    let twice: u128 = rest * 2;
    proof {
        assert((2 * whole + 1) * divisor == 2 * (whole * divisor) + divisor
            && (2 * whole) * divisor == 2 * (whole * divisor)) by (nonlinear_arith);
    }
    if twice >= divisor {
        (whole * 2 + 1, twice - divisor)
    } else {
        (whole * 2, twice)
    }
}

/// The quotient of `dividend * 2^doublings` by `divisor`, rounded down, and
/// the rest, by long division in base two.
pub(crate) fn scaled_quotient(dividend: u128, divisor: u128, doublings: u32) -> (parts: (
    u128,
    u128,
))
    requires
        0 < divisor <= 0x8000_0000_0000_0000_0000_0000_0000_0000,
        dividend * vstd::arithmetic::power2::pow2(doublings as nat) < divisor
            * 0x8000_0000_0000_0000_0000_0000_0000_0000,
    ensures
        parts.0 * divisor + parts.1 == dividend * vstd::arithmetic::power2::pow2(doublings as nat),
        parts.1 < divisor,
{
    let mut whole: u128 = dividend / divisor;
    let mut rest: u128 = dividend % divisor;
    let mut done: u32 = 0;
    proof {
        vstd::arithmetic::power2::lemma2_to64();
        assert(dividend == whole * divisor + rest && rest < divisor) by (nonlinear_arith)
            requires
                divisor > 0,
                whole == dividend / divisor,
                rest == dividend % divisor,
        ;
    }
    while done < doublings
        invariant
            done <= doublings,
            0 < divisor <= 0x8000_0000_0000_0000_0000_0000_0000_0000,
            rest < divisor,
            whole * divisor + rest == dividend * vstd::arithmetic::power2::pow2(done as nat),
            dividend * vstd::arithmetic::power2::pow2(doublings as nat) < divisor
                * 0x8000_0000_0000_0000_0000_0000_0000_0000,
        decreases doublings - done,
    {
        proof {
            let now = vstd::arithmetic::power2::pow2(done as nat);
            let end = vstd::arithmetic::power2::pow2(doublings as nat);
            let next = vstd::arithmetic::power2::pow2((done + 1) as nat);
            vstd::arithmetic::power2::lemma_pow2_unfold((done + 1) as nat);
            if done + 1 < doublings {
                vstd::arithmetic::power2::lemma_pow2_strictly_increases(
                    (done + 1) as nat,
                    doublings as nat,
                );
            }
            assert(dividend * next == 2 * (dividend * now) && dividend * next <= dividend * end)
                by (nonlinear_arith)
                requires
                    next == 2 * now,
                    next <= end,
                    dividend >= 0,
            ;
            assert(whole < 0x4000_0000_0000_0000_0000_0000_0000_0000) by (nonlinear_arith)
                requires
                    2 * (whole * divisor + rest) < divisor
                        * 0x8000_0000_0000_0000_0000_0000_0000_0000,
                    rest >= 0,
                    divisor > 0,
            ;
        }
        let next: (u128, u128) = double_step(whole, rest, divisor);
        whole = next.0;
        rest = next.1;
        done = done + 1;
    }
    (whole, rest)
}

/// A quotient with its rest is the real quotient rounded down.
pub proof fn lemma_quotient_with_rest(n: int, d: int, q: int, r: int)
    requires
        q * d + r == n,
        0 <= r < d,
        q >= 0,
    ensures
        (n as real / d as real).floor() == q,
        n as real / d as real >= 0real,
{
    let x = n as real / d as real;
    assert(q as real <= x < (q + 1) as real) by (nonlinear_arith)
        requires
            d > 0,
            q * d + r == n,
            0 <= r < d,
            x == n as real / d as real,
    ;
}

/// Integer division of natural numbers is real division rounded down.
pub proof fn lemma_quotient_floor(n: int, d: int)
    requires
        n >= 0,
        d > 0,
    ensures
        (n as real / d as real).floor() == n / d,
        n as real / d as real >= 0real,
{
    let q: int = n / d;
    let r = n as real / d as real;
    assert(q * d <= n < (q + 1) * d) by (nonlinear_arith)
        requires
            d > 0,
            q == n / d,
    ;
    assert(q as real <= r < (q + 1) as real) by (nonlinear_arith)
        requires
            d > 0,
            q * d <= n < (q + 1) * d,
            r == n as real / d as real,
    ;
}

} // verus!
