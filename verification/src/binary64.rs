//! Binary64 arithmetic carried out on integers.
//!
//! A curve is sampled with the arithmetic of IEEE 754 doubles: every product
//! and every sum is rounded to 53 significant bits, halves going to the even
//! neighbour. Rounding to a number of *significant* bits does not depend on
//! where the binary point stands, so a double is kept here as an integer that
//! counts some fixed power of two, and the caller keeps track of which one.
//! The values that occur are far from both ends of the exponent range: nothing
//! overflows and nothing is subnormal.
use vstd::arithmetic::div_mod::*;
use vstd::arithmetic::power2::*;
use vstd::prelude::*;

verus! {

/// The spacing of doubles at the magnitude of `n`: the power of two `u` with
/// `n < 2^53 * u`, and `2^52 * u <= n` unless `u` is one.
pub open spec fn ulp(n: int) -> int
    decreases n,
{
    if n < 0x20_0000_0000_0000 {
        1
    } else {
        2 * ulp(n / 2)
    }
}

/// The integer nearest to `n / d`, the even one where two are equally near.
pub open spec fn nearest_even(n: int, d: int) -> int {
    if 2 * (n % d) < d || (2 * (n % d) == d && (n / d) % 2 == 0) {
        n / d
    } else {
        n / d + 1
    }
}

/// The double nearest to `n`.
pub open spec fn rounded(n: int) -> int {
    if n < 0 {
        -(ulp(-n) * nearest_even(-n, ulp(-n)))
    } else {
        ulp(n) * nearest_even(n, ulp(n))
    }
}

/// The double nearest to the quotient `n / d`, for `n >= 0` and `d > 0`.
pub open spec fn rounded_quotient(n: int, d: int) -> int {
    ulp(n / d) * nearest_even(n, d * ulp(n / d))
}

/// The double nearest to the product of two doubles, counted in units that
/// are `2^52` times the product of the units of `a` and `b`.
pub open spec fn rounded_product(a: int, b: int) -> int {
    rounded(a * b) / 0x10_0000_0000_0000
}

/// The integer nearest to `n / d`, the one further from zero where two are
/// equally near.
pub open spec fn nearest_away(n: int, d: int) -> int {
    if n < 0 {
        -((-2 * n + d) / (2 * d))
    } else {
        (2 * n + d) / (2 * d)
    }
}

/// What bounds the spacing of doubles at `n`.
pub proof fn lemma_ulp(n: int)
    requires
        0 <= n,
    ensures
        1 <= ulp(n),
        n < 0x20_0000_0000_0000 * ulp(n),
        ulp(n) > 1 ==> 0x10_0000_0000_0000 * ulp(n) <= n,
        ulp(n) > 1 ==> ulp(n) % 2 == 0,
    decreases n,
{
    if n >= 0x20_0000_0000_0000 {
        lemma_ulp(n / 2);
    }
}

/// The nearest integer is at most half a unit away.
pub proof fn lemma_nearest_even(n: int, d: int)
    requires
        0 <= n,
        0 < d,
    ensures
        0 <= nearest_even(n, d),
        2 * (d * nearest_even(n, d)) <= 2 * n + d,
        2 * n - d <= 2 * (d * nearest_even(n, d)),
{
    let q = n / d;
    let r = n % d;
    lemma_fundamental_div_mod(n, d);
    lemma_div_pos_is_pos(n, d);
    assert(d * (q + 1) == d * q + d) by (nonlinear_arith);
}

/// Rounding moves a value by at most half the spacing, which is at most one
/// part in `2^53` of the value.
pub proof fn lemma_rounded_near(n: int)
    ensures
        0 <= n ==> 0 <= rounded(n),
        n <= 0 ==> rounded(n) <= 0,
        rounded(-n) == -rounded(n),
        0 <= n ==> -n <= 0x20_0000_0000_0000 * (rounded(n) - n) <= n,
        n <= 0 ==> n <= 0x20_0000_0000_0000 * (rounded(n) - n) <= -n,
{
    let a = if n < 0 { -n } else { n };
    let u = ulp(a);
    lemma_ulp(a);
    lemma_nearest_even(a, u);
    let m = nearest_even(a, u);
    assert(0 <= u * m) by (nonlinear_arith)
        requires
            1 <= u,
            0 <= m,
    ;
    if u == 1 {
        assert(a % 1 == 0);
        assert(u * m == a);
    }
    assert(ulp(0) == 1);
    assert(nearest_even(0, 1) == 0);
}

/// Dropping low bits leaves the spacing alone, as long as the leading 53 stay.
proof fn lemma_ulp_shifted(n: int, k: nat)
    requires
        0 <= n,
        0x10_0000_0000_0000 <= n / (pow2(k) as int),
    ensures
        ulp(n) == pow2(k) * ulp(n / (pow2(k) as int)),
    decreases k,
{
    lemma_pow2_pos(k);
    if k == 0 {
        lemma2_to64();
        assert(n / 1 == n);
    } else {
        let p = pow2((k - 1) as nat) as int;
        lemma_pow2_unfold(k);
        lemma_pow2_pos((k - 1) as nat);
        lemma_div_denominator(n, 2, p);
        assert(pow2(k) == 2 * p);
        assert(n / (2 * p) == (n / 2) / p);
        lemma_ulp_shifted(n / 2, (k - 1) as nat);
        assert(n >= 0x20_0000_0000_0000) by {
            lemma_fundamental_div_mod(n, 2 * p);
            let q = n / (2 * p);
            lemma_mod_bound(n, 2 * p);
            assert((2 * p) * q >= 2 * q) by (nonlinear_arith)
                requires
                    p >= 1,
                    q >= 0,
            ;
        }
        assert(2 * (p * ulp((n / 2) / p)) == (2 * p) * ulp((n / 2) / p)) by (nonlinear_arith);
    }
}

/// The low 52 bits of a large magnitude matter to its rounding only by whether
/// any of them is set, so one bit can stand for all of them.
proof fn lemma_sticky_bit(n: int)
    requires
        0x80_0000_0000_0000 <= with_sticky_bit(n),
    ensures
        rounded(n) == 0x8_0000_0000_0000 * rounded(with_sticky_bit(n)),
{
    let a = n / 0x10_0000_0000_0000;
    let l = n % 0x10_0000_0000_0000;
    let b = with_sticky_bit(n);
    let s: int = if l == 0 { 0 } else { 1 };
    let c = n / 0x8_0000_0000_0000;
    let w = ulp(b);
    let u = ulp(n);
    assert(u == 0x8_0000_0000_0000 * w && w % 4 == 0 && w > 0) by {
        lemma2_to64();
        lemma2_to64_rest();
        lemma_ulp_shifted(n, 51);
        assert(c / 2 == a);
        assert(ulp(c) == 2 * ulp(c / 2));
        assert(b / 2 == a);
        assert(ulp(b) == 2 * ulp(b / 2));
        lemma_ulp(a);
    }
    let q = b / w;
    let r = b % w;
    lemma_fundamental_div_mod(b, w);
    lemma_mod_bound(b, w);
    let wq = w * q;
    assert(wq % 4 == 0) by {
        lemma_fundamental_div_mod(w, 4);
        let w4 = w / 4;
        assert(w * q == 4 * (w4 * q)) by (nonlinear_arith)
            requires
                w == 4 * w4,
        ;
    }
    let rest = 0x8_0000_0000_0000 * (r - s) + l;
    assert(n == q * u + rest) by {
        assert(q * u == 0x8_0000_0000_0000 * wq) by (nonlinear_arith)
            requires
                u == 0x8_0000_0000_0000 * w,
                wq == w * q,
        ;
    }
    lemma_fundamental_div_mod_converse(n, u, q, rest);
    assert(nearest_even(n, u) == nearest_even(b, w));
    let m = nearest_even(b, w);
    assert(u * m == 0x8_0000_0000_0000 * (w * m)) by (nonlinear_arith)
        requires
            u == 0x8_0000_0000_0000 * w,
    ;
}

/// `n / 2^51`, with all that was cut off folded into the lowest bit.
pub open spec fn with_sticky_bit(n: int) -> int {
    2 * (n / 0x10_0000_0000_0000) + if n % 0x10_0000_0000_0000 == 0 {
        0int
    } else {
        1
    }
}

proof fn lemma_nearest_away_of_sticky_magnitude(n: int)
    requires
        0 <= n,
    ensures
        nearest_away(rounded(n), 0x1_0000_0000_0000_0000_0000_0000_0000) == nearest_away(
            rounded(with_sticky_bit(n)),
            0x2000_0000_0000_0000,
        ),
{
    let b = with_sticky_bit(n);
    lemma_rounded_near(n);
    lemma_rounded_near(b);
    if b >= 0x80_0000_0000_0000 {
        lemma_sticky_bit(n);
        lemma_div_multiples_vanish_quotient(
            0x8_0000_0000_0000,
            2 * rounded(b) + 0x2000_0000_0000_0000,
            0x4000_0000_0000_0000,
        );
        assert(2 * rounded(n) + 0x1_0000_0000_0000_0000_0000_0000_0000 == 0x8_0000_0000_0000 * (2
            * rounded(b) + 0x2000_0000_0000_0000));
    } else {
        assert(rounded(b) < 0x1000_0000_0000_0000);
        lemma_basic_div(2 * rounded(b) + 0x2000_0000_0000_0000, 0x4000_0000_0000_0000);
        assert(n < 0x8_0000_0000_0000 * (b + 2));
        assert(rounded(n) < 0x8000_0000_0000_0000_0000_0000_0000);
        lemma_basic_div(
            2 * rounded(n) + 0x1_0000_0000_0000_0000_0000_0000_0000,
            0x2_0000_0000_0000_0000_0000_0000_0000,
        );
    }
}

/// The rounding of a double to an integer can be read off the leading bits.
pub proof fn lemma_nearest_away_of_sticky(n: int)
    ensures
        nearest_away(rounded(n), 0x1_0000_0000_0000_0000_0000_0000_0000) == nearest_away(
            rounded(with_sticky_bit(n)),
            0x2000_0000_0000_0000,
        ),
{
    if n < 0 {
        assert(with_sticky_bit(-n) == -with_sticky_bit(n));
        lemma_nearest_away_of_sticky_magnitude(-n);
        lemma_rounded_near(n);
        lemma_rounded_near(with_sticky_bit(n));
    } else {
        lemma_nearest_away_of_sticky_magnitude(n);
    }
}

/// The spacing of doubles is a power of two.
pub proof fn lemma_ulp_power(n: int) -> (k: nat)
    requires
        0 <= n,
    ensures
        ulp(n) == pow2(k),
    decreases n,
{
    if n < 0x20_0000_0000_0000 {
        lemma2_to64();
        0
    } else {
        let k = lemma_ulp_power(n / 2);
        lemma_pow2_unfold(k + 1);
        k + 1
    }
}

/// The spacing of doubles between two powers of two.
pub proof fn lemma_ulp_between(n: int, k: nat)
    requires
        0x10_0000_0000_0000 * pow2(k) <= n < 0x20_0000_0000_0000 * pow2(k),
    ensures
        ulp(n) == pow2(k),
    decreases k,
{
    lemma_pow2_pos(k);
    if k == 0 {
        lemma2_to64();
    } else {
        lemma_pow2_unfold(k);
        lemma_pow2_pos((k - 1) as nat);
        lemma_ulp_between(n / 2, (k - 1) as nat);
    }
}

/// A smaller power of two is at most half of a larger one.
proof fn lemma_powers_apart(j: nat, k: nat)
    requires
        pow2(j) < pow2(k),
    ensures
        2 * pow2(j) <= pow2(k),
{
    if k <= j {
        if k < j {
            lemma_pow2_strictly_increases(k, j);
        }
    } else {
        lemma_pow2_unfold(k);
        if j < k - 1 {
            lemma_pow2_strictly_increases(j, (k - 1) as nat);
        }
    }
}

/// A smaller number has no larger nearest integer.
proof fn lemma_nearest_even_ordered(m: int, n: int, d: int)
    requires
        0 <= m <= n,
        0 < d,
    ensures
        nearest_even(m, d) <= nearest_even(n, d),
{
    lemma_fundamental_div_mod(m, d);
    lemma_fundamental_div_mod(n, d);
    lemma_mod_bound(m, d);
    lemma_mod_bound(n, d);
    lemma_div_is_ordered(m, n, d);
}

/// A number with as many quotient bits as a double has a nearest integer with as
/// many.
proof fn lemma_nearest_even_between(n: int, d: int, low: int, high: int)
    requires
        0 < d,
        0 <= low,
        low * d <= n <= high * d,
    ensures
        low <= nearest_even(n, d) <= high,
{
    lemma_nearest_even_whole(low, d);
    lemma_nearest_even_whole(high, d);
    assert(0 <= low * d) by (nonlinear_arith)
        requires
            0 <= low,
            0 < d,
    ;
    lemma_nearest_even_ordered(low * d, n, d);
    lemma_nearest_even_ordered(n, high * d, d);
}

proof fn lemma_nearest_even_whole(q: int, d: int)
    requires
        0 < d,
    ensures
        nearest_even(q * d, d) == q,
{
    lemma_fundamental_div_mod_converse(q * d, d, q, 0);
}

/// A smaller number is divided to no larger double.
pub proof fn lemma_rounded_quotient_ordered(m: int, n: int, d: int)
    requires
        0 <= m <= n,
        0 < d,
    ensures
        rounded_quotient(m, d) <= rounded_quotient(n, d),
{
    let (p, q) = (m / d, n / d);
    lemma_div_is_ordered(m, n, d);
    lemma_div_pos_is_pos(m, d);
    lemma_ulp(p);
    lemma_ulp(q);
    let (u, v) = (ulp(p), ulp(q));
    let j = lemma_ulp_power(p);
    let k = lemma_ulp_power(q);
    lemma_ulp_ordered(p, q);
    assert(0 < d * u && 0 < d * v) by (nonlinear_arith)
        requires
            0 < d,
            0 < u,
            0 < v,
    ;
    if u == v {
        lemma_nearest_even_ordered(m, n, d * u);
        let (x, y) = (nearest_even(m, d * u), nearest_even(n, d * u));
        assert(u * x <= u * y) by (nonlinear_arith)
            requires
                x <= y,
                0 < u,
        ;
    } else {
        lemma_powers_apart(j, k);
        lemma_fundamental_div_mod(m, d);
        lemma_mod_bound(m, d);
        lemma_fundamental_div_mod(n, d);
        lemma_mod_bound(n, d);
        assert(m <= 0x20_0000_0000_0000 * (d * u)) by (nonlinear_arith)
            requires
                m < d * p + d,
                p < 0x20_0000_0000_0000 * u,
                0 < d,
        ;
        lemma_nearest_even_between(m, d * u, 0, 0x20_0000_0000_0000);
        assert(0x10_0000_0000_0000 * (d * v) <= n) by (nonlinear_arith)
            requires
                d * q <= n,
                0x10_0000_0000_0000 * v <= q,
                0 < d,
        ;
        let y = nearest_even(n, d * v);
        lemma_nearest_even_low(n, d * v);
        let x = nearest_even(m, d * u);
        assert(u * x <= v * y) by (nonlinear_arith)
            requires
                x <= 0x20_0000_0000_0000,
                0x10_0000_0000_0000 <= y,
                2 * u <= v,
                0 < u,
        ;
    }
}

proof fn lemma_nearest_even_low(n: int, d: int)
    requires
        0 < d,
        0x10_0000_0000_0000 * d <= n,
    ensures
        0x10_0000_0000_0000 <= nearest_even(n, d),
{
    lemma_nearest_even_whole(0x10_0000_0000_0000, d);
    lemma_nearest_even_ordered(0x10_0000_0000_0000 * d, n, d);
}

/// The spacing of doubles does not shrink.
proof fn lemma_ulp_ordered(m: int, n: int)
    requires
        0 <= m <= n,
    ensures
        ulp(m) <= ulp(n),
    decreases n,
{
    lemma_ulp(m);
    lemma_ulp(n);
    if m >= 0x20_0000_0000_0000 {
        lemma_ulp_ordered(m / 2, n / 2);
    }
}

/// Rounding keeps the order of numbers.
pub proof fn lemma_rounded_ordered(m: int, n: int)
    requires
        m <= n,
    ensures
        rounded(m) <= rounded(n),
{
    assert(forall|x: int| 0 <= x ==> #[trigger] rounded_quotient(x, 1) == rounded(x));
    if 0 <= m {
        lemma_rounded_quotient_ordered(m, n, 1);
    } else if n <= 0 {
        lemma_rounded_quotient_ordered(-n, -m, 1);
        lemma_rounded_near(m);
        lemma_rounded_near(n);
    } else {
        lemma_rounded_near(m);
        lemma_rounded_near(n);
    }
}

/// Rounding to a whole number keeps the order of numbers.
pub proof fn lemma_nearest_away_ordered(m: int, n: int, d: int)
    requires
        m <= n,
        0 < d,
    ensures
        nearest_away(m, d) <= nearest_away(n, d),
{
    if 0 <= m {
        lemma_div_is_ordered(2 * m + d, 2 * n + d, 2 * d);
    } else if n < 0 {
        lemma_div_is_ordered(-2 * n + d, -2 * m + d, 2 * d);
    } else {
        lemma_div_pos_is_pos(-2 * m + d, 2 * d);
        lemma_div_pos_is_pos(2 * n + d, 2 * d);
    }
}

/// Rounding to a whole number moves a value by at most half.
pub proof fn lemma_nearest_away_near(n: int, d: int)
    requires
        0 < d,
    ensures
        -d <= 2 * (n - d * nearest_away(n, d)) <= d,
{
    let a = if n < 0 {
        -n
    } else {
        n
    };
    let q = (2 * a + d) / (2 * d);
    lemma_fundamental_div_mod(2 * a + d, 2 * d);
    lemma_mod_bound(2 * a + d, 2 * d);
    assert((2 * d) * q == 2 * (d * q)) by (nonlinear_arith);
    assert(d * (-q) == -(d * q)) by (nonlinear_arith);
}

/// The nearest integer does not depend on the scale.
pub proof fn lemma_nearest_even_scaled(n: int, d: int, c: int)
    requires
        0 <= n,
        0 < d,
        0 < c,
    ensures
        nearest_even(c * n, c * d) == nearest_even(n, d),
{
    let (q, r) = (n / d, n % d);
    lemma_fundamental_div_mod(n, d);
    lemma_mod_bound(n, d);
    assert(c * n == q * (c * d) + c * r) by (nonlinear_arith)
        requires
            n == d * q + r,
    ;
    assert(0 <= c * r < c * d) by (nonlinear_arith)
        requires
            0 <= r < d,
            0 < c,
    ;
    lemma_fundamental_div_mod_converse(c * n, c * d, q, c * r);
    assert(2 * (c * r) < c * d <==> 2 * r < d) by (nonlinear_arith)
        requires
            0 < c,
    ;
    assert(2 * (c * r) == c * d <==> 2 * r == d) by (nonlinear_arith)
        requires
            0 < c,
    ;
}

/// Rounding to a whole number does not depend on the scale.
pub proof fn lemma_nearest_away_scaled(n: int, d: int, c: int)
    requires
        0 < d,
        0 < c,
    ensures
        nearest_away(c * n, c * d) == nearest_away(n, d),
{
    let a = if n < 0 {
        -n
    } else {
        n
    };
    assert(c * (2 * a + d) == 2 * (c * a) + c * d && c * (2 * d) == 2 * (c * d))
        by (nonlinear_arith);
    lemma_div_multiples_vanish_quotient(c, 2 * a + d, 2 * d);
    assert(c * (-n) == -(c * n)) by (nonlinear_arith);
    assert((c * n < 0) == (n < 0)) by (nonlinear_arith)
        requires
            0 < c,
    ;
}

/// Rounding to significant bits does not depend on the power of two that is
/// counted.
pub proof fn lemma_rounded_scaled(n: int, k: nat)
    ensures
        rounded(pow2(k) * n) == pow2(k) * rounded(n),
    decreases k,
{
    if k == 0 {
        lemma2_to64();
        assert(pow2(0) * n == n && pow2(0) * rounded(n) == rounded(n)) by (nonlinear_arith)
            requires
                pow2(0) == 1,
        ;
    } else {
        let p = pow2((k - 1) as nat) as int;
        lemma_pow2_unfold(k);
        assert(pow2(k) == 2 * p);
        lemma_rounded_scaled(n, (k - 1) as nat);
        lemma_rounded_doubled(p * n);
        assert((2 * p) * n == 2 * (p * n)) by (nonlinear_arith);
        let r = rounded(n);
        assert((2 * p) * r == 2 * (p * r)) by (nonlinear_arith);
    }
}

proof fn lemma_rounded_doubled(n: int)
    ensures
        rounded(2 * n) == 2 * rounded(n),
{
    let a = if n < 0 {
        -n
    } else {
        n
    };
    let u = ulp(a);
    lemma_ulp(a);
    lemma_rounded_near(2 * n);
    lemma_rounded_near(n);
    if a < 0x10_0000_0000_0000 {
        assert(ulp(2 * a) == 1);
        assert((2 * a) % 1 == 0 && a % 1 == 0);
    } else {
        if a < 0x20_0000_0000_0000 {
            assert(ulp(2 * a) == 2 * ulp((2 * a) / 2));
        }
        assert(ulp(2 * a) == 2 * u);
        lemma_nearest_even_scaled(a, u, 2);
        let m = nearest_even(a, u);
        assert((2 * u) * m == 2 * (u * m)) by (nonlinear_arith);
    }
}

/// A large double has no low bits.
pub proof fn lemma_rounded_has_no_low_bits(n: int)
    requires
        0x100_0000_0000_0000_0000_0000_0000 <= n,
    ensures
        rounded(n) % 0x10_0000_0000_0000 == 0,
{
    lemma_ulp(n);
    let k = lemma_ulp_power(n);
    lemma2_to64();
    lemma2_to64_rest();
    if k < 52 {
        if k < 51 {
            lemma_pow2_strictly_increases(k, 51);
        }
    } else {
        let low = (k - 52) as nat;
        lemma_pow2_adds(low, 52);
        let (p, m) = (pow2(low) as int, nearest_even(n, ulp(n)));
        assert((p * 0x10_0000_0000_0000) * m == (p * m) * 0x10_0000_0000_0000)
            by (nonlinear_arith);
        lemma_mod_multiples_basic(p * m, 0x10_0000_0000_0000);
    }
}

/// Division moves a value by at most one part in `2^53`.
pub proof fn lemma_rounded_quotient_near(n: int, d: int)
    requires
        0 < d,
        0x10_0000_0000_0000 * d <= n,
    ensures
        0 <= rounded_quotient(n, d),
        -n <= 0x20_0000_0000_0000 * (rounded_quotient(n, d) * d - n) <= n,
{
    let q = n / d;
    lemma_div_pos_is_pos(n, d);
    lemma_fundamental_div_mod(n, d);
    lemma_mod_bound(n, d);
    assert(0x10_0000_0000_0000 <= q) by {
        lemma_div_is_ordered(0x10_0000_0000_0000 * d, n, d);
        lemma_div_multiples_vanish(0x10_0000_0000_0000, d);
        assert(0x10_0000_0000_0000 * d == d * 0x10_0000_0000_0000);
    }
    let u = ulp(q);
    lemma_ulp(q);
    assert(0x10_0000_0000_0000 * (d * u) <= n) by (nonlinear_arith)
        requires
            d * q <= n,
            0x10_0000_0000_0000 * u <= q,
            0 < d,
    ;
    assert(0 < d * u) by (nonlinear_arith)
        requires
            0 < d,
            0 < u,
    ;
    lemma_nearest_even(n, d * u);
    let m = nearest_even(n, d * u);
    assert((u * m) * d == (d * u) * m) by (nonlinear_arith);
    assert(0 <= u * m) by (nonlinear_arith)
        requires
            0 < u,
            0 <= m,
    ;
}

/// Finds the spacing of doubles at the magnitude of `n`.
pub fn ulp_of(n: u128) -> (u: u128)
    ensures
        u == ulp(n as int),
        u <= n || u == 1,
{
    let mut rest: u128 = n;
    let mut u: u128 = 1;
    while rest >= 0x20_0000_0000_0000
        invariant
            ulp(n as int) == u * ulp(rest as int),
            1 <= u,
            u * rest <= n,
        decreases rest,
    {
        let ghost half = (rest / 2) as int;
        assert(u * (2 * ulp(half)) == (2 * u) * ulp(half)) by (nonlinear_arith);
        assert((2 * u) * half <= u * rest) by (nonlinear_arith)
            requires
                2 * half <= rest,
                1 <= u,
        ;
        assert(2 * u <= (2 * u) * half) by (nonlinear_arith)
            requires
                1 <= half,
                1 <= u,
        ;
        rest = rest / 2;
        u = 2 * u;
    }
    assert(u * 1 == u);
    assert(u <= n || u == 1) by {
        lemma_ulp(n as int);
    }
    u
}

/// Divides to the nearest integer, halves to the even one.
pub fn nearest_even_of(n: u128, d: u128) -> (m: u128)
    requires
        0 < d <= 0x4000_0000_0000_0000_0000_0000_0000_0000,
        n <= 0x8000_0000_0000_0000_0000_0000_0000_0000,
    ensures
        m == nearest_even(n as int, d as int),
        m <= n + 1,
{
    let q: u128 = n / d;
    let r: u128 = n % d;
    assert(q <= n) by (nonlinear_arith)
        requires
            q == n / d,
            d > 0,
    ;
    if 2 * r < d || (2 * r == d && q % 2 == 0) {
        q
    } else {
        q + 1
    }
}

/// Rounds to the nearest double.
pub fn round_to_double(n: i128) -> (r: i128)
    requires
        -0x2000_0000_0000_0000_0000_0000_0000_0000 <= n
            <= 0x2000_0000_0000_0000_0000_0000_0000_0000,
    ensures
        r == rounded(n as int),
{
    let a: u128 = if n < 0 {
        (-n) as u128
    } else {
        n as u128
    };
    let u: u128 = ulp_of(a);
    proof {
        lemma_ulp(a as int);
        lemma_nearest_even(a as int, u as int);
    }
    let m: u128 = nearest_even_of(a, u);
    proof {
        assert(u * m >= 0) by (nonlinear_arith);
        assert(2 * (u * m) <= 2 * a + u);
    }
    let r: i128 = (u * m) as i128;
    if n < 0 {
        -r
    } else {
        r
    }
}

/// Divides to the nearest double.
pub fn round_quotient(n: u128, d: u128) -> (r: u128)
    requires
        n <= 0x2000_0000_0000_0000_0000_0000_0000_0000,
        0 < d,
        n >= d,
    ensures
        r == rounded_quotient(n as int, d as int),
        2 * r <= 3 * (n as int),
{
    let q: u128 = n / d;
    assert(1 <= q <= n && q * d <= n) by (nonlinear_arith)
        requires
            q == n / d,
            0 < d <= n,
    ;
    let u: u128 = ulp_of(q);
    proof {
        lemma_ulp(q as int);
    }
    assert(1 <= d * u <= n) by (nonlinear_arith)
        requires
            1 <= u <= q,
            q * d <= n,
            1 <= d,
    ;
    let m: u128 = nearest_even_of(n, d * u);
    proof {
        lemma_nearest_even(n as int, (d * u) as int);
    }
    assert(0 <= u * m <= (d * u) * m) by (nonlinear_arith)
        requires
            1 <= d,
            0 <= u,
            0 <= m,
    ;
    u * m
}

/// Multiplies two doubles.
pub fn round_product(a: u128, b: u128) -> (r: u128)
    requires
        a * b <= 0x2000_0000_0000_0000_0000_0000_0000_0000,
    ensures
        r == rounded_product(a as int, b as int),
        0x20_0000_0000_0000 * r <= 3 * (a * b),
{
    assert(0 <= a * b) by (nonlinear_arith);
    let r: i128 = round_to_double((a * b) as i128);
    proof {
        lemma_rounded_near(a * b);
    }
    r as u128 / 0x10_0000_0000_0000
}

/// Divides to the nearest integer, halves away from zero.
pub fn nearest_away_of(n: i128, d: i128) -> (m: i128)
    requires
        -0x1000_0000_0000_0000_0000_0000_0000_0000 <= n
            <= 0x1000_0000_0000_0000_0000_0000_0000_0000,
        0 < d <= 0x1000_0000_0000_0000_0000_0000_0000_0000,
    ensures
        m == nearest_away(n as int, d as int),
{
    if n < 0 {
        let a: i128 = -n;
        -((2 * a + d) / (2 * d))
    } else {
        (2 * n + d) / (2 * d)
    }
}

/// A quotient whose mantissa is known is known at every scale.
pub proof fn lemma_quotient_scaled(n: int, m: int, c: int, k: nat)
    requires
        0 < m,
        0 < c,
        0x10_0000_0000_0000 * m <= n < 0x20_0000_0000_0000 * m,
    ensures
        rounded_quotient(pow2(k) * (c * n), c * m) == pow2(k) * nearest_even(n, m),
{
    lemma_pow2_pos(k);
    let v = pow2(k) as int;
    let (a, d) = (v * (c * n), c * m);
    let x = a / d;
    assert(0 < d) by (nonlinear_arith)
        requires
            0 < c,
            0 < m,
            d == c * m,
    ;
    lemma_fundamental_div_mod(a, d);
    lemma_mod_bound(a, d);
    let s = v * c;
    assert(a == s * n && v * d == s * m) by (nonlinear_arith)
        requires
            a == v * (c * n),
            d == c * m,
            s == v * c,
    ;
    assert(0 < s) by (nonlinear_arith)
        requires
            0 < v,
            0 < c,
            s == v * c,
    ;
    assert(0x10_0000_0000_0000 * (s * m) <= s * n < 0x20_0000_0000_0000 * (s * m))
        by (nonlinear_arith)
        requires
            0x10_0000_0000_0000 * m <= n < 0x20_0000_0000_0000 * m,
            0 < s,
    ;
    assert(0x10_0000_0000_0000 * v <= x) by (nonlinear_arith)
        requires
            0x10_0000_0000_0000 * (v * d) <= a,
            a < d * x + d,
            0 < d,
    ;
    assert(x < 0x20_0000_0000_0000 * v) by (nonlinear_arith)
        requires
            a < 0x20_0000_0000_0000 * (v * d),
            d * x <= a,
            0 < d,
    ;
    lemma_ulp_between(x, k);
    assert(d * v == s * m) by (nonlinear_arith)
        requires
            v * d == s * m,
    ;
    lemma_nearest_even_scaled(n, m, s);
}

/// The powers of two that occur fit.
pub proof fn lemma_power_bound(k: nat)
    requires
        k <= 110,
    ensures
        0 < pow2(k) <= 0x4000_0000_0000_0000_0000_0000_0000,
{
    lemma2_to64();
    lemma2_to64_rest();
    lemma_pow2_adds(55, 55);
    lemma_pow2_pos(k);
    if k < 110 {
        lemma_pow2_strictly_increases(k, 110);
    }
}

/// A power of two.
pub fn power(k: u32) -> (p: u128)
    requires
        k <= 110,
    ensures
        p == pow2(k as nat),
        0 < p <= 0x4000_0000_0000_0000_0000_0000_0000,
{
    let mut p: u128 = 1;
    proof {
        lemma2_to64();
        lemma_power_bound(k as nat);
    }
    for i in 0..k
        invariant
            k <= 110,
            p == pow2(i as nat),
    {
        proof {
            lemma_power_bound(i as nat);
            lemma_pow2_unfold((i + 1) as nat);
        }
        p = 2 * p;
    }
    p
}

/// Divides to as many bits as a double has: the mantissa, and by which power of
/// two the dividend was multiplied for it.
pub fn divide_to_mantissa(a: u128, m: u128) -> (r: (u128, u32))
    requires
        1 <= a < 0x8_0000_0000,
        0x10_0000_0000_0000 <= m <= 0x40_0000_0000_0000,
    ensures
        r.0 == nearest_even(a * pow2(r.1 as nat), m as int),
        0x10_0000_0000_0000 <= r.0 <= 0x20_0000_0000_0000,
        0x10_0000_0000_0000 * m <= a * pow2(r.1 as nat) < 0x20_0000_0000_0000 * m,
        69 <= r.1 <= 106,
{
    let mut n: u128 = a;
    let mut t: u32 = 0;
    proof {
        lemma2_to64();
        assert(a * pow2(0) == a) by (nonlinear_arith)
            requires
                pow2(0) == 1,
        ;
    }
    while n < 0x10_0000_0000_0000 * m
        invariant
            1 <= a < 0x8_0000_0000,
            0x10_0000_0000_0000 <= m <= 0x40_0000_0000_0000,
            n == a * pow2(t as nat),
            1 <= n < 0x20_0000_0000_0000 * m,
            t <= 106,
        decreases 0x20_0000_0000_0000 * m - n,
    {
        proof {
            let p = pow2(t as nat) as int;
            lemma_pow2_unfold((t + 1) as nat);
            assert(a * (2 * p) == 2 * (a * p)) by (nonlinear_arith);
            assert(p <= a * p) by (nonlinear_arith)
                requires
                    1 <= a,
                    0 <= p,
            ;
            lemma_pow2_pos(t as nat);
            if t == 106 {
                lemma2_to64();
                lemma2_to64_rest();
                lemma_pow2_adds(53, 53);
            }
        }
        n = 2 * n;
        t = t + 1;
    }
    proof {
        lemma_nearest_even_between(
            n as int,
            m as int,
            0x10_0000_0000_0000,
            0x20_0000_0000_0000,
        );
        if t < 69 {
            let p = pow2(t as nat) as int;
            lemma_pow2_pos(t as nat);
            lemma2_to64();
            lemma2_to64_rest();
            lemma_pow2_adds(35, 34);
            lemma_pow2_strictly_increases(t as nat, 69);
            assert(a * p < 0x8_0000_0000 * p) by (nonlinear_arith)
                requires
                    a < 0x8_0000_0000,
                    0 < p,
            ;
        }
    }
    (nearest_even_of(n, m), t)
}

} // verus!
