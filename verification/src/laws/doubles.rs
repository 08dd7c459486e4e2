//! How numbers are rounded.
use crate::binary64;
use crate::curve;
use crate::edge;
use crate::root;
use vstd::arithmetic::div_mod::*;
use vstd::arithmetic::power2::*;
use vstd::prelude::*;

verus! {

/// Doubles are spaced by powers of two, so that a number is a count of 53 bits of them,
/// no fewer unless they are spaced by one.
pub proof fn law_doubles_have_as_many_digits(n: int)
    requires
        0 <= n,
    ensures
        exists|k: nat| binary64::ulp(n) == pow2(k),
        n < 0x20_0000_0000_0000 * binary64::ulp(n),
        binary64::ulp(n) == 1 || 0x10_0000_0000_0000 * binary64::ulp(n) <= n,
{
    let k = binary64::lemma_ulp_power(n);
    binary64::lemma_ulp(n);
    assert(binary64::ulp(n) == pow2(k));
}

/// The nearest integer to a quotient is at most half away, and where it is half away it
/// is even.
pub proof fn law_halves_go_to_the_even_side(n: int, d: int)
    requires
        0 <= n,
        0 < d,
    ensures
        ({
            let q = binary64::nearest_even(n, d);
            &&& -d <= 2 * (n - d * q) <= d
            &&& 2 * (n - d * q) == d || 2 * (n - d * q) == -d ==> q % 2 == 0
        }),
{
    let (q, r) = (n / d, n % d);
    lemma_fundamental_div_mod(n, d);
    lemma_mod_bound(n, d);
    assert(d * (q + 1) == d * q + d) by (nonlinear_arith);
}

/// The nearest whole number to a quotient is at most half away, and where it is half away
/// it is the one further from zero.
pub proof fn law_halves_go_away_from_zero(n: int, d: int)
    requires
        0 < d,
    ensures
        ({
            let q = binary64::nearest_away(n, d);
            &&& -d <= 2 * (n - d * q) <= d
            &&& 2 * (n - d * q) == d ==> n < 0
            &&& 2 * (n - d * q) == -d ==> 0 < n
        }),
{
    let a = if n < 0 {
        -n
    } else {
        n
    };
    let q = (2 * a + d) / (2 * d);
    lemma_fundamental_div_mod(2 * a + d, 2 * d);
    lemma_mod_bound(2 * a + d, 2 * d);
    assert((2 * d) * q == 2 * (d * q)) by (nonlinear_arith);
    assert(d * (-q) == -(d * q)) by (nonlinear_arith);
    if n == 0 {
        assert(q == 0) by {
            lemma_fundamental_div_mod_converse(d, 2 * d, 0, d);
        }
        assert(d * 0 == 0);
    }
}

/// Rounding takes a number to the nearest double: to a multiple of the spacing at its
/// magnitude, by at most half of it, and to an even multiple where two are as near. It
/// does to a negative number what it does to its opposite.
pub proof fn law_numbers_are_rounded_to_the_nearest_double(n: int)
    requires
        0 <= n,
    ensures
        ({
            let (u, v) = (binary64::ulp(n), binary64::rounded(n));
            let m = v / u;
            &&& v == u * m
            &&& -u <= 2 * (v - n) <= u
            &&& 2 * (v - n) == u || 2 * (v - n) == -u ==> m % 2 == 0
            &&& binary64::rounded(-n) == -v
        }),
{
    let u = binary64::ulp(n);
    binary64::lemma_ulp(n);
    binary64::lemma_rounded_near(n);
    law_halves_go_to_the_even_side(n, u);
    let m = binary64::nearest_even(n, u);
    lemma_fundamental_div_mod_converse(u * m, u, m, 0);
}

/// A quotient is rounded to the nearest double in the same way.
pub proof fn law_quotients_are_rounded_to_the_nearest_double(n: int, d: int)
    requires
        0 <= n,
        0 < d,
    ensures
        ({
            let u = binary64::ulp(n / d);
            let q = binary64::rounded_quotient(n, d);
            let m = q / u;
            &&& q == u * m
            &&& -(d * u) <= 2 * (d * q - n) <= d * u
            &&& 2 * (d * q - n) == d * u || 2 * (d * q - n) == -(d * u) ==> m % 2 == 0
        }),
{
    lemma_div_pos_is_pos(n, d);
    let u = binary64::ulp(n / d);
    binary64::lemma_ulp(n / d);
    let du = d * u;
    assert(0 < du) by (nonlinear_arith)
        requires
            du == d * u,
            0 < d,
            1 <= u,
    ;
    law_halves_go_to_the_even_side(n, du);
    let m = binary64::nearest_even(n, du);
    assert(du * m == d * (u * m)) by (nonlinear_arith)
        requires
            du == d * u,
    ;
    lemma_fundamental_div_mod_converse(u * m, u, m, 0);
}

/// The length of a vector is the double nearest to the root of its square: a multiple of
/// a power of two that has 53 bits, and less than half of the power from the root, which
/// counts `2^-52`.
pub proof fn law_lengths_are_the_nearest_doubles(square: int)
    requires
        1 <= square <= 0x4_0000_0000_0000_0000,
    ensures
        exists|m: int, k: nat|
            #![trigger pow2(k) * m]
            {
                let (h, u) = (root::length(square), pow2(k) as int);
                let all = 0x400_0000_0000_0000_0000_0000_0000 * square;
                &&& h == pow2(k) * m
                &&& 0x10_0000_0000_0000 <= m <= 0x20_0000_0000_0000
                &&& (2 * h - u) * (2 * h - u) <= all < (2 * h + u) * (2 * h + u)
            },
{
    let (m, k) = root::lemma_length_parts(square);
    assert(root::length(square) == pow2(k) * m);
}

/// A quotient that is cut off is so toward zero: what is left over is less than the
/// divisor, and on the side of the number.
pub proof fn law_quotients_are_cut_off_toward_zero(n: int, d: int)
    requires
        d != 0,
    ensures
        ({
            let rest = n - d * edge::quotient(n, d);
            &&& 0 <= n ==> 0 <= rest
            &&& n <= 0 ==> rest <= 0
            &&& -d < rest < d || d < rest < -d
        }),
{
    let (a, b) = (edge::magnitude(n), edge::magnitude(d));
    let q = a / b;
    lemma_fundamental_div_mod(a, b);
    lemma_mod_bound(a, b);
    assert(d * (-q) == -(d * q) && (-d) * q == -(d * q)) by (nonlinear_arith);
}

/// What is beyond the coordinates is held at their end; nothing else changes.
pub proof fn law_coordinates_end_somewhere(n: int)
    ensures
        i32::MIN <= n <= i32::MAX ==> curve::saturated(n) == n,
        n < i32::MIN ==> curve::saturated(n) == i32::MIN,
        i32::MAX < n ==> curve::saturated(n) == i32::MAX,
{
}

} // verus!
