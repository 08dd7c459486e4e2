//! Square roots, to the nearest integer and to the nearest double.
use crate::binary64;
use vstd::arithmetic::power2::*;
use vstd::prelude::*;

verus! {

/// Whether `n` is the integer nearest to half the square root of `m / d`, the
/// larger one where two are equally near.
pub open spec fn is_half_root(n: int, m: int, d: int) -> bool {
    &&& 0 <= n
    &&& n == 0 || (2 * n - 1) * (2 * n - 1) * d <= m
    &&& m < (2 * n + 1) * (2 * n + 1) * d
}

/// The integer nearest to half the square root of `m / d`.
pub open spec fn half_root(m: int, d: int) -> int {
    choose|n: int| is_half_root(n, m, d)
}

/// Only one integer is nearest.
pub proof fn lemma_half_root(n: int, m: int, d: int)
    requires
        is_half_root(n, m, d),
        0 < d,
    ensures
        half_root(m, d) == n,
{
    let k = half_root(m, d);
    if k < n {
        lemma_squares_ordered(2 * k + 1, 2 * n - 1, d);
    } else if n < k {
        lemma_squares_ordered(2 * n + 1, 2 * k - 1, d);
    }
}

/// There is a nearest integer, and it is as small as the number allows.
pub proof fn lemma_half_root_within(m: int, d: int, limit: int)
    requires
        0 <= limit,
        0 < d,
        0 <= m < (2 * limit + 1) * (2 * limit + 1) * d,
    ensures
        is_half_root(half_root(m, d), m, d),
        0 <= half_root(m, d) <= limit,
    decreases limit,
{
    if limit == 0 || (2 * limit - 1) * (2 * limit - 1) * d <= m {
        lemma_half_root(limit, m, d);
    } else {
        assert(2 * (limit - 1) + 1 == 2 * limit - 1);
        lemma_half_root_within(m, d, limit - 1);
    }
}

proof fn lemma_squares_ordered(a: int, b: int, d: int)
    requires
        0 <= a <= b,
        0 < d,
    ensures
        a * a * d <= b * b * d,
{
    assert(a * a <= b * b) by (nonlinear_arith)
        requires
            0 <= a <= b,
    ;
    assert(a * a * d <= b * b * d) by (nonlinear_arith)
        requires
            a * a <= b * b,
            0 < d,
    ;
}

/// Finds the integer nearest to half the square root of `m / d` among
/// `0 ..= limit`.
pub fn half_root_of(m: u128, d: u128, limit: u128) -> (n: u128)
    requires
        0 < d,
        m < (2 * limit + 1) * (2 * limit + 1) * d <= u128::MAX,
    ensures
        n == half_root(m as int, d as int),
        is_half_root(n as int, m as int, d as int),
        n <= limit,
{
    assert(2 * limit + 1 <= (2 * limit + 1) * (2 * limit + 1) * d) by (nonlinear_arith)
        requires
            0 <= limit,
            1 <= d,
    ;
    let mut low: u128 = 0;
    let mut high: u128 = limit;
    while low < high
        invariant
            0 < d,
            low <= high <= limit,
            2 * limit + 1 <= u128::MAX,
            (2 * limit + 1) * (2 * limit + 1) * d <= u128::MAX,
            low == 0 || (2 * low - 1) * (2 * low - 1) * d <= m,
            m < (2 * high + 1) * (2 * high + 1) * d,
        decreases high - low,
    {
        let middle: u128 = low + (high - low + 1) / 2;
        proof {
            lemma_squares_ordered(2 * middle - 1, 2 * limit + 1, d as int);
            let odd = 2 * middle - 1;
            assert(odd <= odd * odd <= odd * odd * d) by (nonlinear_arith)
                requires
                    1 <= odd,
                    1 <= d,
            ;
        }
        let odd: u128 = 2 * (middle - 1) + 1;
        if odd * odd * d <= m {
            low = middle;
        } else {
            high = middle - 1;
        }
    }
    proof {
        lemma_half_root(low as int, m as int, d as int);
    }
    low
}

/// The spacing of doubles at the square root of a number, counting `2^-52`: the
/// power of two `u` with `u * u <= square < 4 * u * u`.
pub open spec fn spacing(square: int) -> int
    decreases square,
{
    if square < 4 {
        1
    } else {
        2 * spacing(square / 4)
    }
}

/// The length whose square is given: the double nearest to the square root,
/// counting `2^-52`.
pub open spec fn length(square: int) -> int {
    let u = spacing(square);
    u * half_root(0x400_0000_0000_0000_0000_0000_0000 * square, u * u)
}

/// What bounds the spacing.
proof fn lemma_spacing(square: int) -> (j: nat)
    requires
        1 <= square,
    ensures
        spacing(square) == pow2(j),
        pow2(j) * pow2(j) <= square < 4 * (pow2(j) * pow2(j)),
    decreases square,
{
    lemma2_to64();
    if square < 4 {
        assert(pow2(0) * pow2(0) == 1) by (nonlinear_arith)
            requires
                pow2(0) == 1,
        ;
        0
    } else {
        let k = lemma_spacing(square / 4);
        let p = pow2(k) as int;
        lemma_pow2_unfold(k + 1);
        assert((2 * p) * (2 * p) == 4 * (p * p)) by (nonlinear_arith);
        k + 1
    }
}

/// The root that a length is made of, at its own scale.
proof fn lemma_length_root(square: int, j: nat, m: int)
    requires
        1 <= square,
        j <= 52,
        spacing(square) == pow2(j),
        pow2(j) * pow2(j) <= square < 4 * (pow2(j) * pow2(j)),
        is_half_root(m, 4 * (square * pow2((104 - 2 * j) as nat)), 1),
    ensures
        length(square) == pow2(j) * m,
        0x10_0000_0000_0000 <= m <= 0x20_0000_0000_0000,
{
    let (p, w) = (pow2(j) as int, pow2((104 - 2 * j) as nat) as int);
    lemma_pow2_pos(j);
    lemma_pow2_pos((104 - 2 * j) as nat);
    lemma_pow2_adds(j, j);
    lemma_pow2_adds(2 * j, (104 - 2 * j) as nat);
    lemma2_to64();
    lemma2_to64_rest();
    lemma_pow2_adds(52, 52);
    let unit = 0x100_0000_0000_0000_0000_0000_0000int;
    let pp = p * p;
    assert(pp * w == unit);
    let t = square * w;
    assert(unit <= t < 4 * unit) by (nonlinear_arith)
        requires
            t == square * w,
            pp * w == unit,
            pp <= square < 4 * pp,
            0 < w,
    ;
    assert(0x10_0000_0000_0000 <= m) by (nonlinear_arith)
        requires
            4 * t < (2 * m + 1) * (2 * m + 1) * 1,
            0x100_0000_0000_0000_0000_0000_0000 <= t,
            0 <= m,
    ;
    assert(m <= 0x20_0000_0000_0000) by (nonlinear_arith)
        requires
            m == 0 || (2 * m - 1) * (2 * m - 1) * 1 <= 4 * t,
            t < 0x400_0000_0000_0000_0000_0000_0000,
            0 <= m,
    ;
    let all = 0x400_0000_0000_0000_0000_0000_0000 * square;
    assert(all == (4 * t) * pp) by (nonlinear_arith)
        requires
            t == square * w,
            pp * w == 0x100_0000_0000_0000_0000_0000_0000,
            all == 0x400_0000_0000_0000_0000_0000_0000 * square,
    ;
    let (a, b) = ((2 * m - 1) * (2 * m - 1), (2 * m + 1) * (2 * m + 1));
    assert(0 < pp) by (nonlinear_arith)
        requires
            pp == p * p,
            0 < p,
    ;
    assert(a * pp <= (4 * t) * pp) by (nonlinear_arith)
        requires
            a <= 4 * t,
            0 < pp,
    ;
    assert((4 * t) * pp < b * pp) by (nonlinear_arith)
        requires
            4 * t < b,
            0 < pp,
    ;
    lemma_half_root(m, all, pp);
}

/// The mantissa and the power of two of a length, and how close it is to the
/// root.
pub proof fn lemma_length_parts(square: int) -> (r: (int, nat))
    requires
        1 <= square <= 0x4_0000_0000_0000_0000,
    ensures
        length(square) == pow2(r.1) * r.0,
        0 < length(square),
        0x10_0000_0000_0000 <= r.0 <= 0x20_0000_0000_0000,
        r.1 <= 33,
        ({
            let (h, u) = (length(square), pow2(r.1) as int);
            let all = 0x400_0000_0000_0000_0000_0000_0000 * square;
            (2 * h - u) * (2 * h - u) <= all < (2 * h + u) * (2 * h + u)
        }),
{
    let j = lemma_spacing(square);
    let p = pow2(j) as int;
    if j > 33 {
        lemma2_to64();
        lemma2_to64_rest();
        if j > 34 {
            lemma_pow2_strictly_increases(34, j);
        }
        assert(0x10_0000_0000_0000_0000 <= p * p) by (nonlinear_arith)
            requires
                0x4_0000_0000 <= p,
        ;
    }
    lemma_pow2_adds(j, j);
    lemma_pow2_adds(2 * j, (104 - 2 * j) as nat);
    lemma2_to64();
    lemma2_to64_rest();
    lemma_pow2_adds(52, 52);
    lemma_pow2_pos((104 - 2 * j) as nat);
    lemma_pow2_pos(j);
    let w = pow2((104 - 2 * j) as nat) as int;
    let pp = p * p;
    let t = square * w;
    assert(0 <= t < 0x400_0000_0000_0000_0000_0000_0000) by (nonlinear_arith)
        requires
            t == square * w,
            0 < w,
            0 <= square < 4 * pp,
            pp * w == 0x100_0000_0000_0000_0000_0000_0000,
    ;
    let limit = 0x20_0000_0000_0000int;
    assert(0x1000_0000_0000_0000_0000_0000_0000 <= (2 * limit + 1) * (2 * limit + 1) * 1)
        by (nonlinear_arith)
        requires
            limit == 0x20_0000_0000_0000,
    ;
    lemma_half_root_within(4 * t, 1, limit);
    let m = half_root(4 * t, 1);
    lemma_length_root(square, j, m);
    let all = 0x400_0000_0000_0000_0000_0000_0000 * square;
    assert(all == (4 * t) * pp) by (nonlinear_arith)
        requires
            t == square * w,
            pp * w == 0x100_0000_0000_0000_0000_0000_0000,
            all == 0x400_0000_0000_0000_0000_0000_0000 * square,
    ;
    let h = p * m;
    let (a, b) = ((2 * m - 1) * (2 * m - 1), (2 * m + 1) * (2 * m + 1));
    assert((2 * h - p) * (2 * h - p) == a * pp) by (nonlinear_arith)
        requires
            h == p * m,
            pp == p * p,
            a == (2 * m - 1) * (2 * m - 1),
    ;
    assert((2 * h + p) * (2 * h + p) == b * pp) by (nonlinear_arith)
        requires
            h == p * m,
            pp == p * p,
            b == (2 * m + 1) * (2 * m + 1),
    ;
    assert(0 < pp) by (nonlinear_arith)
        requires
            pp == p * p,
            0 < p,
    ;
    assert(a * pp <= (4 * t) * pp) by (nonlinear_arith)
        requires
            a <= 4 * t,
            0 < pp,
    ;
    assert((4 * t) * pp < b * pp) by (nonlinear_arith)
        requires
            4 * t < b,
            0 < pp,
    ;
    assert(0 < h) by (nonlinear_arith)
        requires
            h == p * m,
            0 < p,
            0 < m,
    ;
    (m, j)
}

/// Finds the double nearest to a square root: its mantissa and its power of two.
pub fn length_of(square: u128) -> (r: (u128, u32))
    requires
        1 <= square <= 0x4_0000_0000_0000_0000,
    ensures
        length(square as int) == pow2(r.1 as nat) * r.0,
        spacing(square as int) == pow2(r.1 as nat),
        0x10_0000_0000_0000 <= r.0 <= 0x20_0000_0000_0000,
        r.1 <= 33,
{
    let mut rest: u128 = square;
    let mut j: u32 = 0;
    let ghost k = lemma_spacing(square as int);
    proof {
        lemma2_to64();
        assert(pow2(0) * spacing(square as int) == spacing(square as int)) by (nonlinear_arith)
            requires
                pow2(0) == 1,
        ;
        assert(square * pow2(0) == square) by (nonlinear_arith)
            requires
                pow2(0) == 1,
        ;
    }
    while rest >= 4
        invariant
            1 <= rest <= square <= 0x4_0000_0000_0000_0000,
            spacing(square as int) == pow2(j as nat) * spacing(rest as int),
            rest * pow2((2 * j) as nat) <= square,
            j <= 33,
        decreases rest,
    {
        proof {
            let p = pow2(j as nat) as int;
            let s = spacing(rest as int / 4);
            lemma_pow2_unfold((j + 1) as nat);
            assert(p * (2 * s) == (2 * p) * s) by (nonlinear_arith);
            let w = pow2((2 * j) as nat) as int;
            lemma_pow2_pos((2 * j) as nat);
            lemma_pow2_unfold((2 * j + 1) as nat);
            lemma_pow2_unfold((2 * j + 2) as nat);
            let q = rest as int / 4;
            assert(q * (4 * w) <= rest * w) by (nonlinear_arith)
                requires
                    4 * q <= rest,
                    0 < w,
            ;
            assert(4 * w <= rest * w) by (nonlinear_arith)
                requires
                    4 <= rest,
                    0 < w,
            ;
            if j == 33 {
                lemma2_to64();
                lemma2_to64_rest();
                lemma_pow2_adds(33, 33);
            }
        }
        rest = rest / 4;
        j = j + 1;
    }
    proof {
        assert(pow2(j as nat) * 1 == pow2(j as nat)) by (nonlinear_arith);
        if k < j {
            lemma_pow2_strictly_increases(k, j as nat);
        } else if j < k {
            lemma_pow2_strictly_increases(j as nat, k);
        }
        assert(k == j);
        let p = pow2(k) as int;
        lemma_pow2_adds(k, k);
        lemma_pow2_adds(2 * k, (104 - 2 * k) as nat);
        lemma2_to64();
        lemma2_to64_rest();
        lemma_pow2_adds(52, 52);
        binary64::lemma_power_bound((104 - 2 * k) as nat);
        let w = pow2((104 - 2 * k) as nat) as int;
        let pp = p * p;
        assert(0 <= square * w < 0x400_0000_0000_0000_0000_0000_0000) by (nonlinear_arith)
            requires
                0 < w,
                0 <= square < 4 * pp,
                pp * w == 0x100_0000_0000_0000_0000_0000_0000,
        ;
        let limit = 0x20_0000_0000_0000int;
        assert(0x1000_0000_0000_0000_0000_0000_0000 <= (2 * limit + 1) * (2 * limit + 1) * 1
            <= 0x2000_0000_0000_0000_0000_0000_0000) by (nonlinear_arith)
            requires
                limit == 0x20_0000_0000_0000,
        ;
    }
    let scaled: u128 = square * binary64::power(104 - 2 * j);
    let m: u128 = half_root_of(4 * scaled, 1, 0x20_0000_0000_0000);
    proof {
        lemma_length_root(square as int, j as nat, m as int);
    }
    (m, j)
}

} // verus!
