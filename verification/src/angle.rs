//! Points on a circle, at the angles that circles and discs are made of.
//!
//! Sines and cosines are doubles, those of the angles that double precision
//! gives for the fractions of a turn. They are kept as integers that count
//! `2^-54`. Where a sine or cosine is zero and that of the double is not quite,
//! it is kept as zero: times a radius it stays below a millionth of a unit, and
//! the nearest whole unit is the same.
use crate::binary64;
use crate::curve;
use vstd::arithmetic::div_mod::*;
use vstd::arithmetic::power2::*;
use vstd::prelude::*;

verus! {

/// One, counting `2^-54`.
pub const WHOLE: i64 = 0x40_0000_0000_0000;

/// The cosines of every twelfth of a turn.
pub const TWELFTH_COSINES: [i64; 12] = [
    18014398509481984,
    15600926743107926,
    9007199254740994,
    0,
    -9007199254740988,
    -15600926743107926,
    -18014398509481984,
    -15600926743107928,
    -9007199254741000,
    0,
    9007199254740994,
    15600926743107920,
];

/// The sines of every twelfth of a turn.
pub const TWELFTH_SINES: [i64; 12] = [
    0,
    9007199254740991,
    15600926743107924,
    18014398509481984,
    15600926743107926,
    9007199254740991,
    0,
    -9007199254740987,
    -15600926743107920,
    -18014398509481984,
    -15600926743107924,
    -9007199254741000,
];

/// The cosines of every eighth of a turn, from the first on.
pub const EIGHTH_COSINES: [i64; 8] = [
    12738103345051546,
    0,
    -12738103345051544,
    -18014398509481984,
    -12738103345051548,
    0,
    12738103345051542,
    18014398509481984,
];

/// The sines of every eighth of a turn, from the first on.
pub const EIGHTH_SINES: [i64; 8] = [
    12738103345051544,
    18014398509481984,
    12738103345051546,
    0,
    -12738103345051544,
    -18014398509481984,
    -12738103345051548,
    0,
];

/// The cosines half-way between one eighth of a turn and the next.
pub const MIDDLE_COSINES: [i64; 8] = [
    16643134073412236,
    6893811853601124,
    -6893811853601122,
    -16643134073412236,
    -16643134073412238,
    -6893811853601133,
    6893811853601127,
    16643134073412232,
];

/// The sines half-way between one eighth of a turn and the next.
pub const MIDDLE_SINES: [i64; 8] = [
    6893811853601123,
    16643134073412236,
    16643134073412236,
    6893811853601125,
    -6893811853601121,
    -16643134073412232,
    -16643134073412234,
    -6893811853601134,
];

/// The cosine of half an eighth of a turn.
pub const SIXTEENTH_COSINE: i64 = 16643134073412236;

/// A radius times a sine or cosine, to the nearest unit.
pub open spec fn turned(r: int, c: int) -> int {
    binary64::nearest_away(binary64::rounded(r * c), WHOLE as int)
}

/// A coordinate a given way from a centre, the way counting `2^-54`: the sum as
/// a double, to the nearest unit.
pub open spec fn placed(center: int, way: int) -> int {
    curve::saturated(
        binary64::nearest_away(binary64::rounded(WHOLE * center + way), WHOLE as int),
    )
}

/// A coordinate of a point on a circle.
pub open spec fn on_circle(center: int, r: int, c: int) -> int {
    placed(center, binary64::rounded(r * c))
}

/// How far from its centre the tangents at both ends of an eighth of a circle
/// meet, counting `2^-52`: the radius divided by the cosine of half an eighth
/// of a turn.
pub open spec fn tangent_radius(r: int) -> int {
    if r < 0 {
        -binary64::rounded_quotient(-r * pow2(106), SIXTEENTH_COSINE as int)
    } else {
        binary64::rounded_quotient(r * pow2(106), SIXTEENTH_COSINE as int)
    }
}

/// A coordinate of a point where two tangents meet.
pub open spec fn on_tangents(center: int, r: int, c: int) -> int {
    placed(center, binary64::rounded_product(tangent_radius(r), c))
}

/// Turned by any angle, a radius reaches no further than before. Along the axes
/// it reaches as far as before, or nowhere.
pub proof fn lemma_turned(r: int, c: int)
    requires
        -0x8000_0000 <= r <= 0x8000_0000,
        -WHOLE <= c <= WHOLE,
    ensures
        0 <= r ==> -r <= turned(r, c) <= r,
        r <= 0 ==> r <= turned(r, c) <= -r,
        turned(r, 0) == 0,
        turned(r, WHOLE as int) == r,
        turned(r, -WHOLE as int) == -r,
        -0x80_0000_0000_0000_0000_0000 <= r * c <= 0x80_0000_0000_0000_0000_0000,
{
    lemma_turned_whole(r);
    assert(r * 0 == 0 && 0 * c == 0);
    if 0 <= r {
        assert(r * (-WHOLE) <= r * c <= r * WHOLE) by (nonlinear_arith)
            requires
                0 <= r,
                -0x40_0000_0000_0000 <= c <= 0x40_0000_0000_0000,
        ;
        lemma_turned_ordered(r * (-WHOLE), r * c);
        lemma_turned_ordered(r * c, r * WHOLE);
    } else {
        assert(r * WHOLE <= r * c <= r * (-WHOLE)) by (nonlinear_arith)
            requires
                r <= 0,
                -0x40_0000_0000_0000 <= c <= 0x40_0000_0000_0000,
        ;
        lemma_turned_ordered(r * WHOLE, r * c);
        lemma_turned_ordered(r * c, r * (-WHOLE));
    }
}

/// No sine or cosine is beyond one.
pub proof fn lemma_twelfths(i: int)
    requires
        0 <= i < 12,
    ensures
        -WHOLE <= TWELFTH_COSINES@[i] <= WHOLE,
        -WHOLE <= TWELFTH_SINES@[i] <= WHOLE,
{
}

/// No sine or cosine of a circle is beyond one, and none where its tangents
/// meet is noticeably beyond that of half an eighth of a turn.
pub proof fn lemma_eighths(i: int)
    requires
        0 <= i < 8,
    ensures
        -WHOLE <= EIGHTH_COSINES@[i] <= WHOLE,
        -WHOLE <= EIGHTH_SINES@[i] <= WHOLE,
        -SIXTEENTH_COSINE - 2 <= MIDDLE_COSINES@[i] <= SIXTEENTH_COSINE + 2,
        -SIXTEENTH_COSINE - 2 <= MIDDLE_SINES@[i] <= SIXTEENTH_COSINE + 2,
{
}

/// A whole number is a double already.
proof fn lemma_turned_whole(r: int)
    requires
        -0x8000_0000 <= r <= 0x8000_0000,
    ensures
        turned(r, WHOLE as int) == r,
        turned(r, -WHOLE as int) == -r,
        turned(r, 0) == 0,
{
    binary64::lemma_rounded_near(r * WHOLE);
    binary64::lemma_rounded_near(r * (-WHOLE));
    binary64::lemma_rounded_near(r * 0);
    assert(r * 0 == 0);
    assert(r * (-WHOLE) == -(r * WHOLE)) by (nonlinear_arith);
    binary64::lemma_nearest_away_near(binary64::rounded(r * WHOLE), WHOLE as int);
    binary64::lemma_nearest_away_near(binary64::rounded(r * (-WHOLE)), WHOLE as int);
}

/// Rounding keeps the order.
pub proof fn lemma_turned_ordered(m: int, n: int)
    requires
        m <= n,
    ensures
        binary64::nearest_away(binary64::rounded(m), WHOLE as int) <= binary64::nearest_away(
            binary64::rounded(n),
            WHOLE as int,
        ),
{
    binary64::lemma_rounded_ordered(m, n);
    binary64::lemma_nearest_away_ordered(
        binary64::rounded(m),
        binary64::rounded(n),
        WHOLE as int,
    );
}

/// Computes a radius times a sine or cosine.
pub fn turn(r: i32, c: i64) -> (n: i64)
    requires
        -WHOLE <= c <= WHOLE,
    ensures
        n == turned(r as int, c as int),
        0 <= r ==> -r <= n <= r,
        r <= 0 ==> r <= n <= -r,
{
    proof {
        lemma_turned(r as int, c as int);
        binary64::lemma_rounded_near(r * c);
    }
    let product: i128 = r as i128 * c as i128;
    binary64::nearest_away_of(binary64::round_to_double(product), WHOLE as i128) as i64
}

/// Computes a coordinate a given way from a centre.
fn place(center: i32, way: i128) -> (n: i32)
    requires
        -0x4000_0000_0000_0000_0000_0000 <= way <= 0x4000_0000_0000_0000_0000_0000,
    ensures
        n == placed(center as int, way as int),
{
    let sum: i128 = WHOLE as i128 * center as i128 + way;
    proof {
        binary64::lemma_rounded_near(sum as int);
    }
    curve::saturate(
        binary64::nearest_away_of(binary64::round_to_double(sum), WHOLE as i128),
    )
}

/// Computes a coordinate of a point on a circle.
pub fn circle_point(center: i32, r: i32, c: i64) -> (n: i32)
    requires
        -WHOLE <= c <= WHOLE,
    ensures
        n == on_circle(center as int, r as int, c as int),
{
    proof {
        lemma_turned(r as int, c as int);
        binary64::lemma_rounded_near(r * c);
    }
    let product: i128 = r as i128 * c as i128;
    place(center, binary64::round_to_double(product))
}

/// The radius at which tangents meet, as a mantissa and a power of two.
pub struct TangentRadius {
    negative: bool,
    mantissa: u128,
    power: u32,
}

impl View for TangentRadius {
    type V = int;

    closed spec fn view(&self) -> int {
        let size = pow2(self.power as nat) * self.mantissa;
        if self.negative {
            -size
        } else {
            size as int
        }
    }
}

impl TangentRadius {
    #[verifier::type_invariant]
    spec fn in_range(self) -> bool {
        &&& self.mantissa == 0 || 0x10_0000_0000_0000 <= self.mantissa <= 0x20_0000_0000_0000
        &&& self.power <= 37
    }

    /// Divides a radius by the cosine of half an eighth of a turn.
    pub fn new(r: i32) -> (radius: Self)
        ensures
            radius@ == tangent_radius(r as int),
    {
        if r == 0 {
            proof {
                assert(0 * pow2(106) == 0);
                assert(pow2(0) * 0 == 0);
                assert(0int / (SIXTEENTH_COSINE as int) == 0);
            }
            return TangentRadius { negative: false, mantissa: 0, power: 0 };
        }
        let a: u128 = if r < 0 {
            (-(r as i64)) as u128
        } else {
            r as u128
        };
        let (mantissa, t) = binary64::divide_to_mantissa(a, SIXTEENTH_COSINE as u128);
        proof {
            let k = (106 - t) as nat;
            let n = a * pow2(t as nat);
            let d = SIXTEENTH_COSINE as int;
            binary64::lemma_quotient_scaled(n, d, 1, k);
            lemma_pow2_adds(k, t as nat);
            let (p, q) = (pow2(k) as int, pow2(t as nat) as int);
            assert(p * (1 * (a * q)) == a * (p * q)) by (nonlinear_arith);
            assert(1 * d == d);
        }
        TangentRadius { negative: r < 0, mantissa, power: 106 - t }
    }

    /// Computes a coordinate of a point where two tangents meet.
    pub fn point(&self, center: i32, c: i64) -> (n: i32)
        requires
            0x10_0000_0000_0000 <= c <= WHOLE || -WHOLE <= c <= -0x10_0000_0000_0000,
        ensures
            n == placed(center as int, binary64::rounded_product(self@, c as int)),
    {
        proof {
            use_type_invariant(self);
        }
        let size: u128 = if c < 0 {
            (-c) as u128
        } else {
            c as u128
        };
        proof {
            let (m, s) = (self.mantissa as int, size as int);
            assert(0 <= m * s <= 0x800_0000_0000_0000_0000_0000_0000) by (nonlinear_arith)
                requires
                    0 <= m <= 0x20_0000_0000_0000,
                    0 <= s <= 0x40_0000_0000_0000,
            ;
        }
        let product: u128 = binary64::round_product(self.mantissa, size);
        let scale: u128 = binary64::power(self.power);
        proof {
            lemma_tangent_product(self.mantissa as int, size as int, self.power as nat);
            let (m, s, p) = (self.mantissa as int, size as int, pow2(self.power as nat) as int);
            lemma2_to64();
            lemma2_to64_rest();
            if self.power < 37 {
                lemma_pow2_strictly_increases(self.power as nat, 37);
            }
            assert(0 <= p * product <= 0x20_0000_0000 * product) by (nonlinear_arith)
                requires
                    0 <= p <= 0x20_0000_0000,
                    0 <= product,
            ;
            let all = (p * m) * s;
            assert((-(p * m)) * s == -all && (p * m) * (-s) == -all && (-(p * m)) * (-s) == all)
                by (nonlinear_arith)
                requires
                    all == (p * m) * s,
            ;
            binary64::lemma_rounded_near(all);
            let whole = binary64::rounded(all);
            lemma_exact_negation(whole);
        }
        let way: i128 = (scale * product) as i128;
        if self.negative == (c < 0) {
            place(center, way)
        } else {
            place(center, -way)
        }
    }
}

/// Without a rest, a quotient changes its sign with the dividend.
proof fn lemma_exact_negation(n: int)
    requires
        n % 0x10_0000_0000_0000 == 0,
    ensures
        (-n) / 0x10_0000_0000_0000 == -(n / 0x10_0000_0000_0000),
{
}

/// A product of mantissas is known at every scale.
proof fn lemma_tangent_product(m: int, c: int, k: nat)
    requires
        m == 0 || 0x10_0000_0000_0000 <= m <= 0x20_0000_0000_0000,
        0x10_0000_0000_0000 <= c <= 0x40_0000_0000_0000,
    ensures
        binary64::rounded((pow2(k) * m) * c) == 0x10_0000_0000_0000 * (pow2(k)
            * binary64::rounded_product(m, c)),
        binary64::rounded((pow2(k) * m) * c) % 0x10_0000_0000_0000 == 0,
{
    let p = pow2(k) as int;
    let n = m * c;
    let r = binary64::rounded(n);
    assert((p * m) * c == p * n) by (nonlinear_arith)
        requires
            n == m * c,
    ;
    binary64::lemma_rounded_scaled(n, k);
    if m == 0 {
        assert(n == 0);
        binary64::lemma_rounded_near(0);
        assert(r == 0);
        assert(p * 0 == 0);
    } else {
        assert(0x100_0000_0000_0000_0000_0000_0000 <= n) by (nonlinear_arith)
            requires
                n == m * c,
                0x10_0000_0000_0000 <= m,
                0x10_0000_0000_0000 <= c,
        ;
        binary64::lemma_rounded_has_no_low_bits(n);
        let q = r / 0x10_0000_0000_0000;
        assert(r == 0x10_0000_0000_0000 * q);
        assert(p * (0x10_0000_0000_0000 * q) == 0x10_0000_0000_0000 * (p * q))
            by (nonlinear_arith);
    }
}

} // verus!
