//! Division of two counts in binary64, in integer arithmetic.
//!
//! A count becomes a binary64 number by rounding it to 53 significant
//! bits, and the quotient of two such numbers is rounded to 53 significant
//! bits again; both roundings go to the nearest candidate and, halfway
//! between two, to the one whose last bit is zero. The counts are below
//! 2^64, so a quotient that is not zero lies between 2^-64 and 2^64: it is a
//! normal number, and neither overflow nor gradual underflow arises.

use vstd::arithmetic::div_mod::{lemma_div_denominator, lemma_fundamental_div_mod};
use vstd::arithmetic::power2::{
    lemma2_to64, lemma2_to64_rest, lemma_pow2_pos, lemma_pow2_strictly_increases,
    lemma_pow2_unfold, pow2,
};
use vstd::prelude::*;

verus! {

/// 2^52: the least significand of a normal number.
pub const TWO52: u64 = 0x10_0000_0000_0000;

/// 2^53: the bound of the significands.
pub const TWO53: u64 = 0x20_0000_0000_0000;

/// The bit pattern of the number 1.
pub const ONE_BITS: u64 = 0x3ff0_0000_0000_0000;

/// The bit pattern of the quotient of zero by zero, which is no number.
pub const UNDEFINED_BITS: u64 = 0x7ff8_0000_0000_0000;

/// The bit pattern of positive infinity; every larger magnitude is a NaN.
pub const INFINITY_BITS: u64 = 0x7ff0_0000_0000_0000;

/// The distance between neighbouring binary64 numbers around `x`, where it
/// is more than 1: the power of two that leaves `x` 53 significant bits.
pub open spec fn spacing(x: nat) -> nat
    decreases x,
{
    if x < TWO53 {
        1
    } else {
        2 * spacing(x / 2)
    }
}

/// Whether a quotient with the given remainder is rounded up: the
/// remainder is more than half the divisor, or exactly half of it while
/// the quotient is odd.
pub open spec fn rounds_up(quotient: nat, remainder: nat, divisor: nat) -> bool {
    2 * remainder > divisor || (2 * remainder == divisor && quotient % 2 == 1)
}

/// `x / unit`, rounded to the nearest integer, halves to the even one.
pub open spec fn rounded_quotient(x: nat, unit: nat) -> nat {
    if rounds_up(x / unit, x % unit, unit) {
        x / unit + 1
    } else {
        x / unit
    }
}

/// The value of the binary64 number that the count `x` becomes.
pub open spec fn as_binary64(x: nat) -> nat {
    rounded_quotient(x, spacing(x)) * spacing(x)
}

/// The significand `m` and the exponent `e` of a positive integer that has
/// no more than 53 significant bits: `v` is `m * 2^e`, with `m` from 2^52
/// up to, but not including, 2^53.
pub open spec fn normal(v: nat) -> (nat, int)
    decreases
            (if v >= TWO53 {
                v as int
            } else if 0 < v < TWO52 {
                TWO52 - v
            } else {
                0
            }),
{
    if v >= TWO53 {
        (normal(v / 2).0, normal(v / 2).1 + 1)
    } else if 0 < v < TWO52 {
        (normal(2 * v).0, normal(2 * v).1 - 1)
    } else {
        (v, 0)
    }
}

/// The significand and the exponent of the quotient of two normal numbers,
/// given by theirs, `ma * 2^ea` over `mb * 2^eb`. The quotient of the
/// significands lies between a half and two; it is scaled into the range
/// of the significands and rounded there.
pub open spec fn normal_quotient(ma: nat, ea: int, mb: nat, eb: int) -> (nat, int) {
    let shift: nat = if ma >= mb {
        TWO52 as nat
    } else {
        TWO53 as nat
    };
    let e = if ma >= mb {
        ea - eb - 52
    } else {
        ea - eb - 53
    };
    (rounded_quotient(ma * shift, mb), e)
}

/// The bit pattern of the normal number `m * 2^e`, for `m` from 2^52 up to
/// 2^53. The exponent field holds `e + 1075`, the fraction field `m - 2^52`;
/// a significand of 2^53 carries into the exponent.
pub open spec fn pattern(m: nat, e: int) -> int {
    (e + 1075) * TWO52 + (m - TWO52)
}

/// The bit pattern of `n / d`, computed as binary64 arithmetic computes it
/// from two counts.
pub open spec fn quotient_bits(n: u64, d: u64) -> u64 {
    if d == 0 {
        if n == 0 {
            UNDEFINED_BITS
        } else {
            INFINITY_BITS
        }
    } else if n == 0 {
        0
    } else {
        let a = normal(as_binary64(n as nat));
        let b = normal(as_binary64(d as nat));
        let q = normal_quotient(a.0, a.1, b.0, b.1);
        pattern(q.0, q.1) as u64
    }
}

/// The binary64 number that a count becomes, as its value: at most 2^64.
fn to_binary64(x: u64) -> (v: u128)
    requires
        x > 0,
    ensures
        v == as_binary64(x as nat),
        0 < v <= 0x1_0000_0000_0000_0000,
{
    let mut y: u64 = x;
    let mut unit: u64 = 1;
    let mut cap: u128 = 0x1_0000_0000_0000_0000;
    let ghost mut j: nat = 0;
    proof {
        lemma2_to64();
        lemma2_to64_rest();
    }
    for k in 0..11u32
        invariant
            spacing(x as nat) == unit * spacing(y as nat),
            unit == pow2(j),
            1 <= unit,
            j <= k,
            1 <= y,
            y == x / unit,
            y < cap || y < TWO53,
            cap == pow2((64 - k) as nat),
            pow2(11) == 0x800,
    {
        proof {
            lemma_pow2_unfold((64 - k) as nat);
            lemma_pow2_unfold(j + 1);
            lemma_pow2_strictly_increases(j, 11);
        }
        if y >= TWO53 {
            proof {
                let s = spacing((y / 2) as nat);
                assert(unit * (2 * s) == (2 * unit) * s) by (nonlinear_arith);
                lemma_div_denominator(x as int, unit as int, 2);
                j = j + 1;
            }
            y = y / 2;
            unit = unit * 2;
        }
        cap = cap / 2;
    }
    proof {
        if j < 11 {
            lemma_pow2_strictly_increases(j, 11);
        }
        assert(spacing(x as nat) == unit) by (nonlinear_arith)
            requires
                spacing(x as nat) == unit * spacing(y as nat),
                spacing(y as nat) == 1,
        ;
    }
    let r: u64 = x % unit;
    let up: bool = 2 * r > unit || (2 * r == unit && y % 2 == 1);
    let rounded: u128 = if up {
        y as u128 + 1
    } else {
        y as u128
    };
    assert(0 < rounded * unit <= 0x1_0000_0000_0000_0000) by (nonlinear_arith)
        requires
            1 <= rounded <= TWO53,
            1 <= unit <= 0x800,
    ;
    rounded * (unit as u128)
}

/// The significand and the exponent of a positive integer of no more
/// than 65 bits.
fn normalise(v: u128) -> (parts: (u64, i64))
    requires
        0 < v <= 0x1_0000_0000_0000_0000,
    ensures
        parts.0 == normal(v as nat).0,
        parts.1 == normal(v as nat).1,
        TWO52 <= parts.0 < TWO53,
        -52 <= parts.1 <= 12,
{
    let mut m: u128 = v;
    let mut e: i64 = 0;
    let mut cap: u128 = 0x1_0000_0000_0000_0000;
    proof {
        lemma2_to64();
        lemma2_to64_rest();
    }
    for k in 0..12u32
        invariant
            normal(v as nat).0 == normal(m as nat).0,
            normal(v as nat).1 == normal(m as nat).1 + e,
            0 <= e <= k,
            0 < m,
            m <= cap || m < TWO53,
            cap == pow2((64 - k) as nat),
            e > 0 ==> m >= TWO52,
    {
        proof {
            lemma_pow2_unfold((64 - k) as nat);
        }
        if m >= TWO53 as u128 {
            m = m / 2;
            e = e + 1;
        }
        cap = cap / 2;
    }
    let mut low: u64 = 1;
    for k in 0..52u32
        invariant
            normal(v as nat).0 == normal(m as nat).0,
            normal(v as nat).1 == normal(m as nat).1 + e,
            -(k as int) <= e <= 12,
            0 < m < TWO53,
            m >= low || m >= TWO52,
            low == pow2(k as nat),
            pow2(52) == TWO52,
    {
        proof {
            lemma_pow2_unfold((k + 1) as nat);
            lemma_pow2_strictly_increases(k as nat, 52);
        }
        if m < TWO52 as u128 {
            m = m * 2;
            e = e - 1;
        }
        low = low * 2;
    }
    (m as u64, e)
}

/// The bit pattern of the quotient of the counts `n` and `d`, as binary64
/// arithmetic computes it: each count is rounded to a binary64 number, and
/// so is the quotient of the two. Zero by zero gives the pattern of a NaN,
/// another count by zero that of infinity.
pub fn divide(n: u64, d: u64) -> (bits: u64)
    ensures
        bits == quotient_bits(n, d),
{
    if d == 0 {
        return if n == 0 {
            UNDEFINED_BITS
        } else {
            INFINITY_BITS
        };
    }
    if n == 0 {
        return 0;
    }
    let (ma, ea) = normalise(to_binary64(n));
    let (mb, eb) = normalise(to_binary64(d));
    let shift: u128 = if ma >= mb {
        TWO52 as u128
    } else {
        TWO53 as u128
    };
    let e: i64 = if ma >= mb {
        ea - eb - 52
    } else {
        ea - eb - 53
    };
    assert(ma * shift < 0x400_0000_0000_0000_0000_0000_0000) by (nonlinear_arith)
        requires
            ma < TWO53,
            0 < shift <= TWO53,
    ;
    let scaled: u128 = (ma as u128) * shift;
    let q: u128 = scaled / (mb as u128);
    let r: u128 = scaled % (mb as u128);
    proof {
        assert(TWO52 <= q < TWO53) by (nonlinear_arith)
            requires
                q == (ma * shift) / (mb as int),
                TWO52 <= ma < TWO53,
                TWO52 <= mb < TWO53,
                ma >= mb ==> shift == TWO52,
                ma < mb ==> shift == TWO53,
        ;
    }
    let up: bool = 2 * r > mb as u128 || (2 * r == mb as u128 && q % 2 == 1);
    let m: u64 = if up {
        (q + 1) as u64
    } else {
        q as u64
    };
    ((e + 1075) as u64) * TWO52 + (m - TWO52)
}

/// Rounding goes to the nearest integer: the rounded quotient, times the
/// unit, is no further from `x` than half a unit, and where it is exactly
/// that far, the rounded quotient is even.
pub proof fn lemma_rounded_quotient_is_nearest(x: nat, unit: nat)
    requires
        unit > 0,
    ensures
        2 * (x - rounded_quotient(x, unit) * unit) <= unit,
        2 * (rounded_quotient(x, unit) * unit - x) <= unit,
        2 * (x - rounded_quotient(x, unit) * unit) == unit || 2 * (rounded_quotient(x, unit) * unit
            - x) == unit ==> rounded_quotient(x, unit) % 2 == 0,
{
    let q = x / unit;
    let r = x % unit;
    lemma_fundamental_div_mod(x as int, unit as int);
    assert(x == unit * q + r);
    assert(0 <= r < unit);
    assert((q + 1) * unit == unit * q + unit) by (nonlinear_arith);
    assert(q * unit == unit * q) by (nonlinear_arith);
}

/// The significand and exponent that [`normal`] gives stand for the
/// number: the significand lies from 2^52 up to 2^53; where the exponent
/// is negative or zero, the number times 2 to its negation is the
/// significand; where it is positive, the number lies from the significand
/// times 2 to the exponent up to the next significand times the same.
pub proof fn lemma_normal_decomposes(v: nat)
    requires
        v > 0,
    ensures
        TWO52 <= normal(v).0 < TWO53,
        normal(v).1 <= 0 ==> normal(v).0 == v * pow2((-normal(v).1) as nat),
        normal(v).1 >= 0 ==> normal(v).0 * pow2(normal(v).1 as nat) <= v < (normal(v).0 + 1) * pow2(
            normal(v).1 as nat,
        ),
    decreases
            (if v >= TWO53 {
                v as int
            } else if 0 < v < TWO52 {
                TWO52 - v
            } else {
                0
            }),
{
    lemma2_to64();
    if v >= TWO53 {
        let half = v / 2;
        lemma_normal_decomposes(half);
        let m = normal(half).0;
        let e = normal(half).1;
        assert(normal(v).0 == m && normal(v).1 == e + 1);
        assert(e >= 0) by {
            if e < 0 {
                lemma_pow2_pos((-e) as nat);
                assert(half * pow2((-e) as nat) >= half) by (nonlinear_arith)
                    requires
                        pow2((-e) as nat) >= 1,
                ;
            }
        }
        lemma_pow2_unfold((e + 1) as nat);
        let p = pow2(e as nat);
        assert(pow2((e + 1) as nat) == 2 * p);
        assert(m * (2 * p) <= v < (m + 1) * (2 * p)) by (nonlinear_arith)
            requires
                m * p <= half < (m + 1) * p,
                half == v / 2,
        ;
    } else if v < TWO52 {
        lemma_normal_decomposes(2 * v);
        let m = normal(2 * v).0;
        let e = normal(2 * v).1;
        assert(normal(v).0 == m && normal(v).1 == e - 1);
        assert(e <= 0) by {
            if e > 0 {
                lemma_pow2_unfold(e as nat);
                lemma_pow2_pos((e - 1) as nat);
                assert(m * pow2(e as nat) >= 2 * m) by (nonlinear_arith)
                    requires
                        pow2(e as nat) >= 2,
                        m >= 0,
                ;
            }
        }
        lemma_pow2_unfold((1 - e) as nat);
        let p = pow2((-e) as nat);
        assert(pow2((1 - e) as nat) == 2 * p);
        assert(m == v * (2 * p)) by (nonlinear_arith)
            requires
                m == (2 * v) * p,
        ;
    } else {
        assert(normal(v).0 == v && normal(v).1 == 0);
        assert(v * pow2(0) == v) by (nonlinear_arith)
            requires
                pow2(0) == 1,
        ;
        assert((v + 1) * pow2(0) == v + 1) by (nonlinear_arith)
            requires
                pow2(0) == 1,
        ;
    }
}

/// A count below 2^53 is a binary64 number as it stands.
pub proof fn lemma_small_counts_are_exact(x: nat)
    requires
        x < TWO53,
    ensures
        as_binary64(x) == x,
{
    assert(x / 1 == x && x % 1 == 0);
    assert(x * 1 == x) by (nonlinear_arith);
}

/// A number that some power of two scales into the range of the
/// significands has the scaled number as its significand, and the negated
/// power as its exponent.
pub proof fn lemma_normal_of_scaled(v: nat, k: nat)
    requires
        TWO52 <= v * pow2(k) < TWO53,
    ensures
        normal(v) == ((v * pow2(k)) as nat, -(k as int)),
    decreases k,
{
    lemma2_to64();
    if k == 0 {
        assert(v * pow2(0) == v) by (nonlinear_arith)
            requires
                pow2(0) == 1,
        ;
    } else {
        lemma_pow2_unfold(k);
        let p = pow2((k - 1) as nat);
        lemma_pow2_pos((k - 1) as nat);
        assert(v * (2 * p) == (2 * v) * p) by (nonlinear_arith);
        assert(0 < v < TWO52) by (nonlinear_arith)
            requires
                TWO52 <= v * (2 * p) < TWO53,
                p >= 1,
        ;
        lemma_normal_of_scaled(2 * v, (k - 1) as nat);
    }
}

/// A count divided by itself is 1.
pub proof fn lemma_quotient_of_equal_counts(n: u64)
    requires
        n > 0,
    ensures
        quotient_bits(n, n) == ONE_BITS,
{
    let v = as_binary64(n as nat);
    lemma_as_binary64_bounded(n as nat);
    lemma_normal_decomposes(v);
    let m = normal(v).0;
    let shift: nat = TWO52 as nat;
    lemma_fundamental_div_mod((m * shift) as int, m as int);
    let floor = (m * shift) / m;
    assert(floor == shift && (m * shift) % m == 0) by (nonlinear_arith)
        requires
            m * shift == m * floor + (m * shift) % m,
            0 <= (m * shift) % m < m,
    ;
}

/// The spacing is 1 below 2^53; from there on the number lies from 2^52
/// to 2^53 spacings.
proof fn lemma_spacing_brackets(x: nat)
    ensures
        spacing(x) >= 1,
        x < TWO53 ==> spacing(x) == 1,
        x >= TWO53 ==> spacing(x) * TWO52 <= x < spacing(x) * TWO53,
    decreases x,
{
    if x >= TWO53 {
        lemma_spacing_brackets(x / 2);
        let s = spacing(x / 2);
        assert(spacing(x) == 2 * s);
        if x / 2 < TWO53 {
            assert(s == 1);
        } else {
            assert((2 * s) * TWO52 <= x < (2 * s) * TWO53) by (nonlinear_arith)
                requires
                    s * TWO52 <= x / 2 < s * TWO53,
            ;
        }
    }
}

/// The spacing does not shrink as the number grows, and where it grows it
/// at least doubles.
proof fn lemma_spacing_steps(x: nat, y: nat)
    requires
        x <= y,
    ensures
        spacing(x) == spacing(y) || 2 * spacing(x) <= spacing(y),
    decreases y,
{
    if y >= TWO53 {
        if x >= TWO53 {
            lemma_spacing_steps(x / 2, y / 2);
        } else {
            lemma_spacing_brackets(y / 2);
        }
    }
}

/// Rounding to a multiple of one unit keeps the order.
proof fn lemma_rounded_quotient_monotone(x: nat, y: nat, unit: nat)
    requires
        x <= y,
        unit > 0,
    ensures
        rounded_quotient(x, unit) <= rounded_quotient(y, unit),
{
    lemma_fundamental_div_mod(x as int, unit as int);
    lemma_fundamental_div_mod(y as int, unit as int);
    let qx = x / unit;
    let qy = y / unit;
    assert(qx <= qy) by (nonlinear_arith)
        requires
            x == unit * qx + x % unit,
            y == unit * qy + y % unit,
            0 <= x % unit < unit,
            0 <= y % unit < unit,
            x <= y,
            unit > 0,
    ;
    if qx == qy {
        assert(x % unit <= y % unit);
    }
}

/// A larger count becomes no smaller a binary64 number.
pub proof fn lemma_as_binary64_monotone(x: nat, y: nat)
    requires
        x <= y,
    ensures
        as_binary64(x) <= as_binary64(y),
{
    lemma_spacing_brackets(x);
    lemma_spacing_brackets(y);
    lemma_spacing_steps(x, y);
    let u = spacing(x);
    let w = spacing(y);
    if u == w {
        lemma_rounded_quotient_monotone(x, y, u);
        assert(rounded_quotient(x, u) * u <= rounded_quotient(y, u) * u) by (nonlinear_arith)
            requires
                rounded_quotient(x, u) <= rounded_quotient(y, u),
                u >= 1,
        ;
    } else {
        lemma_fundamental_div_mod(x as int, u as int);
        lemma_fundamental_div_mod(y as int, w as int);
        let qx = x / u;
        let qy = y / w;
        assert(qx < TWO53) by (nonlinear_arith)
            requires
                x == u * qx + x % u,
                0 <= x % u,
                x < u * TWO53,
                u >= 1,
        ;
        assert(qy >= TWO52) by (nonlinear_arith)
            requires
                y == w * qy + y % w,
                y % w < w,
                w * TWO52 <= y,
                w >= 1,
        ;
        assert(rounded_quotient(x, u) * u <= rounded_quotient(y, w) * w) by (nonlinear_arith)
            requires
                rounded_quotient(x, u) <= TWO53,
                rounded_quotient(y, w) >= TWO52,
                2 * u <= w,
                u >= 1,
        ;
    }
}

/// The sign of the exponent says on which side of the significands the
/// number lies.
proof fn lemma_exponent_sign(v: nat)
    requires
        v > 0,
    ensures
        v >= TWO53 ==> normal(v).1 >= 1,
        TWO52 <= v < TWO53 ==> normal(v) == (v, 0int),
        v < TWO52 ==> normal(v).1 <= -1,
    decreases
            (if v >= TWO53 {
                v as int
            } else if 0 < v < TWO52 {
                TWO52 - v
            } else {
                0
            }),
{
    if v >= TWO53 {
        lemma_exponent_sign(v / 2);
    } else if v < TWO52 {
        lemma_exponent_sign(2 * v);
    }
}

/// Significand and exponent keep the order of the numbers: of two
/// numbers the larger has the larger exponent, or the same exponent and a
/// significand that is no smaller.
proof fn lemma_normal_ordered(a: nat, b: nat)
    requires
        0 < a <= b,
    ensures
        normal(a).1 < normal(b).1 || (normal(a).1 == normal(b).1 && normal(a).0 <= normal(b).0),
    decreases
            (if b >= TWO53 {
                b as int
            } else if 0 < b < TWO52 {
                TWO52 - b
            } else {
                0
            }),
{
    lemma_exponent_sign(a);
    lemma_exponent_sign(b);
    if b >= TWO53 {
        if a >= TWO53 {
            lemma_normal_ordered(a / 2, b / 2);
        }
    } else if b < TWO52 {
        lemma_normal_ordered(2 * a, 2 * b);
    }
}

/// The exponent of a positive number below 2^65 lies from -52 to 12.
proof fn lemma_exponent_range(v: nat)
    requires
        0 < v < 0x2_0000_0000_0000_0000,
    ensures
        -52 <= normal(v).1 <= 12,
{
    lemma_normal_decomposes(v);
    lemma2_to64();
    lemma2_to64_rest();
    let m = normal(v).0;
    let e = normal(v).1;
    if e > 12 {
        if e > 13 {
            lemma_pow2_strictly_increases(13, e as nat);
        }
        assert(m * pow2(e as nat) >= 0x2_0000_0000_0000_0000) by (nonlinear_arith)
            requires
                m >= TWO52,
                pow2(e as nat) >= 0x2000,
        ;
    }
    if e < -52 {
        if -e > 53 {
            lemma_pow2_strictly_increases(53, (-e) as nat);
        }
        assert(v * pow2((-e) as nat) >= TWO53) by (nonlinear_arith)
            requires
                v >= 1,
                pow2((-e) as nat) >= TWO53,
        ;
    }
}

/// The binary64 number that a count below 2^64 becomes is below 2^65.
proof fn lemma_as_binary64_bounded(x: nat)
    requires
        0 < x < 0x1_0000_0000_0000_0000,
    ensures
        0 < as_binary64(x) < 0x2_0000_0000_0000_0000,
{
    lemma_spacing_brackets(x);
    let u = spacing(x);
    lemma_fundamental_div_mod(x as int, u as int);
    let q = x / u;
    assert(q >= 1 && (q + 1) * u < 0x2_0000_0000_0000_0000) by (nonlinear_arith)
        requires
            x == u * q + x % u,
            0 <= x % u < u,
            u >= 1,
            0 < x < 0x1_0000_0000_0000_0000,
            x < TWO53 ==> u == 1,
            x >= TWO53 ==> u * TWO52 <= x,
    ;
    assert(0 < rounded_quotient(x, u) * u < 0x2_0000_0000_0000_0000) by (nonlinear_arith)
        requires
            q <= rounded_quotient(x, u) <= q + 1,
            q >= 1,
            u >= 1,
            (q + 1) * u < 0x2_0000_0000_0000_0000,
    ;
}

/// The quotient of a count by one that is no smaller is a number from 0
/// to 1: its bit pattern is at most that of 1.
pub proof fn lemma_fraction_is_at_most_one(n: u64, d: u64)
    requires
        0 < d,
        n <= d,
    ensures
        quotient_bits(n, d) <= ONE_BITS,
{
    if n > 0 {
        let va = as_binary64(n as nat);
        let vb = as_binary64(d as nat);
        lemma_as_binary64_monotone(n as nat, d as nat);
        lemma_as_binary64_bounded(n as nat);
        lemma_as_binary64_bounded(d as nat);
        lemma_normal_ordered(va, vb);
        lemma_normal_decomposes(va);
        lemma_normal_decomposes(vb);
        lemma_exponent_range(va);
        lemma_exponent_range(vb);
        let ma = normal(va).0;
        let ea = normal(va).1;
        let mb = normal(vb).0;
        let eb = normal(vb).1;
        let q = normal_quotient(ma, ea, mb, eb);
        let shift: nat = if ma >= mb {
            TWO52 as nat
        } else {
            TWO53 as nat
        };
        lemma_fundamental_div_mod((ma * shift) as int, mb as int);
        let floor = (ma * shift) / mb;
        assert(floor < TWO53) by (nonlinear_arith)
            requires
                ma * shift == mb * floor + (ma * shift) % mb,
                0 <= (ma * shift) % mb,
                TWO52 <= ma < TWO53,
                TWO52 <= mb < TWO53,
                ma >= mb ==> shift == TWO52,
                ma < mb ==> shift == TWO53,
        ;
        assert(floor >= TWO52) by (nonlinear_arith)
            requires
                ma * shift == mb * floor + (ma * shift) % mb,
                (ma * shift) % mb < mb,
                TWO52 <= ma < TWO53,
                TWO52 <= mb < TWO53,
                ma >= mb ==> shift == TWO52,
                ma < mb ==> shift == TWO53,
        ;
        if ea == eb && ma >= mb {
            assert(ma == mb);
            assert(floor == TWO52 && (ma * shift) % mb == 0) by (nonlinear_arith)
                requires
                    ma * shift == mb * floor + (ma * shift) % mb,
                    0 <= (ma * shift) % mb < mb,
                    ma == mb,
                    shift == TWO52,
                    mb > 0,
            ;
            assert(q.0 == TWO52 && q.1 == -52);
        } else {
            assert(q.1 <= -53);
            assert(q.0 <= TWO53);
        }
        assert(q.1 >= -117);
        assert(0 <= pattern(q.0, q.1) <= ONE_BITS);
    }
}

} // verus!
