//! JSON numbers read as token counts and as instants.
//!
//! A double is handled by its IEEE 754 bits: a finite double is
//! `significand * 2^scale`, so truncation, comparison with a whole number and
//! multiplication by a whole number are integer arithmetic.

use vstd::arithmetic::div_mod::*;
use vstd::arithmetic::mul::*;
use vstd::arithmetic::power2::*;
use vstd::prelude::*;

verus! {

/// A JSON number: a non-negative integer, a negative integer, or a double
/// given by its IEEE 754 bits.
#[derive(Clone, Copy, Debug, PartialEq, Eq, Structural)]
pub enum Number {
    PosInt(u64),
    NegInt(i64),
    Float(u64),
}

/// Whether the sign bit of a double is set.
pub open spec fn double_negative(bits: u64) -> bool {
    bits >= 0x8000_0000_0000_0000
}

/// The biased exponent of a double.
pub open spec fn double_exponent(bits: u64) -> int {
    (bits as int / 0x10_0000_0000_0000) % 0x800
}

/// Whether a double is neither infinite nor a NaN.
pub open spec fn double_finite(bits: u64) -> bool {
    double_exponent(bits) != 0x7ff
}

/// The significand of a finite double as a whole number.
pub open spec fn double_significand(bits: u64) -> nat {
    if double_exponent(bits) == 0 {
        (bits as int % 0x10_0000_0000_0000) as nat
    } else {
        (0x10_0000_0000_0000 + bits as int % 0x10_0000_0000_0000) as nat
    }
}

/// The power of two by which the significand of a finite double is scaled.
pub open spec fn double_scale(bits: u64) -> int {
    if double_exponent(bits) == 0 {
        -1074
    } else {
        double_exponent(bits) - 1075
    }
}

/// The whole part of `significand * 2^scale`.
pub open spec fn scaled_floor(significand: nat, scale: int) -> nat {
    if scale >= 0 {
        significand * pow2(scale as nat)
    } else {
        significand / pow2((-scale) as nat)
    }
}

/// Whether `significand * 2^scale > limit`.
pub open spec fn scaled_exceeds(significand: nat, scale: int, limit: nat) -> bool {
    if scale >= 0 {
        significand * pow2(scale as nat) > limit
    } else {
        significand > limit * pow2((-scale) as nat)
    }
}

/// `n / d` rounded to the nearest whole number, ties to even.
pub open spec fn round_half_even(n: nat, d: nat) -> nat {
    let q = n / d;
    let r = n % d;
    if 2 * r < d {
        q
    } else if 2 * r > d {
        q + 1
    } else {
        q + q % 2
    }
}

/// How many low bits of `n` do not fit the 53 significant bits of a double.
pub open spec fn excess_bits(n: nat) -> nat
    decreases n,
{
    if n < 0x20_0000_0000_0000 {
        0
    } else {
        1 + excess_bits(n / 2)
    }
}

/// The smaller of two whole numbers.
pub open spec fn lesser(a: nat, b: nat) -> nat {
    if a <= b {
        a
    } else {
        b
    }
}

proof fn lemma_pow2_at_least_64(k: nat)
    requires
        k >= 64,
    ensures
        pow2(k) >= 0x1_0000_0000_0000_0000,
{
    lemma2_to64();
    if k > 64 {
        lemma_pow2_strictly_increases(64, k);
    }
}

fn power_of_two(k: u32) -> (p: u128)
    requires
        k < 64,
    ensures
        p == pow2(k as nat),
        0 < p <= 0x8000_0000_0000_0000,
{
    let mut p: u128 = 1;
    let mut i: u32 = 0;
    proof {
        lemma2_to64();
    }
    while i < k
        invariant
            i <= k < 64,
            p == pow2(i as nat),
            0 < p <= 0x8000_0000_0000_0000,
        decreases k - i,
    {
        proof {
            lemma_pow2_unfold((i + 1) as nat);
            lemma2_to64_rest();
            if i + 1 < 63 {
                lemma_pow2_strictly_increases((i + 1) as nat, 63);
            }
        }
        p = 2 * p;
        i += 1;
    }
    p
}

/// The whole part of `significand * 2^scale`, at most `cap`.
fn floor_capped(significand: u64, scale: i32, cap: u64) -> (n: u64)
    requires
        -4096 < scale < 4096,
    ensures
        n == lesser(scaled_floor(significand as nat, scale as int), cap as nat),
{
    if significand == 0 {
        proof {
            if scale >= 0 {
                lemma_mul_basics(pow2(scale as nat) as int);
            } else {
                lemma_pow2_pos((-scale) as nat);
            }
            assert(scaled_floor(0, scale as int) == 0) by {
                if scale < 0 {
                    lemma_basic_div(0, pow2((-scale) as nat) as int);
                }
            }
        }
        return 0;
    }
    if scale >= 64 {
        proof {
            lemma_pow2_at_least_64(scale as nat);
            lemma_mul_increases(significand as int, pow2(scale as nat) as int);
        }
        return cap;
    }
    if scale >= 0 {
        let factor: u128 = power_of_two(scale as u32);
        proof {
            lemma_mul_upper_bound(
                significand as int,
                0xffff_ffff_ffff_ffff,
                factor as int,
                0x8000_0000_0000_0000,
            );
        }
        let product: u128 = significand as u128 * factor;
        if product <= cap as u128 {
            product as u64
        } else {
            cap
        }
    } else if scale <= -64 {
        proof {
            lemma_pow2_at_least_64((-scale) as nat);
            lemma_basic_div(
                significand as int,
                pow2((-scale) as nat) as int,
            );
        }
        0
    } else {
        let divisor: u128 = power_of_two((-scale) as u32);
        let quotient: u128 = significand as u128 / divisor;
        proof {
            lemma_div_is_ordered_by_denominator(
                significand as int,
                1,
                divisor as int,
            );
        }
        if quotient <= cap as u128 {
            quotient as u64
        } else {
            cap
        }
    }
}

/// Whether `significand * 2^scale > limit`.
fn exceeds(significand: u64, scale: i32, limit: u64) -> (over: bool)
    requires
        -4096 < scale < 4096,
        limit > 0,
    ensures
        over == scaled_exceeds(significand as nat, scale as int, limit as nat),
{
    if scale >= 0 {
        if significand == 0 {
            return false;
        }
        if scale >= 64 {
            proof {
                lemma_pow2_at_least_64(scale as nat);
                lemma_mul_increases(significand as int, pow2(scale as nat) as int);
            }
            return true;
        }
        let factor: u128 = power_of_two(scale as u32);
        proof {
            lemma_mul_upper_bound(
                significand as int,
                0xffff_ffff_ffff_ffff,
                factor as int,
                0x8000_0000_0000_0000,
            );
        }
        significand as u128 * factor > limit as u128
    } else if scale <= -64 {
        proof {
            lemma_pow2_at_least_64((-scale) as nat);
            lemma_mul_increases(limit as int, pow2((-scale) as nat) as int);
        }
        false
    } else {
        let factor: u128 = power_of_two((-scale) as u32);
        proof {
            lemma_mul_upper_bound(
                limit as int,
                0xffff_ffff_ffff_ffff,
                factor as int,
                0x8000_0000_0000_0000,
            );
        }
        significand as u128 > limit as u128 * factor
    }
}

proof fn lemma_excess_bits(n: nat)
    requires
        n <= u64::MAX,
    ensures
        excess_bits(n) <= 11,
        n < 0x20_0000_0000_0000 * pow2(excess_bits(n)),
        excess_bits(n) > 0 ==> n >= 0x10_0000_0000_0000 * pow2(excess_bits(n)),
{
    reveal_with_fuel(excess_bits, 13);
    lemma2_to64();
}

/// The nearest multiple of a power of two that has 53 significant bits.
fn round_to_double(n: u64) -> (rounded: (u64, u32))
    ensures
        rounded.1 == excess_bits(n as nat),
        rounded.0 == round_half_even(n as nat, pow2(excess_bits(n as nat))),
        rounded.0 <= 0x20_0000_0000_0000,
        rounded.1 <= 11,
{
    let mut shift: u32 = 0;
    let mut rest: u64 = n;
    proof {
        lemma_excess_bits(n as nat);
    }
    while rest >= 0x20_0000_0000_0000
        invariant
            shift + excess_bits(rest as nat) == excess_bits(n as nat),
            excess_bits(n as nat) <= 11,
        decreases rest,
    {
        rest = rest / 2;
        shift += 1;
    }
    let divisor: u64 = power_of_two(shift) as u64;
    let quotient: u64 = n / divisor;
    let remainder: u64 = n % divisor;
    proof {
        lemma2_to64();
        if shift < 11 {
            lemma_pow2_strictly_increases(shift as nat, 11);
        }
        assert(quotient < 0x20_0000_0000_0000) by {
            lemma_multiply_divide_lt(n as int, divisor as int, 0x20_0000_0000_0000);
        }
    }
    if 2 * remainder < divisor {
        (quotient, shift)
    } else if 2 * remainder > divisor {
        (quotient + 1, shift)
    } else {
        (quotient + quotient % 2, shift)
    }
}

/// The number as a token count: a non-negative integer as it is, a negative
/// integer as zero, a finite non-negative double truncated and capped at the
/// largest count. A negative or non-finite double is no count.
pub open spec fn count_of(number: Number) -> Option<u64> {
    match number {
        Number::PosInt(n) => Some(n),
        Number::NegInt(n) => Some(if n > 0 { n as u64 } else { 0 }),
        Number::Float(bits) => if double_finite(bits) && (!double_negative(bits)
            || double_significand(bits) == 0) {
            Some(
                lesser(
                    scaled_floor(double_significand(bits), double_scale(bits)),
                    u64::MAX as nat,
                ) as u64,
            )
        } else {
            None
        },
    }
}

/// Whether the number has a finite value as a double.
pub open spec fn is_amount(number: Number) -> bool {
    match number {
        Number::PosInt(_) => true,
        Number::NegInt(_) => true,
        Number::Float(bits) => double_finite(bits),
    }
}

/// The instant, in milliseconds since the Unix epoch, that the double
/// `significand * 2^scale` stands for: above 10^12 it counts milliseconds,
/// above 10^9 it counts seconds, at or below that it is no instant. Seconds
/// are multiplied by 1000 in double precision; the result is truncated and
/// capped at the largest `i64`.
pub open spec fn instant_of_double(significand: nat, scale: int) -> Option<i64> {
    if scaled_exceeds(significand, scale, 1_000_000_000_000) {
        Some(lesser(scaled_floor(significand, scale), i64::MAX as nat) as i64)
    } else if scaled_exceeds(significand, scale, 1_000_000_000) {
        let shift = excess_bits(significand * 1000);
        Some(
            lesser(
                scaled_floor(
                    round_half_even(significand * 1000, pow2(shift)),
                    scale + shift,
                ),
                i64::MAX as nat,
            ) as i64,
        )
    } else {
        None
    }
}

/// The instant that a whole number stands for: that of the nearest double.
pub open spec fn instant_of_integer(n: nat) -> Option<i64> {
    instant_of_double(round_half_even(n, pow2(excess_bits(n))), excess_bits(n) as int)
}

/// The instant that a number stands for. A number that is not positive is no
/// instant.
pub open spec fn instant_of(number: Number) -> Option<i64> {
    match number {
        Number::PosInt(n) => instant_of_integer(n as nat),
        Number::NegInt(n) => if n > 0 {
            instant_of_integer(n as nat)
        } else {
            None
        },
        Number::Float(bits) => if double_finite(bits) && !double_negative(bits) {
            instant_of_double(double_significand(bits), double_scale(bits))
        } else {
            None
        },
    }
}

/// The parts of a double: whether it is finite, whether its sign bit is set,
/// its significand and its scale.
pub(crate) fn double_parts(bits: u64) -> (parts: (bool, bool, u64, i32))
    ensures
        parts.0 == double_finite(bits),
        parts.1 == double_negative(bits),
        parts.2 == double_significand(bits),
        parts.3 == double_scale(bits),
        parts.2 < 0x20_0000_0000_0000,
        -1074 <= parts.3 <= 972,
{
    let exponent: u64 = (bits / 0x10_0000_0000_0000) % 0x800;
    let fraction: u64 = bits % 0x10_0000_0000_0000;
    let negative: bool = bits >= 0x8000_0000_0000_0000;
    if exponent == 0 {
        (true, negative, fraction, -1074)
    } else {
        (exponent != 0x7ff, negative, 0x10_0000_0000_0000 + fraction, exponent as i32 - 1075)
    }
}

/// Reads a number as a token count.
pub fn count_from_number(number: Number) -> (count: Option<u64>)
    ensures
        count == count_of(number),
{
    match number {
        Number::PosInt(n) => Some(n),
        Number::NegInt(n) => if n > 0 {
            Some(n as u64)
        } else {
            Some(0)
        },
        Number::Float(bits) => {
            let (finite, negative, significand, scale) = double_parts(bits);
            if finite && (!negative || significand == 0) {
                Some(floor_capped(significand, scale, u64::MAX))
            } else {
                None
            }
        },
    }
}

/// Whether a number can be read as a money amount.
pub fn number_is_amount(number: Number) -> (finite: bool)
    ensures
        finite == is_amount(number),
{
    match number {
        Number::PosInt(_) => true,
        Number::NegInt(_) => true,
        Number::Float(bits) => double_parts(bits).0,
    }
}

fn instant_from_parts(significand: u64, scale: i32) -> (instant: Option<i64>)
    requires
        significand <= 0x20_0000_0000_0000,
        -2000 < scale < 2000,
    ensures
        instant == instant_of_double(significand as nat, scale as int),
{
    if exceeds(significand, scale, 1_000_000_000_000) {
        Some(floor_capped(significand, scale, i64::MAX as u64) as i64)
    } else if exceeds(significand, scale, 1_000_000_000) {
        let (rounded, shift) = round_to_double(significand * 1000);
        Some(floor_capped(rounded, scale + shift as i32, i64::MAX as u64) as i64)
    } else {
        None
    }
}

/// Reads a number as an instant in milliseconds since the Unix epoch.
pub fn timestamp_from_number(number: Number) -> (instant: Option<i64>)
    ensures
        instant == instant_of(number),
{
    match number {
        Number::PosInt(n) => {
            let (significand, shift) = round_to_double(n);
            instant_from_parts(significand, shift as i32)
        },
        Number::NegInt(n) => if n > 0 {
            let (significand, shift) = round_to_double(n as u64);
            instant_from_parts(significand, shift as i32)
        } else {
            None
        },
        Number::Float(bits) => {
            let (finite, negative, significand, scale) = double_parts(bits);
            if finite && !negative {
                instant_from_parts(significand, scale)
            } else {
                None
            }
        },
    }
}

proof fn lemma_exact_integer(n: nat)
    requires
        n < 0x20_0000_0000_0000,
    ensures
        excess_bits(n) == 0,
        round_half_even(n, pow2(0)) == n,
        scaled_floor(n, 0) == n,
{
    lemma2_to64();
    lemma_mul_basics(n as int);
    lemma_div_basics(n as int);
}

/// A whole number of milliseconds in the range of current dates is its own
/// instant.
pub proof fn law_millis_are_kept(n: u64)
    requires
        1_000_000_000_000 < n < 0x20_0000_0000_0000,
    ensures
        instant_of(Number::PosInt(n)) == Some(n as i64),
{
    lemma2_to64();
    lemma_exact_integer(n as nat);
    lemma_mul_basics(n as int);
}

/// A whole number of seconds in the range of current dates is scaled to
/// milliseconds exactly.
pub proof fn law_seconds_become_millis(n: u64)
    requires
        1_000_000_000 < n <= 1_000_000_000_000,
    ensures
        instant_of(Number::PosInt(n)) == Some((n * 1000) as i64),
{
    lemma2_to64();
    lemma_exact_integer(n as nat);
    lemma_exact_integer((n * 1000) as nat);
    lemma_mul_basics(n as int);
    lemma_mul_basics((n * 1000) as int);
}

} // verus!
