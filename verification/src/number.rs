//! Doubles held by their bits: equality, and the double nearest to an integer.
use vstd::prelude::*;

verus! {

/// The bits of the sign of a double.
pub const SIGN_BIT: u64 = 0x8000_0000_0000_0000;

/// The bits of positive infinity.
pub const INFINITY_BITS: u64 = 0x7ff0_0000_0000_0000;

/// The bits of the double zero.
pub const ZERO_BITS: u64 = 0;

/// Whether the bits are those of a NaN: its magnitude lies above infinity.
pub open spec fn is_nan(bits: u64) -> bool {
    bits as int % (SIGN_BIT as int) > INFINITY_BITS
}

/// Whether the bits are those of a zero of either sign.
pub open spec fn is_zero(bits: u64) -> bool {
    bits == 0 || bits == SIGN_BIT
}

/// Equality of doubles: a NaN equals nothing, the two zeros are equal, all else goes by the bits.
pub open spec fn double_eq(a: u64, b: u64) -> bool {
    !is_nan(a) && !is_nan(b) && (a == b || (is_zero(a) && is_zero(b)))
}

pub fn same_double(a: u64, b: u64) -> (r: bool)
    ensures
        r == double_eq(a, b),
{
    let nan_a = a % SIGN_BIT > INFINITY_BITS;
    let nan_b = b % SIGN_BIT > INFINITY_BITS;
    !nan_a && !nan_b && (a == b || ((a == 0 || a == SIGN_BIT) && (b == 0 || b == SIGN_BIT)))
}

/// Two to the power of `n`.
pub open spec fn power_of_two(n: nat) -> int
    decreases n,
{
    if n == 0 {
        1
    } else {
        2 * power_of_two((n - 1) as nat)
    }
}

/// The position of the highest bit of `m`, for `m >= 1`.
pub open spec fn top_bit(m: int) -> nat
    decreases m,
{
    if m <= 1 {
        0
    } else {
        1 + top_bit(m / 2)
    }
}

/// The significand of `m >= 1` as a 53 bit integer, rounded to nearest with ties to even; it is
/// the next power of two where the rounding carries over.
pub open spec fn rounded_significand(m: int) -> int {
    let e = top_bit(m);
    if e <= 52 {
        m * power_of_two((52 - e) as nat)
    } else {
        let unit = power_of_two((e - 52) as nat);
        let kept = m / unit;
        let rest = m % unit;
        if 2 * rest > unit || (2 * rest == unit && kept % 2 == 1) {
            kept + 1
        } else {
            kept
        }
    }
}

/// The bits of the double nearest to the positive integer `m`.
pub open spec fn magnitude_bits(m: int) -> int {
    (top_bit(m) + 1022) * 0x10_0000_0000_0000 + rounded_significand(m)
}

/// The bits of the double nearest to the integer `i`, ties to even.
pub open spec fn int_bits(i: i64) -> u64 {
    if i == 0 {
        0
    } else if i > 0 {
        magnitude_bits(i as int) as u64
    } else {
        (magnitude_bits(-(i as int)) + SIGN_BIT) as u64
    }
}

proof fn lemma_top_bit_unique(m: int, e: nat)
    requires
        m >= 1,
        power_of_two(e) <= m < 2 * power_of_two(e),
    ensures
        top_bit(m) == e,
    decreases m,
{
    if m > 1 {
        if e == 0 {
            assert(power_of_two(0) == 1);
        } else {
            lemma_top_bit_unique(m / 2, (e - 1) as nat);
        }
    } else {
        if e > 0 {
            lemma_power_positive((e - 1) as nat);
        }
    }
}

proof fn lemma_power_positive(n: nat)
    ensures
        power_of_two(n) >= 1,
    decreases n,
{
    if n > 0 {
        lemma_power_positive((n - 1) as nat);
    }
}

proof fn lemma_power_sum(a: nat, b: nat)
    ensures
        power_of_two(a + b) == power_of_two(a) * power_of_two(b),
    decreases a,
{
    if a > 0 {
        lemma_power_sum((a - 1) as nat, b);
        assert(power_of_two(a + b) == 2 * power_of_two((a - 1 + b) as nat));
        assert(2 * (power_of_two((a - 1) as nat) * power_of_two(b)) == (2 * power_of_two(
            (a - 1) as nat,
        )) * power_of_two(b)) by (nonlinear_arith);
    } else {
        assert(power_of_two(0) == 1);
    }
}

fn power(n: u32) -> (p: u128)
    requires
        n <= 64,
    ensures
        p == power_of_two(n as nat),
        1 <= p <= 0x1_0000_0000_0000_0000,
{
    let mut p: u128 = 1;
    let mut k: u32 = 0;
    proof {
        assert(power_of_two(64) == 0x1_0000_0000_0000_0000) by {
            reveal_with_fuel(power_of_two, 65);
        }
    }
    while k < n
        invariant
            k <= n <= 64,
            p == power_of_two(k as nat),
            1 <= p <= 0x1_0000_0000_0000_0000,
            power_of_two(64) == 0x1_0000_0000_0000_0000,
        decreases n - k,
    {
        proof {
            lemma_power_sum((k + 1) as nat, (63 - k) as nat);
            lemma_power_positive((63 - k) as nat);
            assert(power_of_two((k + 1) as nat) == 2 * power_of_two(k as nat));
            assert(power_of_two((k + 1) as nat) <= power_of_two((k + 1) as nat) * power_of_two(
                (63 - k) as nat,
            )) by (nonlinear_arith)
                requires
                    power_of_two((63 - k) as nat) >= 1,
                    power_of_two((k + 1) as nat) >= 0,
            ;
        }
        p = p * 2;
        k = k + 1;
    }
    p
}

fn find_top_bit(m: u64) -> (e: u32)
    requires
        1 <= m <= SIGN_BIT,
    ensures
        e == top_bit(m as int),
        e <= 63,
        power_of_two(e as nat) <= m < 2 * power_of_two(e as nat),
{
    let mut e: u32 = 0;
    let mut p: u128 = 1;
    proof {
        assert(power_of_two(63) == SIGN_BIT) by {
            reveal_with_fuel(power_of_two, 64);
        }
    }
    while p * 2 <= m as u128
        invariant
            e <= 63,
            p == power_of_two(e as nat),
            p <= m <= SIGN_BIT,
            1 <= p,
            power_of_two(63) == SIGN_BIT,
        decreases m - p,
    {
        assert(power_of_two((e + 1) as nat) == 2 * power_of_two(e as nat));
        p = p * 2;
        e = e + 1;
    }
    proof {
        lemma_top_bit_unique(m as int, e as nat);
    }
    e
}

/// The significand of a number that has at most 53 bits.
fn widen(m: u64, e: u32) -> (significand: u128)
    requires
        e <= 52,
        power_of_two(e as nat) <= m < 2 * power_of_two(e as nat),
    ensures
        significand == m * power_of_two((52 - e) as nat),
        significand < 0x20_0000_0000_0000,
{
    let scale = power(52 - e);
    proof {
        lemma_power_sum(e as nat, (52 - e) as nat);
        lemma_power_52();
        assert(0 <= m * scale < 2 * (power_of_two(e as nat) * scale)) by (nonlinear_arith)
            requires
                0 <= m < 2 * power_of_two(e as nat),
                scale >= 1,
        ;
    }
    m as u128 * scale
}

proof fn lemma_kept(m: int, unit: int)
    requires
        unit >= 1,
        0 <= m < unit * 0x20_0000_0000_0000,
    ensures
        0 <= m / unit < 0x20_0000_0000_0000,
{
    assert(m / unit < 0x20_0000_0000_0000) by (nonlinear_arith)
        requires
            unit >= 1,
            0 <= m < unit * 0x20_0000_0000_0000,
    ;
    assert(0 <= m / unit) by (nonlinear_arith)
        requires
            unit >= 1,
            0 <= m,
    ;
}

proof fn lemma_power_52()
    ensures
        power_of_two(52) == 0x10_0000_0000_0000,
{
    reveal_with_fuel(power_of_two, 53);
}

/// The significand of a number that has more bits.
fn round(m: u64, e: u32) -> (significand: u128)
    requires
        52 < e <= 63,
        e == top_bit(m as int),
        power_of_two(e as nat) <= m < 2 * power_of_two(e as nat),
    ensures
        significand == rounded_significand(m as int),
        significand <= 0x20_0000_0000_0000,
{
    let unit = power(e - 52);
    let kept = m as u128 / unit;
    let rest = m as u128 % unit;
    proof {
        lemma_power_sum((e - 52) as nat, 52);
        lemma_power_52();
        lemma_kept(m as int, unit as int);
    }
    if 2 * rest > unit || (2 * rest == unit && kept % 2 == 1) {
        kept + 1
    } else {
        kept
    }
}

fn magnitude_to_bits(m: u64) -> (bits: u64)
    requires
        1 <= m <= SIGN_BIT,
    ensures
        bits == magnitude_bits(m as int),
        bits < SIGN_BIT,
{
    let e = find_top_bit(m);
    let significand = if e <= 52 {
        widen(m, e)
    } else {
        round(m, e)
    };
    ((e as u128 + 1022) * 0x10_0000_0000_0000 + significand) as u64
}

/// The bits of the double nearest to `i`.
pub fn int_to_double(i: i64) -> (bits: u64)
    ensures
        bits == int_bits(i),
{
    if i == 0 {
        0
    } else if i > 0 {
        magnitude_to_bits(i as u64)
    } else {
        let m = (-(i as i128)) as u64;
        magnitude_to_bits(m) + SIGN_BIT
    }
}

/// Whole numbers of up to fifty-three bits are doubles exactly: the significand, with its leading bit,
/// is the number times the power of two that the exponent stands for.
pub proof fn whole_numbers_are_doubles_exactly(i: i64)
    requires
        -0x20_0000_0000_0000 < i < 0x20_0000_0000_0000,
        i != 0,
    ensures
        ({
            let bits = int_bits(i) as int % 0x8000_0000_0000_0000;
            let exponent = bits / 0x10_0000_0000_0000;
            let significand = 0x10_0000_0000_0000 + bits % 0x10_0000_0000_0000;
            let size = if i > 0 {
                i as int
            } else {
                -i
            };
            &&& 1023 <= exponent <= 1075
            &&& significand == size * power_of_two((1075 - exponent) as nat)
            &&& int_bits(i) >= 0x8000_0000_0000_0000 <==> i < 0
        }),
        int_bits(0) == 0,
{
    let m = if i > 0 {
        i as int
    } else {
        -i
    };
    let e = lemma_top_bit_is(m);
    lemma_power_52();
    lemma_power_sum(e, (52 - e) as nat);
    let scale = power_of_two((52 - e) as nat);
    lemma_power_positive((52 - e) as nat);
    let s = m * scale;
    assert(power_of_two(e) * scale <= m * scale < 2 * (power_of_two(e) * scale)) by (nonlinear_arith)
        requires
            power_of_two(e) <= m < 2 * power_of_two(e),
            scale >= 1,
    ;
    assert(rounded_significand(m) == s);
    assert(magnitude_bits(m) == (e + 1022) * 0x10_0000_0000_0000 + s);
}

proof fn lemma_top_bit_is(m: int) -> (e: nat)
    requires
        1 <= m < 0x20_0000_0000_0000,
    ensures
        e <= 52,
        e == top_bit(m),
        power_of_two(e) <= m < 2 * power_of_two(e),
{
    let e = lemma_some_power(m);
    lemma_top_bit_unique(m, e);
    if e > 52 {
        lemma_power_52();
        lemma_power_sum(53, (e - 53) as nat);
        lemma_power_positive((e - 53) as nat);
        assert(power_of_two(53) == 2 * power_of_two(52));
        assert(power_of_two(53) * power_of_two((e - 53) as nat) >= power_of_two(53)) by (nonlinear_arith)
            requires
                power_of_two((e - 53) as nat) >= 1,
                power_of_two(53) >= 1,
        ;
    }
    e
}

proof fn lemma_some_power(m: int) -> (e: nat)
    requires
        1 <= m,
    ensures
        power_of_two(e) <= m < 2 * power_of_two(e),
    decreases m,
{
    if m == 1 {
        assert(power_of_two(0) == 1);
        0
    } else {
        let d = lemma_some_power(m / 2);
        assert(power_of_two(d + 1) == 2 * power_of_two(d));
        d + 1
    }
}

/// Doubles are equal where their bits are, but that the two zeros are equal and what is no number is
/// equal to nothing.
pub proof fn doubles_are_equal_by_their_bits(a: u64, b: u64)
    ensures
        is_nan(a) <==> a as int % 0x8000_0000_0000_0000 > 0x7ff0_0000_0000_0000,
        double_eq(a, b) <==> !is_nan(a) && !is_nan(b) && (a == b || (a as int % 0x8000_0000_0000_0000 == 0
            && b as int % 0x8000_0000_0000_0000 == 0)),
{
}

} // verus!
