//! IEEE-754 numbers as bit patterns: classification and the two orders that the
//! pipeline decides by, the numeric one (`<`, `<=`) and the total one.

use vstd::arithmetic::power2::{
    lemma2_to64, lemma2_to64_rest, lemma_pow2_strictly_increases, lemma_pow2_unfold, pow2,
};
use vstd::prelude::*;

verus! {

/// The bit pattern of a binary64 number.
pub type F64Bits = u64;

/// The bit pattern of a binary32 number.
pub type F32Bits = u32;

/// The sign bit of a binary64 pattern.
pub const SIGN64: u64 = 0x8000_0000_0000_0000;

/// Positive infinity in binary64.
pub const INFINITY64: u64 = 0x7ff0_0000_0000_0000;

/// The sign bit of a binary32 pattern.
pub const SIGN32: u32 = 0x8000_0000;

/// Positive infinity in binary32.
pub const INFINITY32: u32 = 0x7f80_0000;

/// The pattern without its sign bit.
pub open spec fn magnitude(b: F64Bits) -> int {
    if b < SIGN64 {
        b as int
    } else {
        b - SIGN64
    }
}

/// The pattern stands for no number.
pub open spec fn is_nan(b: F64Bits) -> bool {
    magnitude(b) > INFINITY64
}

/// The pattern stands for a number that is neither infinite nor a NaN.
pub open spec fn is_finite(b: F64Bits) -> bool {
    magnitude(b) < INFINITY64
}

/// Where a number stands among all numbers; both zeros stand at 0.
pub open spec fn ordinal(b: F64Bits) -> int {
    if b < SIGN64 {
        b as int
    } else {
        SIGN64 - b
    }
}

/// `a < b` as numbers; false when either is a NaN.
pub open spec fn lt(a: F64Bits, b: F64Bits) -> bool {
    !is_nan(a) && !is_nan(b) && ordinal(a) < ordinal(b)
}

/// `a <= b` as numbers; false when either is a NaN.
pub open spec fn le(a: F64Bits, b: F64Bits) -> bool {
    !is_nan(a) && !is_nan(b) && ordinal(a) <= ordinal(b)
}

/// Where a pattern stands in the total order: negative NaNs, then the numbers in
/// order with -0 before +0, then positive NaNs.
pub open spec fn total_rank(b: F64Bits) -> int {
    if b < SIGN64 {
        b as int
    } else {
        SIGN64 - b - 1
    }
}

/// Whether `b` is a NaN.
pub fn nan(b: F64Bits) -> (r: bool)
    ensures
        r == is_nan(b),
{
    if b < SIGN64 {
        b > INFINITY64
    } else {
        b - SIGN64 > INFINITY64
    }
}

/// Whether `b` is neither infinite nor a NaN.
pub fn finite(b: F64Bits) -> (r: bool)
    ensures
        r == is_finite(b),
{
    if b < SIGN64 {
        b < INFINITY64
    } else {
        b - SIGN64 < INFINITY64
    }
}

/// `a < b` as numbers.
pub fn less(a: F64Bits, b: F64Bits) -> (r: bool)
    ensures
        r == lt(a, b),
{
    !nan(a) && !nan(b) && numeric_key(a) < numeric_key(b)
}

/// `a <= b` as numbers.
pub fn at_most(a: F64Bits, b: F64Bits) -> (r: bool)
    ensures
        r == le(a, b),
{
    !nan(a) && !nan(b) && numeric_key(a) <= numeric_key(b)
}

/// The integer by which numbers are ordered.
pub fn numeric_key(b: F64Bits) -> (r: i64)
    ensures
        r == ordinal(b),
{
    if b < SIGN64 {
        b as i64
    } else {
        -((b - SIGN64) as i64)
    }
}

/// The integer by which patterns are ordered in the total order.
pub fn total_key(b: F64Bits) -> (r: i64)
    ensures
        r == total_rank(b),
{
    if b < SIGN64 {
        b as i64
    } else {
        -((b - SIGN64) as i64) - 1
    }
}

/// The total order tells any two patterns apart, and among numbers it never
/// contradicts the numeric order.
pub proof fn lemma_total_order_refines(a: F64Bits, b: F64Bits)
    ensures
        total_rank(a) == total_rank(b) ==> a == b,
        lt(a, b) ==> total_rank(a) < total_rank(b),
        !is_nan(a) && !is_nan(b) && total_rank(a) <= total_rank(b) ==> le(a, b),
{
}

/// The binary32 pattern stands for a number that is neither infinite nor a NaN.
pub open spec fn is_finite32(b: F32Bits) -> bool {
    if b < SIGN32 {
        b < INFINITY32
    } else {
        b - SIGN32 < INFINITY32
    }
}

/// The binary32 pattern stands for no number.
pub open spec fn is_nan32(b: F32Bits) -> bool {
    if b < SIGN32 {
        b > INFINITY32
    } else {
        b - SIGN32 > INFINITY32
    }
}

/// Where a binary32 number stands among all of them; both zeros stand at 0.
pub open spec fn ordinal32(b: F32Bits) -> int {
    if b < SIGN32 {
        b as int
    } else {
        SIGN32 - b
    }
}

/// `a < b` as binary32 numbers; false when either is a NaN.
pub open spec fn lt32(a: F32Bits, b: F32Bits) -> bool {
    !is_nan32(a) && !is_nan32(b) && ordinal32(a) < ordinal32(b)
}

/// `a <= b` as binary32 numbers; false when either is a NaN.
pub open spec fn le32(a: F32Bits, b: F32Bits) -> bool {
    !is_nan32(a) && !is_nan32(b) && ordinal32(a) <= ordinal32(b)
}

/// Whether the binary32 pattern `b` is neither infinite nor a NaN.
pub fn finite32(b: F32Bits) -> (r: bool)
    ensures
        r == is_finite32(b),
{
    if b < SIGN32 {
        b < INFINITY32
    } else {
        b - SIGN32 < INFINITY32
    }
}

/// Whether the binary32 pattern `b` is a NaN.
pub fn nan32(b: F32Bits) -> (r: bool)
    ensures
        r == is_nan32(b),
{
    if b < SIGN32 {
        b > INFINITY32
    } else {
        b - SIGN32 > INFINITY32
    }
}

/// The integer by which binary32 numbers are ordered.
pub fn numeric_key32(b: F32Bits) -> (r: i64)
    ensures
        r == ordinal32(b),
{
    if b < SIGN32 {
        b as i64
    } else {
        -((b - SIGN32) as i64)
    }
}

/// `a < b` as binary32 numbers.
pub fn less32(a: F32Bits, b: F32Bits) -> (r: bool)
    ensures
        r == lt32(a, b),
{
    !nan32(a) && !nan32(b) && numeric_key32(a) < numeric_key32(b)
}

/// `a <= b` as binary32 numbers.
pub fn at_most32(a: F32Bits, b: F32Bits) -> (r: bool)
    ensures
        r == le32(a, b),
{
    !nan32(a) && !nan32(b) && numeric_key32(a) <= numeric_key32(b)
}

/// A pattern is a sign, eleven bits of exponent and the rest. It is a NaN where the exponent is full
/// and the rest is not zero. Two positive numbers are ordered as their patterns, two negative ones the
/// other way round, a negative one is below a positive one unless both are zero, and nothing is
/// ordered with a NaN.
pub proof fn lemma_numbers_are_ordered_by_sign_and_size(a: F64Bits, b: F64Bits)
    ensures
        is_nan(a) <==> a as int / 0x10_0000_0000_0000 % 0x800 == 0x7ff && a as int
            % 0x10_0000_0000_0000 != 0,
        is_finite(a) <==> a as int / 0x10_0000_0000_0000 % 0x800 != 0x7ff,
        is_nan(a) || is_nan(b) ==> !lt(a, b) && !le(a, b),
        !is_nan(a) && !is_nan(b) ==> {
            let minus_a = a as int / 0x8000_0000_0000_0000 == 1;
            let minus_b = b as int / 0x8000_0000_0000_0000 == 1;
            let zeros = a as int % 0x8000_0000_0000_0000 == 0 && b as int % 0x8000_0000_0000_0000
                == 0;
            &&& !minus_a && !minus_b ==> (lt(a, b) <==> a < b)
            &&& minus_a && minus_b ==> (lt(a, b) <==> b < a)
            &&& minus_a && !minus_b ==> (lt(a, b) <==> !zeros)
            &&& !minus_a && minus_b ==> !lt(a, b)
            &&& le(a, b) <==> !lt(b, a)
        },
{
}

/// The same of binary32 patterns, with eight bits of exponent.
pub proof fn lemma_numbers_are_ordered_by_sign_and_size32(a: F32Bits, b: F32Bits)
    ensures
        is_nan32(a) <==> a as int / 0x80_0000 % 0x100 == 0xff && a as int % 0x80_0000 != 0,
        is_finite32(a) <==> a as int / 0x80_0000 % 0x100 != 0xff,
        is_nan32(a) || is_nan32(b) ==> !lt32(a, b) && !le32(a, b),
        !is_nan32(a) && !is_nan32(b) ==> {
            let minus_a = a as int / 0x8000_0000 == 1;
            let minus_b = b as int / 0x8000_0000 == 1;
            let zeros = a as int % 0x8000_0000 == 0 && b as int % 0x8000_0000 == 0;
            &&& !minus_a && !minus_b ==> (lt32(a, b) <==> a < b)
            &&& minus_a && minus_b ==> (lt32(a, b) <==> b < a)
            &&& minus_a && !minus_b ==> (lt32(a, b) <==> !zeros)
            &&& !minus_a && minus_b ==> !lt32(a, b)
            &&& le32(a, b) <==> !lt32(b, a)
        },
{
}

// ---- whole numbers ----

/// The number without its fraction, as far as an `i64` reaches; 0 for a NaN.
pub open spec fn truncated(b: F64Bits) -> int {
    let exponent = magnitude(b) / 0x10_0000_0000_0000;
    let fraction = magnitude(b) % 0x10_0000_0000_0000;
    let whole = if exponent < 1023 {
        0
    } else if exponent > 1085 {
        0x8000_0000_0000_0000
    } else {
        (0x10_0000_0000_0000 + fraction) * pow2((exponent - 1023) as nat) / 0x10_0000_0000_0000
    };
    if is_nan(b) {
        0
    } else if b < SIGN64 {
        if whole > i64::MAX {
            i64::MAX as int
        } else {
            whole
        }
    } else {
        -whole
    }
}

pub(crate) fn power_of_two(n: u64) -> (r: u64)
    requires
        n <= 62,
    ensures
        r == pow2(n as nat),
        0 < r <= 0x4000_0000_0000_0000,
{
    let mut r: u64 = 1;
    let mut i: u64 = 0;
    proof {
        lemma2_to64();
        lemma2_to64_rest();
    }
    while i < n
        invariant
            i <= n <= 62,
            r == pow2(i as nat),
            0 < r,
        decreases n - i,
    {
        proof {
            lemma_pow2_unfold((i + 1) as nat);
            lemma_pow2_strictly_increases(i as nat, 62);
            lemma2_to64_rest();
        }
        r = r * 2;
        i = i + 1;
    }
    proof {
        if n < 62 {
            lemma_pow2_strictly_increases(n as nat, 62);
        }
    }
    r
}

/// The number without its fraction, as far as an `i64` reaches; 0 for a NaN.
pub fn truncate(b: F64Bits) -> (r: i64)
    ensures
        r == truncated(b),
{
    if nan(b) {
        return 0;
    }
    let negative: bool = b >= SIGN64;
    let size: u64 = if negative {
        b - SIGN64
    } else {
        b
    };
    let exponent: u64 = size / 0x10_0000_0000_0000;
    let fraction: u64 = size % 0x10_0000_0000_0000;
    if exponent < 1023 {
        return 0;
    }
    if exponent > 1085 {
        return if negative {
            i64::MIN
        } else {
            i64::MAX
        };
    }
    let power: u64 = power_of_two(exponent - 1023);
    let digits: u64 = 0x10_0000_0000_0000 + fraction;
    proof {
        assert(0 < digits * power < 0x20_0000_0000_0000 * 0x4000_0000_0000_0000 + 1)
            by (nonlinear_arith)
            requires
                0 < digits < 0x20_0000_0000_0000,
                0 < power <= 0x4000_0000_0000_0000,
        ;
        assert(digits * power < 0x20_0000_0000_0000 * 0x4000_0000_0000_0000) by (nonlinear_arith)
            requires
                0 < digits < 0x20_0000_0000_0000,
                0 < power <= 0x4000_0000_0000_0000,
        ;
    }
    let whole: i64 = (digits as u128 * power as u128 / 0x10_0000_0000_0000) as i64;
    if negative {
        -whole
    } else {
        whole
    }
}

/// What is left of a number without its fraction is between it and zero, and less than one away from
/// it: a number with the digits `m` after its leading bit and the exponent `e` is `m` times two to the
/// power of `e - 1075`. A number and its negative are cut alike, up to what an `i64` holds.
pub proof fn lemma_truncated_drops_the_fraction(b: F64Bits)
    ensures
        ({
            let e = b as int / 0x10_0000_0000_0000 % 0x800;
            let m = 0x10_0000_0000_0000 + b as int % 0x10_0000_0000_0000;
            &&& i64::MIN <= truncated(b) <= i64::MAX
            &&& e < 1023 ==> truncated(b) == 0
            &&& b < 0x8000_0000_0000_0000 && 1023 <= e <= 1075 ==> truncated(b) * pow2(
                (1075 - e) as nat,
            ) <= m < (truncated(b) + 1) * pow2((1075 - e) as nat)
            &&& b < 0x8000_0000_0000_0000 && 1075 <= e < 1086 ==> truncated(b) == m * pow2(
                (e - 1075) as nat,
            )
            &&& b < 0x8000_0000_0000_0000 && e < 1086 ==> truncated(
                (b + 0x8000_0000_0000_0000) as u64,
            ) == -truncated(b)
            &&& is_nan(b) ==> truncated(b) == 0
            &&& b < 0x8000_0000_0000_0000 && 1086 <= e && !is_nan(b) ==> truncated(b) == i64::MAX
            &&& b >= 0x8000_0000_0000_0000 && 1086 <= e && !is_nan(b) ==> truncated(b) == i64::MIN
        }),
{
    let e = b as int / 0x10_0000_0000_0000 % 0x800;
    let size = magnitude(b);
    let m = 0x10_0000_0000_0000 + b as int % 0x10_0000_0000_0000;
    assert(size / 0x10_0000_0000_0000 == e);
    assert(size % 0x10_0000_0000_0000 == b as int % 0x10_0000_0000_0000);
    lemma2_to64();
    lemma2_to64_rest();
    if 1023 <= e <= 1085 {
        let p = pow2((e - 1023) as nat);
        let whole = m * p / 0x10_0000_0000_0000;
        vstd::arithmetic::power2::lemma_pow2_pos((e - 1023) as nat);
        if e <= 1075 {
            let q = pow2((1075 - e) as nat);
            vstd::arithmetic::power2::lemma_pow2_pos((1075 - e) as nat);
            vstd::arithmetic::power2::lemma_pow2_adds((e - 1023) as nat, (1075 - e) as nat);
            assert(pow2(52) == 0x10_0000_0000_0000);
            assert(p * q == 0x10_0000_0000_0000);
            assert(whole * q <= m < (whole + 1) * q) by (nonlinear_arith)
                requires
                    p * q == 0x10_0000_0000_0000,
                    whole == m * p / 0x10_0000_0000_0000,
                    p > 0,
                    q > 0,
                    m > 0,
            ;
        }
        if e >= 1075 {
            let q = pow2((e - 1075) as nat);
            vstd::arithmetic::power2::lemma_pow2_adds(52, (e - 1075) as nat);
            assert(p == 0x10_0000_0000_0000 * q);
            assert(m * p / 0x10_0000_0000_0000 == m * q) by (nonlinear_arith)
                requires
                    p == 0x10_0000_0000_0000 * q,
            ;
        }
        lemma_whole_fits(m, e);
    }
}

proof fn lemma_whole_fits(m: int, e: int)
    requires
        0x10_0000_0000_0000 <= m < 0x20_0000_0000_0000,
        1023 <= e <= 1085,
    ensures
        0 <= m * pow2((e - 1023) as nat) / 0x10_0000_0000_0000 <= i64::MAX,
{
    let p = pow2((e - 1023) as nat);
    lemma2_to64();
    lemma2_to64_rest();
    if e < 1085 {
        lemma_pow2_strictly_increases((e - 1023) as nat, 62);
    }
    vstd::arithmetic::power2::lemma_pow2_pos((e - 1023) as nat);
    assert(0 <= m * p / 0x10_0000_0000_0000 < 0x8000_0000_0000_0000) by (nonlinear_arith)
        requires
            0x10_0000_0000_0000 <= m < 0x20_0000_0000_0000,
            0 < p <= 0x4000_0000_0000_0000,
    ;
}

} // verus!
