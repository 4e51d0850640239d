//! IEEE 754 binary64 values as 64-bit patterns.
//!
//! Bit 63 is the sign, bits 52 to 62 the biased exponent and bits 0 to 51 the
//! fraction. Rounded arithmetic is done by `rustc_apfloat`; what it returns is
//! named here, so contracts can say which operation was applied to which
//! operands.

use rustc_apfloat::ieee::Double;
use rustc_apfloat::Float;
use vstd::arithmetic::power2::{lemma2_to64, lemma2_to64_rest, lemma_pow2_adds, lemma_pow2_unfold, pow2};
use vstd::prelude::*;

verus! {

/// Positive zero.
pub const ZERO: u64 = 0;

/// The number ten.
pub const TEN: u64 = 0x4024_0000_0000_0000;

/// The binary64 number nearest to one tenth.
pub const TENTH: u64 = 0x3FB9_9999_9999_999A;

/// The smallest positive number there is, two to the power -1074: the least
/// magnitude that is not zero.
pub const SMALLEST_POSITIVE: u64 = 0x0000_0000_0000_0001;

/// Everything but the sign bit.
pub const MAGNITUDE_MASK: u64 = 0x7FFF_FFFF_FFFF_FFFF;

/// The sign bit alone.
pub const SIGN_BIT: u64 = 0x8000_0000_0000_0000;

/// Two to the power 52: the weight of the lowest exponent bit, and the
/// leading mantissa bit that the pattern of a normal number leaves out.
pub const HIDDEN_BIT: u64 = 0x0010_0000_0000_0000;

/// The biased exponent of the numbers from one up to, not including, two.
pub const EXPONENT_BIAS: u64 = 1023;

/// The biased exponent, bits 52 to 62. It is zero for zeros and subnormal
/// numbers, and all ones for infinities and NaNs.
pub open spec fn exponent_field(bits: u64) -> nat {
    ((bits / HIDDEN_BIT) % 2048) as nat
}

/// The fraction, bits 0 to 51.
pub open spec fn fraction_field(bits: u64) -> nat {
    (bits % HIDDEN_BIT) as nat
}

/// The binary64 sum of `l` and `r`, rounded to nearest with ties to even.
pub uninterp spec fn binary64_sum(l: u64, r: u64) -> u64;

/// The binary64 difference `l - r`, rounded to nearest with ties to even.
pub uninterp spec fn binary64_difference(l: u64, r: u64) -> u64;

/// The binary64 product of `l` and `r`, rounded to nearest with ties to even.
pub uninterp spec fn binary64_product(l: u64, r: u64) -> u64;

/// The binary64 quotient `l / r`, rounded to nearest with ties to even.
pub uninterp spec fn binary64_quotient(l: u64, r: u64) -> u64;

/// Calls `+` of `rustc_apfloat::ieee::Double`, which adds with
/// `Float::add_r` and `Round::NearestTiesToEven`, on the two patterns, read
/// with `Float::from_bits` and written back with `Float::to_bits`. Nothing is
/// proved of the result; the contract only gives it its name.
#[verifier::external_body]
pub(crate) fn sum(l: u64, r: u64) -> (s: u64)
    ensures
        s == binary64_sum(l, r),
{
    let value = (Double::from_bits(l as u128) + Double::from_bits(r as u128)).value;
    value.to_bits() as u64
}

/// Calls `-` of `rustc_apfloat::ieee::Double`, which subtracts with
/// `Float::sub_r` and `Round::NearestTiesToEven`, on the two patterns, read
/// with `Float::from_bits` and written back with `Float::to_bits`. Nothing is
/// proved of the result; the contract only gives it its name.
#[verifier::external_body]
pub(crate) fn difference(l: u64, r: u64) -> (d: u64)
    ensures
        d == binary64_difference(l, r),
{
    let value = (Double::from_bits(l as u128) - Double::from_bits(r as u128)).value;
    value.to_bits() as u64
}

/// Calls `*` of `rustc_apfloat::ieee::Double`, which multiplies with
/// `Float::mul_r` and `Round::NearestTiesToEven`, on the two patterns, read
/// with `Float::from_bits` and written back with `Float::to_bits`. Nothing is
/// proved of the result; the contract only gives it its name.
#[verifier::external_body]
pub(crate) fn product(l: u64, r: u64) -> (p: u64)
    ensures
        p == binary64_product(l, r),
{
    let value = (Double::from_bits(l as u128) * Double::from_bits(r as u128)).value;
    value.to_bits() as u64
}

/// Calls `/` of `rustc_apfloat::ieee::Double`, which divides with
/// `Float::div_r` and `Round::NearestTiesToEven`, on the two patterns, read
/// with `Float::from_bits` and written back with `Float::to_bits`. Nothing is
/// proved of the result; the contract only gives it its name.
#[verifier::external_body]
pub(crate) fn quotient(l: u64, r: u64) -> (q: u64)
    ensures
        q == binary64_quotient(l, r),
{
    let value = (Double::from_bits(l as u128) / Double::from_bits(r as u128)).value;
    value.to_bits() as u64
}

/// Whether the magnitude of `bits` is below the smallest positive number
/// there is: the value is a zero, of either sign. Positive patterns are
/// ordered as the numbers they stand for, and every NaN lies above infinity,
/// so no subnormal number, no infinity and no NaN is below it.
pub open spec fn below_smallest_positive(bits: u64) -> bool {
    (bits & MAGNITUDE_MASK) < SMALLEST_POSITIVE
}

/// The magnitude is below the smallest positive number exactly where the
/// pattern is that of a zero: all bits but the sign are clear, and so are
/// the exponent field and the fraction.
pub proof fn lemma_below_smallest_positive_is_zero(bits: u64)
    ensures
        below_smallest_positive(bits) <==> (bits == ZERO || bits == SIGN_BIT),
        below_smallest_positive(bits) <==> (exponent_field(bits) == 0 && fraction_field(bits)
            == 0),
{
    assert(((bits & 0x7FFF_FFFF_FFFF_FFFF) < 1) <==> (bits == 0 || bits
        == 0x8000_0000_0000_0000)) by (bit_vector);
    assert(((bits & 0x7FFF_FFFF_FFFF_FFFF) < 1) <==> ((bits / 0x0010_0000_0000_0000) % 2048 == 0
        && bits % 0x0010_0000_0000_0000 == 0)) by (bit_vector);
}

/// Tests `below_smallest_positive` on the pattern.
pub fn is_below_smallest_positive(bits: u64) -> (below: bool)
    ensures
        below == below_smallest_positive(bits),
{
    (bits & MAGNITUDE_MASK) < SMALLEST_POSITIVE
}

/// The largest `k` such that two to the power `k` is at most `m`; zero for
/// zero.
pub open spec fn floor_log2(m: nat) -> nat
    decreases m,
{
    if m < 2 {
        0
    } else {
        1 + floor_log2(m / 2)
    }
}

/// The pattern of the integer `n`, for `n` of magnitude below two to the
/// power 53, where the pattern stands for `n` exactly. With `k` the position
/// of the highest set bit of the magnitude `m`, the biased exponent is
/// `1023 + k` and the fraction is `m` without that bit, moved up to the top of
/// the 52 fraction bits. Zero has the pattern of positive zero.
pub open spec fn integer_bits(n: int) -> u64 {
    let m = (if n < 0 { -n } else { n }) as nat;
    let k = floor_log2(m);
    let sign = if n < 0 { SIGN_BIT as int } else { 0 };
    if n == 0 {
        ZERO
    } else {
        (sign + (EXPONENT_BIAS + k) * pow2(52) + (m - pow2(k)) * pow2((52 - k) as nat)) as u64
    }
}

proof fn lemma_floor_log2_between(m: nat, k: nat)
    requires
        pow2(k) <= m < pow2(k + 1),
    ensures
        floor_log2(m) == k,
    decreases k,
{
    lemma2_to64();
    if k == 0 {
    } else {
        lemma_pow2_unfold(k);
        lemma_pow2_unfold(k + 1);
        lemma_floor_log2_between(m / 2, (k - 1) as nat);
    }
}

proof fn lemma_floor_log2_bounds(m: nat)
    requires
        m >= 1,
    ensures
        pow2(floor_log2(m)) <= m < pow2(floor_log2(m) + 1),
    decreases m,
{
    lemma2_to64();
    if m >= 2 {
        lemma_floor_log2_bounds(m / 2);
        lemma_pow2_unfold(floor_log2(m));
        lemma_pow2_unfold(floor_log2(m) + 1);
    }
}

/// The pattern of a small integer stands for that integer: it has the
/// integer's sign, and its mantissa, the hidden bit and the fraction, is the
/// integer's magnitude moved up by as many bits as its exponent field lies
/// below 1075, which is the field of the numbers whose last mantissa bit is
/// worth one.
pub proof fn lemma_integer_bits_exact(n: int)
    requires
        -128 <= n <= 127,
        n != 0,
    ensures
        (integer_bits(n) >= SIGN_BIT) == (n < 0),
        EXPONENT_BIAS <= exponent_field(integer_bits(n)) <= EXPONENT_BIAS + 7,
        HIDDEN_BIT + fraction_field(integer_bits(n)) == (if n < 0 { -n } else { n }) * pow2(
            (EXPONENT_BIAS + 52 - exponent_field(integer_bits(n))) as nat,
        ),
{
    let m = (if n < 0 { -n } else { n }) as nat;
    let k = floor_log2(m);
    let sign: int = if n < 0 { SIGN_BIT as int } else { 0 };
    lemma_floor_log2_bounds(m);
    lemma2_to64();
    lemma2_to64_rest();
    assert(k <= 7) by {
        if k >= 8 {
            vstd::arithmetic::power2::lemma_pow2_strictly_increases(7, k);
        }
    }
    let up = pow2((52 - k) as nat) as int;
    let top = pow2(k) as int;
    lemma_pow2_adds(k, (52 - k) as nat);
    assert(top * up == 0x0010_0000_0000_0000);
    vstd::arithmetic::power2::lemma_pow2_pos((52 - k) as nat);
    let fraction = (m - top) * up;
    assert(0 <= fraction < 0x0010_0000_0000_0000 && 0x0010_0000_0000_0000 + fraction == m * up)
        by (nonlinear_arith)
        requires
            top * up == 0x0010_0000_0000_0000,
            top <= m < 2 * top,
            up > 0,
            fraction == (m - top) * up,
    ;
    let field: int = 1023 + k as int;
    let total = sign + field * 0x0010_0000_0000_0000 + fraction;
    assert(field * 0x0010_0000_0000_0000 <= 1030 * 0x0010_0000_0000_0000);
    assert(integer_bits(n) == total);
    let bits = integer_bits(n);
    let whole: int = if n < 0 { 2048 + field } else { field };
    assert(total == whole * 0x0010_0000_0000_0000 + fraction);
    vstd::arithmetic::div_mod::lemma_fundamental_div_mod_converse(
        bits as int,
        0x0010_0000_0000_0000,
        whole,
        fraction,
    );
}

/// The pattern of a small integer, computed without rounding.
pub fn from_integer(n: i8) -> (bits: u64)
    ensures
        bits == integer_bits(n as int),
{
    if n == 0 {
        return ZERO;
    }
    let sign: u64 = if n < 0 { SIGN_BIT } else { 0 };
    let magnitude: u64 = if n < 0 { (-(n as i16)) as u64 } else { n as u64 };
    let mut power: u64 = 1;
    let mut exponent: u64 = 0;
    proof {
        lemma2_to64();
    }
    while magnitude / 2 >= power
        invariant
            1 <= magnitude <= 128,
            power == pow2(exponent as nat),
            power <= magnitude,
            exponent <= 7,
        decreases magnitude - power,
    {
        proof {
            lemma_pow2_unfold((exponent + 1) as nat);
            lemma2_to64();
        }
        power = power * 2;
        exponent = exponent + 1;
    }
    let scale: u64 = HIDDEN_BIT / power;
    proof {
        lemma2_to64();
        lemma2_to64_rest();
        lemma_pow2_unfold((exponent + 1) as nat);
        lemma_floor_log2_between(magnitude as nat, exponent as nat);
        lemma_pow2_adds(exponent as nat, (52 - exponent) as nat);
        assert(pow2(exponent as nat) * pow2((52 - exponent) as nat) == HIDDEN_BIT);
        assert(scale == pow2((52 - exponent) as nat)) by (nonlinear_arith)
            requires
                power * pow2((52 - exponent) as nat) == HIDDEN_BIT,
                scale == HIDDEN_BIT / power,
                power > 0,
        ;
        assert((magnitude - power) * scale < HIDDEN_BIT) by (nonlinear_arith)
            requires
                power * scale == HIDDEN_BIT,
                power <= magnitude < 2 * power,
                scale > 0,
        ;
    }
    sign + (EXPONENT_BIAS + exponent) * HIDDEN_BIT + (magnitude - power) * scale
}

} // verus!
