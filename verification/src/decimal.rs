//! Natural numbers of any size as vectors of decimal digits, the lowest digit
//! first.

use vstd::arithmetic::div_mod::{
    lemma_basic_div, lemma_div_is_ordered, lemma_fundamental_div_mod_converse, lemma_small_mod,
};
use vstd::prelude::*;

verus! {

/// The largest factor that `times` takes: ten times it still fits 64 bits.
pub const MAX_FACTOR: u64 = 0x0FFF_FFFF_FFFF_FFFF;

/// Ten to the power `n`.
pub open spec fn pow10(n: nat) -> nat
    decreases n,
{
    if n == 0 {
        1
    } else {
        10 * pow10((n - 1) as nat)
    }
}

/// `base` to the power `exponent`.
pub open spec fn power(base: nat, exponent: nat) -> nat
    decreases exponent,
{
    if exponent == 0 {
        1
    } else {
        base * power(base, (exponent - 1) as nat)
    }
}

/// Whether every element is a decimal digit.
pub open spec fn are_digits(digits: Seq<u8>) -> bool {
    forall|i: int| 0 <= i < digits.len() ==> digits[i] < 10
}

/// The number that the digits spell, the lowest digit first.
pub open spec fn digits_value(digits: Seq<u8>) -> nat
    decreases digits.len(),
{
    if digits.len() == 0 {
        0
    } else {
        digits_value(digits.drop_last()) + digits.last() as nat * pow10((digits.len() - 1) as nat)
    }
}

/// Every power of ten is positive.
pub proof fn lemma_pow10_positive(n: nat)
    ensures
        pow10(n) > 0,
    decreases n,
{
    if n > 0 {
        lemma_pow10_positive((n - 1) as nat);
    }
}

/// Powers of ten multiply as their exponents add.
pub proof fn lemma_pow10_adds(a: nat, b: nat)
    ensures
        pow10(a + b) == pow10(a) * pow10(b),
    decreases b,
{
    if b == 0 {
        assert(pow10(a) * 1 == pow10(a));
    } else {
        let less = (b - 1) as nat;
        lemma_pow10_adds(a, less);
        let x = pow10(a);
        let y = pow10(less);
        assert((a + b - 1) as nat == a + less);
        assert(pow10(a + b) == 10 * pow10((a + b - 1) as nat));
        assert(pow10(b) == 10 * y);
        assert(10 * (x * y) == x * (10 * y)) by (nonlinear_arith);
    }
}

/// A higher power of ten is not the smaller one.
pub proof fn lemma_pow10_increases(a: nat, b: nat)
    requires
        a <= b,
    ensures
        pow10(a) <= pow10(b),
    decreases b,
{
    if a < b {
        lemma_pow10_increases(a, (b - 1) as nat);
    }
}

/// Digits spell a number below ten to the power of their count.
pub proof fn lemma_value_below(digits: Seq<u8>)
    requires
        are_digits(digits),
    ensures
        digits_value(digits) < pow10(digits.len()),
    decreases digits.len(),
{
    if digits.len() > 0 {
        lemma_value_below(digits.drop_last());
        let weight = pow10((digits.len() - 1) as nat);
        assert(digits.last() as nat * weight <= 9 * weight) by (nonlinear_arith)
            requires
                digits.last() <= 9,
        ;
    }
}

/// One more digit on top adds that digit at its place.
pub proof fn lemma_value_push(digits: Seq<u8>, digit: u8)
    ensures
        digits_value(digits.push(digit)) == digits_value(digits) + digit as nat * pow10(
            digits.len(),
        ),
{
    assert(digits.push(digit).drop_last() =~= digits);
}

/// The digits below place `at` spell the remainder by ten to the power `at`,
/// those from it upward the quotient.
pub proof fn lemma_value_split(digits: Seq<u8>, at: int)
    requires
        0 <= at <= digits.len(),
    ensures
        digits_value(digits) == digits_value(digits.take(at)) + pow10(at as nat) * digits_value(
            digits.skip(at),
        ),
    decreases digits.len(),
{
    if at == digits.len() {
        assert(digits.take(at) =~= digits);
        assert(digits.skip(at) =~= Seq::<u8>::empty());
        assert(pow10(at as nat) * 0 == 0);
    } else {
        let shorter = digits.drop_last();
        let upper = digits.skip(at);
        lemma_value_split(shorter, at);
        assert(shorter.take(at) =~= digits.take(at));
        assert(shorter.skip(at) =~= upper.drop_last());
        let top = digits.last() as nat;
        let above = (digits.len() - 1 - at) as nat;
        assert(upper.last() == digits.last());
        assert(upper.len() - 1 == above);
        assert(digits_value(upper) == digits_value(upper.drop_last()) + top * pow10(above));
        assert(digits_value(digits) == digits_value(shorter) + top * pow10(
            (digits.len() - 1) as nat,
        ));
        lemma_pow10_adds(at as nat, above);
        assert(at as nat + above == digits.len() - 1);
        assert(pow10(at as nat) * (digits_value(upper.drop_last()) + top * pow10(above)) == pow10(
            at as nat,
        ) * digits_value(upper.drop_last()) + top * (pow10(at as nat) * pow10(above)))
            by (nonlinear_arith);
    }
}

/// The product of a number and a factor.
pub fn times(digits: &Vec<u8>, factor: u64) -> (product: Vec<u8>)
    requires
        are_digits(digits@),
        factor <= MAX_FACTOR,
    ensures
        are_digits(product@),
        digits_value(product@) == digits_value(digits@) * factor,
        product.len() <= digits.len() + 19,
{
    let mut product: Vec<u8> = Vec::new();
    let mut carry: u64 = 0;
    let mut i: usize = 0;
    proof {
        assert(digits@.take(0) =~= Seq::<u8>::empty());
        assert(digits_value(digits@.take(0)) == 0);
        assert(digits_value(product@) == 0);
        assert(0 * factor == 0);
        assert(carry * pow10(0) == 0);
    }
    while i < digits.len()
        invariant
            i <= digits.len(),
            are_digits(digits@),
            are_digits(product@),
            product.len() == i,
            carry <= factor <= MAX_FACTOR,
            digits_value(product@) + carry * pow10(i as nat) == digits_value(
                digits@.take(i as int),
            ) * factor,
        decreases digits.len() - i,
    {
        let digit = digits[i];
        assert(digit as u64 * factor <= 9 * factor) by (nonlinear_arith)
            requires
                digit <= 9,
        ;
        let total: u64 = digit as u64 * factor + carry;
        proof {
            let below = digits@.take(i as int);
            let weight = pow10(i as nat);
            assert(digits@.take(i + 1).drop_last() =~= below);
            lemma_value_push(product@, (total % 10) as u8);
            assert((total % 10) * weight + (total / 10) * (10 * weight) == total * weight)
                by (nonlinear_arith);
            assert(total * weight == digit * factor * weight + carry * weight)
                by (nonlinear_arith)
                requires
                    total == digit * factor + carry,
            ;
            assert((digits_value(below) + digit * weight) * factor == digits_value(below) * factor
                + digit * factor * weight) by (nonlinear_arith);
        }
        product.push((total % 10) as u8);
        carry = total / 10;
        i = i + 1;
    }
    assert(digits@.take(i as int) =~= digits@);
    let ghost mut extra: nat = 0;
    proof {
        reveal_with_fuel(pow10, 20);
        assert(pow10(19) == 10_000_000_000_000_000_000);
    }
    while carry > 0
        invariant
            are_digits(product@),
            digits_value(product@) + carry * pow10(product.len() as nat) == digits_value(
                digits@,
            ) * factor,
            extra <= 19,
            product.len() == digits.len() + extra,
            carry < pow10((19 - extra) as nat),
        decreases carry,
    {
        proof {
            let weight = pow10(product.len() as nat);
            lemma_value_push(product@, (carry % 10) as u8);
            assert((carry % 10) * weight + (carry / 10) * (10 * weight) == carry * weight)
                by (nonlinear_arith);
            assert(extra < 19) by {
                if extra == 19 {
                    assert(pow10(0) == 1);
                }
            }
            assert(pow10((19 - extra) as nat) == 10 * pow10((18 - extra) as nat));
            extra = extra + 1;
        }
        product.push((carry % 10) as u8);
        carry = carry / 10;
    }
    product
}

/// The digits of `base` to the power `exponent`.
pub fn power_digits(base: u64, exponent: u64) -> (digits: Vec<u8>)
    requires
        base <= MAX_FACTOR,
    ensures
        are_digits(digits@),
        digits_value(digits@) == power(base as nat, exponent as nat),
        digits.len() <= 1 + 19 * exponent,
{
    let mut digits: Vec<u8> = Vec::new();
    digits.push(1);
    assert(digits@ =~= seq![1u8]);
    assert(digits_value(seq![1u8].drop_last()) == 0);
    let mut done: u64 = 0;
    while done < exponent
        invariant
            done <= exponent,
            base <= MAX_FACTOR,
            are_digits(digits@),
            digits_value(digits@) == power(base as nat, done as nat),
            digits.len() <= 1 + 19 * done,
        decreases exponent - done,
    {
        digits = times(&digits, base);
        done = done + 1;
        assert(power(base as nat, done as nat) == base * power(base as nat, (done - 1) as nat));
        assert(digits_value(digits@) == power(base as nat, done as nat)) by (nonlinear_arith)
            requires
                digits_value(digits@) == power(base as nat, (done - 1) as nat) * base,
                power(base as nat, done as nat) == base * power(base as nat, (done - 1) as nat),
        ;
    }
    digits
}

/// The digit at place `at`, the places counted from zero at the lowest digit;
/// zero above the highest digit.
pub open spec fn digit_at(digits: Seq<u8>, at: int) -> nat {
    if 0 <= at < digits.len() {
        digits[at] as nat
    } else {
        0
    }
}

/// Under the highest digit, the digits below a place spell the remainder by
/// its power of ten, those from it upward the quotient.
pub proof fn lemma_value_parts(digits: Seq<u8>, at: int)
    requires
        are_digits(digits),
        0 <= at <= digits.len(),
    ensures
        digits_value(digits) % pow10(at as nat) == digits_value(digits.take(at)),
        digits_value(digits) / pow10(at as nat) == digits_value(digits.skip(at)),
{
    lemma_value_split(digits, at);
    lemma_value_below(digits.take(at));
    lemma_pow10_positive(at as nat);
    let weight = pow10(at as nat) as int;
    let high = digits_value(digits.skip(at)) as int;
    let low = digits_value(digits.take(at)) as int;
    assert(weight * high == high * weight) by (nonlinear_arith);
    lemma_fundamental_div_mod_converse(digits_value(digits) as int, weight, high, low);
}

/// What one place adds: to the remainder by the next power of ten, its digit
/// at its weight; to the quotient by its own power, its digit as the lowest.
pub proof fn lemma_place(digits: Seq<u8>, at: nat)
    requires
        are_digits(digits),
    ensures
        digits_value(digits) % pow10(at + 1) == digits_value(digits) % pow10(at) + digit_at(
            digits,
            at as int,
        ) * pow10(at),
        digits_value(digits) / pow10(at) == (digits_value(digits) / pow10(at + 1)) * 10
            + digit_at(digits, at as int),
        digits_value(digits) % pow10(at) < pow10(at),
{
    let value = digits_value(digits);
    let weight = pow10(at);
    lemma_pow10_positive(at);
    assert(pow10(at + 1) == 10 * weight);
    if at < digits.len() {
        let here = at as int;
        let digit = digits[here] as nat;
        lemma_value_parts(digits, here);
        lemma_value_parts(digits, here + 1);
        assert(digits.take(here + 1).drop_last() =~= digits.take(here));
        let low = digits_value(digits.take(here));
        let high = digits_value(digits.skip(here));
        let higher = digits_value(digits.skip(here + 1));
        lemma_value_split(digits, here);
        lemma_value_split(digits, here + 1);
        lemma_value_below(digits.take(here));
        let upto = digits.take(here + 1);
        assert(upto.last() == digits[here]);
        assert(upto.len() - 1 == at);
        assert(digits_value(upto) == low + digit * weight);
        assert((here + 1) as nat == at + 1);
        assert(high == higher * 10 + digit) by (nonlinear_arith)
            requires
                value == low + weight * high,
                value == low + digit * weight + (10 * weight) * higher,
                weight > 0,
        ;
    } else {
        lemma_value_below(digits);
        lemma_pow10_increases(digits.len(), at);
        lemma_small_mod(value, weight);
        lemma_small_mod(value, 10 * weight);
        lemma_basic_div(value as int, weight as int);
        lemma_basic_div(value as int, (10 * weight) as int);
        assert(digit_at(digits, at as int) == 0);
        assert(0 * weight == 0);
    }
}

/// Whether the first number is below the second.
pub fn less(a: &Vec<u8>, b: &Vec<u8>) -> (below: bool)
    requires
        are_digits(a@),
        are_digits(b@),
    ensures
        below == (digits_value(a@) < digits_value(b@)),
{
    let mut i: usize = if a.len() > b.len() { a.len() } else { b.len() };
    proof {
        lemma_value_below(a@);
        lemma_value_below(b@);
        lemma_pow10_increases(a@.len(), i as nat);
        lemma_pow10_increases(b@.len(), i as nat);
        lemma_basic_div(digits_value(a@) as int, pow10(i as nat) as int);
        lemma_basic_div(digits_value(b@) as int, pow10(i as nat) as int);
    }
    while i > 0
        invariant
            are_digits(a@),
            are_digits(b@),
            digits_value(a@) / pow10(i as nat) == digits_value(b@) / pow10(i as nat),
        decreases i,
    {
        i = i - 1;
        let in_a: u8 = if i < a.len() { a[i] } else { 0 };
        let in_b: u8 = if i < b.len() { b[i] } else { 0 };
        proof {
            lemma_place(a@, i as nat);
            lemma_place(b@, i as nat);
            lemma_pow10_positive(i as nat);
        }
        if in_a != in_b {
            proof {
                let weight = pow10(i as nat) as int;
                if digits_value(b@) <= digits_value(a@) {
                    lemma_div_is_ordered(digits_value(b@) as int, digits_value(a@) as int, weight);
                }
                if digits_value(a@) <= digits_value(b@) {
                    lemma_div_is_ordered(digits_value(a@) as int, digits_value(b@) as int, weight);
                }
            }
            return in_a < in_b;
        }
    }
    assert(pow10(0) == 1);
    assert(digits_value(a@) / 1 == digits_value(a@));
    assert(digits_value(b@) / 1 == digits_value(b@));
    false
}

/// The number rounded down to a multiple of ten to the power `place`: the
/// digits below that place become zero.
pub fn round_down(digits: &Vec<u8>, place: usize) -> (rounded: Vec<u8>)
    requires
        are_digits(digits@),
    ensures
        are_digits(rounded@),
        digits_value(rounded@) == digits_value(digits@) - digits_value(digits@) % pow10(
            place as nat,
        ),
{
    let mut rounded: Vec<u8> = Vec::new();
    let mut i: usize = 0;
    let ghost value = digits_value(digits@) as int;
    let ghost dropped = (digits_value(digits@) % pow10(place as nat)) as int;
    while i < digits.len()
        invariant
            i <= digits.len(),
            rounded.len() == i,
            are_digits(digits@),
            are_digits(rounded@),
            value == digits_value(digits@),
            dropped == digits_value(digits@) % pow10(place as nat),
            i <= place ==> digits_value(rounded@) == 0,
            i > place ==> digits_value(rounded@) + dropped == value % (pow10(i as nat) as int),
        decreases digits.len() - i,
    {
        let kept: u8 = if i < place { 0 } else { digits[i] };
        proof {
            let weight = pow10(i as nat) as int;
            let before = digits_value(rounded@) as int;
            let after = digits_value(rounded@.push(kept)) as int;
            let next = value % (pow10((i + 1) as nat) as int);
            let digit = digits@[i as int] as int;
            lemma_place(digits@, i as nat);
            lemma_value_push(rounded@, kept);
            assert(digit_at(digits@, i as int) == digit);
            assert(next == value % weight + digit * weight);
            assert(after == before + (kept as int) * weight);
            if i < place {
                assert((kept as int) * weight == 0) by (nonlinear_arith)
                    requires
                        kept == 0,
                ;
                assert(after == 0);
            } else {
                assert(kept as int == digit);
                assert(after == before + digit * weight);
                if i == place {
                    assert(after + dropped == next);
                } else {
                    assert(before + dropped == value % weight);
                    assert(after + dropped == next);
                }
            }
        }
        rounded.push(kept);
        i = i + 1;
    }
    proof {
        lemma_value_below(digits@);
        lemma_pow10_positive(digits@.len());
        lemma_small_mod(value as nat, pow10(digits@.len()));
        if place >= digits.len() {
            lemma_pow10_increases(digits@.len(), place as nat);
            lemma_pow10_positive(place as nat);
            lemma_small_mod(value as nat, pow10(place as nat));
        }
    }
    rounded
}

/// The number plus ten to the power `place`.
pub fn add_power(digits: &Vec<u8>, place: usize) -> (sum: Vec<u8>)
    requires
        are_digits(digits@),
        place < usize::MAX,
    ensures
        are_digits(sum@),
        digits_value(sum@) == digits_value(digits@) + pow10(place as nat),
{
    let count: usize = if digits.len() > place { digits.len() } else { place + 1 };
    let mut sum: Vec<u8> = Vec::new();
    let mut carry: u8 = 0;
    let mut i: usize = 0;
    proof {
        assert(pow10(0) == 1);
        assert(digits_value(sum@) == 0);
        assert(digits_value(digits@) % 1 == 0);
        assert(0 * pow10(0) == 0);
    }
    while i < count
        invariant
            i <= count,
            count > place,
            count >= digits.len(),
            sum.len() == i,
            carry <= 1,
            i <= place ==> carry == 0,
            are_digits(digits@),
            are_digits(sum@),
            digits_value(sum@) + carry * pow10(i as nat) == digits_value(digits@) % pow10(
                i as nat,
            ) + (if i > place { pow10(place as nat) } else { 0 }),
        decreases count - i,
    {
        let digit: u8 = if i < digits.len() { digits[i] } else { 0 };
        let extra: u8 = if i == place { 1 } else { 0 };
        let total: u8 = digit + carry + extra;
        proof {
            let weight = pow10(i as nat);
            lemma_place(digits@, i as nat);
            lemma_value_push(sum@, (total % 10) as u8);
            assert(pow10((i + 1) as nat) == 10 * weight);
            assert((total % 10) * weight + (total / 10) * (10 * weight) == total * weight)
                by (nonlinear_arith);
            assert(total * weight == digit * weight + carry * weight + extra * weight)
                by (nonlinear_arith)
                requires
                    total == digit + carry + extra,
            ;
            assert(1 * weight == weight);
            assert(0 * weight == 0);
        }
        sum.push(total % 10);
        carry = total / 10;
        i = i + 1;
    }
    proof {
        let value = digits_value(digits@);
        lemma_value_below(digits@);
        lemma_pow10_increases(digits@.len(), count as nat);
        lemma_pow10_positive(count as nat);
        lemma_small_mod(value, pow10(count as nat));
        assert(1 * pow10(count as nat) == pow10(count as nat));
        assert(0 * pow10(count as nat) == 0);
    }
    if carry > 0 {
        proof {
            lemma_value_push(sum@, 1);
        }
        sum.push(1);
    }
    sum
}

/// Whether what `round_down` drops at `place` is at least half of ten to the
/// power `place`.
pub fn at_least_half(digits: &Vec<u8>, place: usize) -> (half: bool)
    requires
        are_digits(digits@),
    ensures
        half == (2 * (digits_value(digits@) % pow10(place as nat)) >= pow10(place as nat)),
{
    if place == 0 {
        assert(pow10(0) == 1);
        assert(digits_value(digits@) % 1 == 0);
        return false;
    }
    let below: usize = place - 1;
    let digit: u8 = if below < digits.len() { digits[below] } else { 0 };
    proof {
        let weight = pow10(below as nat);
        let rest = digits_value(digits@) % weight;
        lemma_place(digits@, below as nat);
        assert(pow10(place as nat) == 10 * weight);
        assert(digits_value(digits@) % pow10(place as nat) == rest + digit * weight);
        assert((2 * (rest + digit * weight) >= 10 * weight) == (digit >= 5)) by (nonlinear_arith)
            requires
                0 <= rest < weight,
                0 <= digit,
        ;
    }
    digit >= 5
}

} // verus!
