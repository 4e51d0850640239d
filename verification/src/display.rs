//! How a decimal is written out: in plain positional notation, with no
//! exponent, no superfluous zero and a point only before a fraction.

use crate::decimal::{
    are_digits, digit_at, digits_value, lemma_place, lemma_pow10_increases, lemma_pow10_positive,
    lemma_value_below, pow10,
};
use vstd::arithmetic::div_mod::{
    lemma_basic_div, lemma_fundamental_div_mod, lemma_fundamental_div_mod_converse,
    lemma_small_mod,
};
use vstd::prelude::*;

verus! {

/// `String::push` appends the character to the end of the string.
pub assume_specification[ String::push ](text: &mut String, c: char)
    ensures
        final(text)@ == old(text)@.push(c),
;

/// The character of a decimal digit.
pub open spec fn digit_char(digit: nat) -> char {
    (digit + 48) as char
}

/// A natural number in decimal, without leading zeros; zero is `0`.
pub open spec fn natural_text(n: nat) -> Seq<char>
    decreases n,
{
    if n < 10 {
        seq![digit_char(n)]
    } else {
        natural_text(n / 10).push(digit_char(n % 10))
    }
}

/// The digits after the decimal point of `part` counted in units of ten to
/// the power minus `places`, for `part` below one: as many digits as it
/// takes, with no zero at the end, none at all for zero.
pub open spec fn fraction_text(part: nat, places: nat) -> Seq<char>
    decreases places,
{
    if part == 0 || places == 0 {
        Seq::empty()
    } else {
        seq![digit_char(part / pow10((places - 1) as nat))] + fraction_text(
            part % pow10((places - 1) as nat),
            (places - 1) as nat,
        )
    }
}

/// The number `count` times ten to the power minus `places`, written out:
/// the whole part, and behind a point the fraction where there is one.
pub open spec fn decimal_text(count: nat, places: nat) -> Seq<char> {
    let whole = count / pow10(places);
    let part = count % pow10(places);
    if part == 0 {
        natural_text(whole)
    } else {
        natural_text(whole) + seq!['.'] + fraction_text(part, places)
    }
}

fn digit_to_char(digit: u8) -> (c: char)
    requires
        digit < 10,
    ensures
        c == digit_char(digit as nat),
{
    (digit + 48) as char
}

/// The remainder by a power of ten does not shrink as the power grows.
proof fn lemma_remainder_grows(digits: Seq<u8>, from: nat, to: nat)
    requires
        are_digits(digits),
        from <= to,
    ensures
        digits_value(digits) % pow10(from) <= digits_value(digits) % pow10(to),
    decreases to - from,
{
    if from < to {
        lemma_place(digits, from);
        lemma_pow10_positive(from);
        assert(digit_at(digits, from as int) * pow10(from) >= 0) by (nonlinear_arith)
            requires
                digit_at(digits, from as int) >= 0,
                pow10(from) > 0,
        ;
        lemma_remainder_grows(digits, from + 1, to);
    }
}

/// Appends the whole part of the number to `text`.
fn push_whole(text: &mut String, digits: &Vec<u8>, places: usize)
    requires
        are_digits(digits@),
    ensures
        final(text)@ == old(text)@ + natural_text(digits_value(digits@) / pow10(places as nat)),
{
    let ghost value = digits_value(digits@);
    let ghost start = text@;
    let mut top: usize = digits.len();
    proof {
        lemma_value_below(digits@);
        lemma_basic_div(value as int, pow10(top as nat) as int);
    }
    while top > places && digits[top - 1] == 0
        invariant
            top <= digits.len(),
            are_digits(digits@),
            value == digits_value(digits@),
            value / pow10(top as nat) == 0,
        decreases top,
    {
        proof {
            lemma_place(digits@, (top - 1) as nat);
        }
        top = top - 1;
    }
    if top <= places {
        proof {
            lemma_pow10_positive(top as nat);
            lemma_pow10_increases(top as nat, places as nat);
            lemma_fundamental_div_mod(value as int, pow10(top as nat) as int);
            lemma_place(digits@, top as nat);
            assert(pow10(top as nat) * 0 == 0);
            assert(value < pow10(places as nat));
            lemma_basic_div(value as int, pow10(places as nat) as int);
        }
        text.push('0');
        return ;
    }
    let mut i: usize = top - 1;
    proof {
        lemma_place(digits@, i as nat);
    }
    text.push(digit_to_char(digits[i]));
    while i > places
        invariant
            places <= i < digits.len(),
            are_digits(digits@),
            value == digits_value(digits@),
            value / pow10(i as nat) > 0,
            text@ == start + natural_text(value / pow10(i as nat)),
        decreases i,
    {
        i = i - 1;
        proof {
            lemma_place(digits@, i as nat);
            let above = value / pow10((i + 1) as nat);
            let here = value / pow10(i as nat);
            assert(here == above * 10 + digits@[i as int]);
            assert(here / 10 == above);
            assert(here % 10 == digits@[i as int]);
            assert(start + natural_text(above).push(digit_char(digits@[i as int] as nat)) =~= (start
                + natural_text(above)).push(digit_char(digits@[i as int] as nat)));
        }
        text.push(digit_to_char(digits[i]));
    }
}

/// Appends the point and the digits behind it, where the number has a
/// fraction.
fn push_fraction(text: &mut String, digits: &Vec<u8>, places: usize)
    requires
        are_digits(digits@),
    ensures
        final(text)@ == old(text)@ + (if digits_value(digits@) % pow10(places as nat) == 0 {
            Seq::<char>::empty()
        } else {
            seq!['.'] + fraction_text(digits_value(digits@) % pow10(places as nat), places as nat)
        }),
{
    let ghost value = digits_value(digits@);
    let ghost part = value % pow10(places as nat);
    let ghost start = text@;
    let limit: usize = if places < digits.len() { places } else { digits.len() };
    let mut bottom: usize = 0;
    proof {
        assert(pow10(0) == 1);
        assert(value % 1 == 0);
    }
    while bottom < limit && digits[bottom] == 0
        invariant
            bottom <= limit,
            limit <= digits.len(),
            are_digits(digits@),
            value == digits_value(digits@),
            value % pow10(bottom as nat) == 0,
        decreases limit - bottom,
    {
        proof {
            lemma_place(digits@, bottom as nat);
            assert(0 * pow10(bottom as nat) == 0);
        }
        bottom = bottom + 1;
    }
    if bottom == limit {
        proof {
            if limit < places {
                lemma_value_below(digits@);
                lemma_pow10_positive(limit as nat);
                lemma_small_mod(value, pow10(limit as nat));
                lemma_pow10_positive(places as nat);
                lemma_small_mod(value, pow10(places as nat));
            }
            assert(part == 0);
            assert(start + Seq::<char>::empty() =~= start);
        }
        return ;
    }
    proof {
        lemma_place(digits@, bottom as nat);
        lemma_pow10_positive(bottom as nat);
        assert(digits@[bottom as int] * pow10(bottom as nat) > 0) by (nonlinear_arith)
            requires
                digits@[bottom as int] > 0,
                pow10(bottom as nat) > 0,
        ;
        lemma_remainder_grows(digits@, (bottom + 1) as nat, places as nat);
        assert(part > 0);
    }
    text.push('.');
    let mut k: usize = places;
    proof {
        assert(text@ + fraction_text(part, places as nat) =~= start + (seq!['.'] + fraction_text(
            part,
            places as nat,
        )));
    }
    while k > bottom
        invariant
            bottom <= k <= places,
            bottom < digits.len(),
            are_digits(digits@),
            value == digits_value(digits@),
            part == value % pow10(places as nat),
            value % pow10((bottom + 1) as nat) > 0,
            text@ + fraction_text(value % pow10(k as nat), k as nat) == start + (seq!['.']
                + fraction_text(part, places as nat)),
        decreases k,
    {
        let ghost before = text@;
        k = k - 1;
        let digit: u8 = if k < digits.len() { digits[k] } else { 0 };
        proof {
            let weight = pow10(k as nat);
            let lower = value % weight;
            let upper = value % pow10((k + 1) as nat);
            lemma_place(digits@, k as nat);
            lemma_pow10_positive(k as nat);
            lemma_remainder_grows(digits@, (bottom + 1) as nat, (k + 1) as nat);
            assert(upper == lower + digit * weight);
            assert(digit * weight == weight * digit) by (nonlinear_arith);
            lemma_fundamental_div_mod_converse(
                upper as int,
                weight as int,
                digit as int,
                lower as int,
            );
            assert(fraction_text(upper, (k + 1) as nat) == seq![digit_char(digit as nat)]
                + fraction_text(lower, k as nat));
            assert(before.push(digit_char(digit as nat)) + fraction_text(lower, k as nat)
                =~= before + fraction_text(upper, (k + 1) as nat));
        }
        text.push(digit_to_char(digit));
    }
    proof {
        assert(fraction_text(0, k as nat) =~= Seq::<char>::empty());
        assert(text@ + Seq::<char>::empty() =~= text@);
    }
}

/// Appends to `text` the number that the digits spell, times ten to the
/// power minus `places`, written out.
pub fn push_decimal(text: &mut String, digits: &Vec<u8>, places: usize)
    requires
        are_digits(digits@),
    ensures
        final(text)@ == old(text)@ + decimal_text(digits_value(digits@), places as nat),
{
    let ghost start = text@;
    push_whole(text, digits, places);
    push_fraction(text, digits, places);
    proof {
        let whole = natural_text(digits_value(digits@) / pow10(places as nat));
        let part = digits_value(digits@) % pow10(places as nat);
        assert(start + whole + Seq::<char>::empty() =~= start + whole);
        assert(start + whole + (seq!['.'] + fraction_text(part, places as nat)) =~= start + (whole
            + seq!['.'] + fraction_text(part, places as nat)));
    }
}

} // verus!
