//! What is shown: each binary64 number as the shortest decimal that is rounded
//! back to it, and the calculator as one such line for each value.

use crate::binary64::{exponent_field, fraction_field, HIDDEN_BIT, SIGN_BIT};
use crate::decimal::{are_digits, digits_value, power, power_digits, times};
use crate::display::{decimal_text, push_decimal};
use crate::rpn_calc::{CalcState, RpnCalc};
use crate::shortest::{lemma_shortest_is_admitted, shortest_digits, Neighbourhood};
use vstd::prelude::*;

verus! {

/// The exponent field of all ones, which marks infinities and NaNs.
pub const SPECIAL_EXPONENT: u64 = 2047;

/// The biased exponent that gives a quarter of the last place of the mantissa
/// the weight one.
pub const QUARTER_BIAS: u64 = 1077;

/// The mantissa of a finite number as a whole number: the fraction, and for
/// a normal number the leading bit that its pattern leaves out.
pub open spec fn significand(bits: u64) -> nat {
    if exponent_field(bits) == 0 {
        fraction_field(bits)
    } else {
        HIDDEN_BIT as nat + fraction_field(bits)
    }
}

/// The biased exponent that applies: subnormal numbers share that of the
/// smallest normal ones.
pub open spec fn effective_exponent(bits: u64) -> nat {
    if exponent_field(bits) == 0 {
        1
    } else {
        exponent_field(bits)
    }
}

/// The number of decimal places in which the magnitude of a finite number and
/// the midpoints to its neighbours are whole numbers.
pub open spec fn decimal_places(bits: u64) -> nat {
    if effective_exponent(bits) >= QUARTER_BIAS {
        0
    } else {
        (QUARTER_BIAS - effective_exponent(bits)) as nat
    }
}

/// The magnitude of a finite number that is not zero, between the midpoints
/// to its two neighbours, counted in units of ten to the power minus
/// `decimal_places`. The magnitude is four times the significand times two to
/// the power of the effective exponent less 1077. The neighbour above is four
/// such quarters away, so the midpoint two. The neighbour below is as far,
/// but where the significand is a power of two it counts as half as far, its
/// midpoint one quarter away. The midpoints belong to the number where its
/// significand is even.
pub open spec fn neighbourhood(bits: u64) -> Neighbourhood {
    let quarters = 4 * significand(bits);
    let below: nat = if fraction_field(bits) == 0 && exponent_field(bits) >= 1 {
        1
    } else {
        2
    };
    let unit = if effective_exponent(bits) >= QUARTER_BIAS {
        power(2, (effective_exponent(bits) - QUARTER_BIAS) as nat)
    } else {
        power(5, (QUARTER_BIAS - effective_exponent(bits)) as nat)
    };
    Neighbourhood {
        low: ((quarters - below) * unit) as nat,
        value: quarters * unit,
        high: (quarters + 2) * unit,
        inclusive: significand(bits) % 2 == 0,
    }
}

/// The text of a binary64 number. A NaN is `NaN`, whatever its sign. Every
/// other number that has its sign bit set starts with `-`. Then comes `inf`
/// for an infinity and `0` for a zero. Any other number is written out in
/// plain decimal notation, with the fewest digits that still tell it from
/// its neighbours.
pub open spec fn binary64_text(bits: u64) -> Seq<char> {
    if exponent_field(bits) == SPECIAL_EXPONENT && fraction_field(bits) != 0 {
        seq!['N', 'a', 'N']
    } else {
        (if bits >= SIGN_BIT {
            seq!['-']
        } else {
            Seq::<char>::empty()
        }) + (if exponent_field(bits) == SPECIAL_EXPONENT {
            seq!['i', 'n', 'f']
        } else if significand(bits) == 0 {
            seq!['0']
        } else {
            decimal_text(neighbourhood(bits).shortest(), decimal_places(bits))
        })
    }
}

proof fn lemma_power_positive(base: nat, exponent: nat)
    requires
        base > 0,
    ensures
        power(base, exponent) > 0,
    decreases exponent,
{
    if exponent > 0 {
        lemma_power_positive(base, (exponent - 1) as nat);
        assert(base * power(base, (exponent - 1) as nat) > 0) by (nonlinear_arith)
            requires
                base > 0,
                power(base, (exponent - 1) as nat) > 0,
        ;
    }
}

/// For every finite number other than zero the bounds lie on either side of
/// its magnitude, so the decimal shown for it lies between them and none with
/// fewer digits does.
pub proof fn lemma_neighbourhood_wf(bits: u64)
    requires
        exponent_field(bits) != SPECIAL_EXPONENT,
        significand(bits) != 0,
    ensures
        neighbourhood(bits).wf(),
        neighbourhood(bits).admits(neighbourhood(bits).shortest()),
{
    let quarters = 4 * significand(bits);
    let below: nat = if fraction_field(bits) == 0 && exponent_field(bits) >= 1 {
        1
    } else {
        2
    };
    let unit = if effective_exponent(bits) >= QUARTER_BIAS {
        lemma_power_positive(2, (effective_exponent(bits) - QUARTER_BIAS) as nat);
        power(2, (effective_exponent(bits) - QUARTER_BIAS) as nat)
    } else {
        lemma_power_positive(5, (QUARTER_BIAS - effective_exponent(bits)) as nat);
        power(5, (QUARTER_BIAS - effective_exponent(bits)) as nat)
    };
    assert(0 < (quarters - below) * unit < quarters * unit < (quarters + 2) * unit)
        by (nonlinear_arith)
        requires
            unit > 0,
            0 < quarters - below < quarters,
    ;
    lemma_shortest_is_admitted(neighbourhood(bits));
}

/// Appends the text of a binary64 number to `text`.
pub fn push_binary64(text: &mut String, bits: u64)
    ensures
        final(text)@ == old(text)@ + binary64_text(bits),
{
    let ghost start = text@;
    let field: u64 = (bits / HIDDEN_BIT) % 2048;
    let fraction: u64 = bits % HIDDEN_BIT;
    if field == SPECIAL_EXPONENT && fraction != 0 {
        text.push('N');
        text.push('a');
        text.push('N');
        assert(text@ =~= start + seq!['N', 'a', 'N']);
        return ;
    }
    if bits >= SIGN_BIT {
        text.push('-');
    }
    let ghost signed = text@;
    if field == SPECIAL_EXPONENT {
        text.push('i');
        text.push('n');
        text.push('f');
        assert(text@ =~= start + binary64_text(bits));
        return ;
    }
    let mantissa: u64 = if field == 0 { fraction } else { HIDDEN_BIT + fraction };
    if mantissa == 0 {
        text.push('0');
        assert(text@ =~= start + binary64_text(bits));
        return ;
    }
    let below: u64 = if fraction == 0 && field >= 1 { 1 } else { 2 };
    let effective: u64 = if field == 0 { 1 } else { field };
    let quarters: u64 = 4 * mantissa;
    let unit: Vec<u8>;
    let places: usize;
    if effective >= QUARTER_BIAS {
        unit = power_digits(2, effective - QUARTER_BIAS);
        places = 0;
        proof {
            lemma_power_positive(2, (effective - QUARTER_BIAS) as nat);
        }
    } else {
        unit = power_digits(5, QUARTER_BIAS - effective);
        places = (QUARTER_BIAS - effective) as usize;
        proof {
            lemma_power_positive(5, (QUARTER_BIAS - effective) as nat);
        }
    }
    let low = times(&unit, quarters - below);
    let value = times(&unit, quarters);
    let high = times(&unit, quarters + 2);
    proof {
        let weight = digits_value(unit@) as int;
        assert(0 < (quarters - below) * weight < quarters * weight < (quarters + 2) * weight)
            by (nonlinear_arith)
            requires
                weight > 0,
                0 < quarters - below < quarters,
        ;
        assert(weight * (quarters - below) == (quarters - below) * weight) by (nonlinear_arith);
        assert(weight * quarters == quarters * weight) by (nonlinear_arith);
        assert(weight * (quarters + 2) == (quarters + 2) * weight) by (nonlinear_arith);
    }
    let chosen = shortest_digits(&low, &value, &high, mantissa % 2 == 0);
    push_decimal(text, &chosen, places);
    proof {
        assert(digits_value(chosen@) == neighbourhood(bits).shortest());
        assert(text@ =~= start + binary64_text(bits));
    }
}

/// The text of one binary64 number.
pub fn binary64_string(bits: u64) -> (text: String)
    ensures
        text@ == binary64_text(bits),
{
    let mut text = String::new();
    push_binary64(&mut text, bits);
    assert(Seq::<char>::empty() + binary64_text(bits) =~= binary64_text(bits));
    text
}

/// The values as text, one on each line, the lines parted by line feeds.
pub open spec fn lines_text(values: Seq<u64>) -> Seq<char>
    decreases values.len(),
{
    if values.len() == 0 {
        Seq::empty()
    } else if values.len() == 1 {
        binary64_text(values[0])
    } else {
        lines_text(values.drop_last()) + seq!['\n'] + binary64_text(values.last())
    }
}

impl CalcState {
    /// The display: the operands on the stack, the oldest first, and last
    /// the value being edited, each on a line of its own.
    pub open spec fn rendered(self) -> Seq<char> {
        lines_text(self.shown())
    }
}

impl RpnCalc {
    /// The display as text. Nothing changes.
    pub fn to_string(&self) -> (text: String)
        ensures
            text@ == self@.rendered(),
    {
        let stack = self.stack();
        let mut text = String::new();
        let mut i: usize = 0;
        while i < stack.len()
            invariant
                i <= stack.len(),
                stack@ == self@.stack,
                i == 0 ==> text@ == Seq::<char>::empty(),
                i > 0 ==> text@ == lines_text(stack@.take(i as int)) + seq!['\n'],
            decreases stack.len() - i,
        {
            let ghost before = text@;
            push_binary64(&mut text, stack[i]);
            text.push('\n');
            proof {
                let upto = stack@.take(i + 1);
                assert(upto.drop_last() =~= stack@.take(i as int));
                assert(upto.last() == stack@[i as int]);
                if i == 0 {
                    assert(before + binary64_text(stack@[0]) =~= binary64_text(stack@[0]));
                } else {
                    assert(lines_text(upto) == lines_text(stack@.take(i as int)) + seq!['\n']
                        + binary64_text(stack@[i as int]));
                }
            }
            i = i + 1;
        }
        push_binary64(&mut text, self.current());
        proof {
            let shown = self@.shown();
            assert(stack@.take(i as int) =~= stack@);
            assert(shown.drop_last() =~= stack@);
            assert(shown.last() == self@.current);
            if i == 0 {
                assert(Seq::<char>::empty() + binary64_text(self@.current) =~= binary64_text(
                    self@.current,
                ));
            }
        }
        text
    }
}

} // verus!
