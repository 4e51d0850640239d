//! The shortest decimal that stands for a number among its neighbours.
//!
//! A binary64 number shares the real line with its two neighbours: every real
//! number between the midpoints is rounded to it. Of the decimals in that
//! interval the one with the fewest digits is shown; of several such, the one
//! nearest to the number.

use crate::decimal::{
    add_power, are_digits, at_least_half, digits_value, lemma_place, lemma_pow10_increases,
    lemma_pow10_positive, lemma_value_below, less, pow10, round_down,
};
use vstd::arithmetic::div_mod::{lemma_fundamental_div_mod, lemma_small_mod};
use vstd::prelude::*;

verus! {

/// A number between two bounds, all three counted in one unit, and whether
/// the bounds themselves still belong to the number.
pub struct Neighbourhood {
    pub low: nat,
    pub value: nat,
    pub high: nat,
    pub inclusive: bool,
}

/// The number of decimal digits of `n`; zero for zero.
pub open spec fn digit_count(n: nat) -> nat
    decreases n,
{
    if n == 0 {
        0
    } else {
        1 + digit_count(n / 10)
    }
}

impl Neighbourhood {
    /// The bounds lie strictly on either side of the number, and above zero.
    pub open spec fn wf(self) -> bool {
        0 < self.low < self.value < self.high
    }

    /// Whether `candidate` lies in the interval.
    pub open spec fn admits(self, candidate: nat) -> bool {
        if self.inclusive {
            self.low <= candidate <= self.high
        } else {
            self.low < candidate < self.high
        }
    }

    /// The number rounded down to a multiple of ten to the power `place`.
    pub open spec fn floor(self, place: nat) -> nat {
        (self.value - self.value % pow10(place)) as nat
    }

    /// The next multiple of ten to the power `place` above `floor`.
    pub open spec fn ceiling(self, place: nat) -> nat {
        self.floor(place) + pow10(place)
    }

    /// Whether one of the two multiples of ten to the power `place` that
    /// enclose the number lies in the interval.
    pub open spec fn stops(self, place: nat) -> bool {
        self.admits(self.floor(place)) || self.admits(self.ceiling(place))
    }

    /// Of the two enclosing multiples the one to show: the upper one where
    /// only it lies in the interval, or where both do and the number is at
    /// least half way up; else the lower one.
    pub open spec fn rounded(self, place: nat) -> nat {
        if self.admits(self.ceiling(place)) && (!self.admits(self.floor(place)) || 2 * (self.value
            % pow10(place)) >= pow10(place)) {
            self.ceiling(place)
        } else {
            self.floor(place)
        }
    }

    /// The decimal found by trying the places from `place` downward: the
    /// first place at which an enclosing multiple lies in the interval
    /// decides. At place zero the number itself is its own multiple.
    pub open spec fn shortest_from(self, place: nat) -> nat
        decreases place,
    {
        if place == 0 || self.stops(place) {
            self.rounded(place)
        } else {
            self.shortest_from((place - 1) as nat)
        }
    }

    /// The decimal to show: the search starts above the highest digit of the
    /// upper bound, where no multiple can lie in the interval.
    pub open spec fn shortest(self) -> nat {
        self.shortest_from(digit_count(self.high))
    }

    /// The place at which the search from `place` downward stops.
    pub open spec fn stop_from(self, place: nat) -> nat
        decreases place,
    {
        if place == 0 || self.stops(place) {
            place
        } else {
            self.stop_from((place - 1) as nat)
        }
    }

    /// The place of the last digit of the decimal to show.
    pub open spec fn last_place(self) -> nat {
        self.stop_from(digit_count(self.high))
    }
}

/// A number is below ten to the power of its digit count.
pub proof fn lemma_digit_count_covers(n: nat)
    ensures
        n < pow10(digit_count(n)),
    decreases n,
{
    if n > 0 {
        lemma_digit_count_covers(n / 10);
    }
}

/// A number below ten to the power `places` has at most `places` digits.
pub proof fn lemma_digit_count_least(n: nat, places: nat)
    requires
        n < pow10(places),
    ensures
        digit_count(n) <= places,
    decreases n,
{
    if n > 0 {
        lemma_digit_count_least(n / 10, (places - 1) as nat);
    }
}

/// Above the highest digit of the upper bound nothing stops the search, so it
/// may start at any place from there upward.
pub proof fn lemma_search_may_start_higher(nb: Neighbourhood, from: nat, to: nat)
    requires
        nb.wf(),
        to <= from,
        nb.high < pow10(to),
    ensures
        nb.shortest_from(from) == nb.shortest_from(to),
    decreases from,
{
    if to < from {
        lemma_pow10_increases(to, from);
        lemma_pow10_positive(from);
        lemma_small_mod(nb.value, pow10(from));
        assert(nb.floor(from) == 0);
        assert(!nb.stops(from));
        lemma_search_may_start_higher(nb, (from - 1) as nat, to);
    }
}

proof fn lemma_search_result(nb: Neighbourhood, from: nat)
    requires
        nb.wf(),
    ensures
        nb.shortest_from(from) == nb.rounded(nb.stop_from(from)),
        nb.admits(nb.shortest_from(from)),
        nb.stop_from(from) <= from,
        forall|place: nat| nb.stop_from(from) < place <= from ==> !nb.stops(place),
    decreases from,
{
    if from == 0 {
        assert(pow10(0) == 1);
        assert(nb.value % 1 == 0);
        assert(nb.floor(0) == nb.value);
    } else if !nb.stops(from) {
        lemma_search_result(nb, (from - 1) as nat);
    }
}

/// A multiple of a power of ten lies in the interval only if one of the two
/// multiples that enclose the number does.
proof fn lemma_multiple_needs_stop(nb: Neighbourhood, place: nat, factor: nat)
    requires
        nb.wf(),
        nb.admits(factor * pow10(place)),
    ensures
        nb.stops(place),
{
    let weight = pow10(place);
    lemma_pow10_positive(place);
    lemma_fundamental_div_mod(nb.value as int, weight as int);
    let whole = nb.value / weight;
    assert(nb.floor(place) == weight * whole);
    assert(0 <= nb.value % weight < weight) by (nonlinear_arith)
        requires
            weight > 0,
    ;
    if factor * weight <= nb.value {
        assert(factor <= whole) by (nonlinear_arith)
            requires
                factor * weight <= nb.value,
                nb.value == weight * whole + nb.value % weight,
                nb.value % weight < weight,
                weight > 0,
        ;
        assert(factor * weight <= weight * whole) by (nonlinear_arith)
            requires
                factor <= whole,
                weight > 0,
        ;
        assert(nb.admits(nb.floor(place)));
    } else {
        assert(factor >= whole + 1) by (nonlinear_arith)
            requires
                factor * weight > nb.value,
                nb.value == weight * whole + nb.value % weight,
                0 <= nb.value % weight,
                weight > 0,
        ;
        assert(factor * weight >= weight * whole + weight) by (nonlinear_arith)
            requires
                factor >= whole + 1,
                weight > 0,
        ;
        assert(nb.admits(nb.ceiling(place)));
    }
}

/// The decimal shown lies in the interval: read back, it is rounded to the
/// number it was made from.
pub proof fn lemma_shortest_is_admitted(nb: Neighbourhood)
    requires
        nb.wf(),
    ensures
        nb.admits(nb.shortest()),
        nb.shortest() == nb.rounded(nb.last_place()),
{
    lemma_search_result(nb, digit_count(nb.high));
}

/// The decimal shown is the shortest: no multiple of a higher power of ten
/// than that of its last place lies in the interval.
pub proof fn lemma_no_shorter_decimal(nb: Neighbourhood, place: nat, factor: nat)
    requires
        nb.wf(),
        place > nb.last_place(),
    ensures
        !nb.admits(factor * pow10(place)),
{
    let start = digit_count(nb.high);
    lemma_search_result(nb, start);
    if nb.admits(factor * pow10(place)) {
        lemma_multiple_needs_stop(nb, place, factor);
        if place > start {
            lemma_digit_count_covers(nb.high);
            lemma_pow10_increases(start, place);
            lemma_small_mod(nb.value, pow10(place));
            assert(nb.floor(place) == 0);
            assert(!nb.stops(place));
        } else {
            assert(!nb.stops(place));
        }
    }
}

/// The digits of the shortest decimal for the number `value` between `low`
/// and `high`.
pub fn shortest_digits(low: &Vec<u8>, value: &Vec<u8>, high: &Vec<u8>, inclusive: bool) -> (chosen:
    Vec<u8>)
    requires
        are_digits(low@),
        are_digits(value@),
        are_digits(high@),
        0 < digits_value(low@) < digits_value(value@) < digits_value(high@),
        high.len() < usize::MAX,
    ensures
        are_digits(chosen@),
        digits_value(chosen@) == (Neighbourhood {
            low: digits_value(low@),
            value: digits_value(value@),
            high: digits_value(high@),
            inclusive,
        }).shortest(),
{
    let ghost nb = Neighbourhood {
        low: digits_value(low@),
        value: digits_value(value@),
        high: digits_value(high@),
        inclusive,
    };
    let mut place: usize = high.len();
    proof {
        lemma_value_below(high@);
        lemma_digit_count_least(nb.high, place as nat);
        lemma_digit_count_covers(nb.high);
        lemma_search_may_start_higher(nb, place as nat, digit_count(nb.high));
    }
    loop
        invariant
            are_digits(low@),
            are_digits(value@),
            are_digits(high@),
            nb.wf(),
            nb.low == digits_value(low@),
            nb.value == digits_value(value@),
            nb.high == digits_value(high@),
            nb.inclusive == inclusive,
            place < usize::MAX,
            nb.shortest() == nb.shortest_from(place as nat),
        decreases place,
    {
        let floor = round_down(value, place);
        let ceiling = add_power(&floor, place);
        let floor_fits = if inclusive {
            !less(&floor, low)
        } else {
            less(low, &floor)
        };
        let ceiling_fits = if inclusive {
            !less(high, &ceiling)
        } else {
            less(&ceiling, high)
        };
        let half = at_least_half(value, place);
        proof {
            lemma_place(value@, place as nat);
            lemma_pow10_positive(place as nat);
            assert(digits_value(floor@) == nb.floor(place as nat));
            assert(digits_value(ceiling@) == nb.ceiling(place as nat));
            assert(floor_fits == nb.admits(nb.floor(place as nat)));
            assert(ceiling_fits == nb.admits(nb.ceiling(place as nat)));
        }
        if place == 0 || floor_fits || ceiling_fits {
            if ceiling_fits && (!floor_fits || half) {
                return ceiling;
            } else {
                return floor;
            }
        }
        place = place - 1;
    }
}

} // verus!
