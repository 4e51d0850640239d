//! What holds of the calculator over every state and every run of commands.

use crate::binary64::{
    binary64_product, binary64_quotient, binary64_sum, integer_bits,
    lemma_below_smallest_positive_is_zero, SIGN_BIT, TEN, ZERO,
};
use crate::command::{Message, Op};
use crate::decimal::{lemma_pow10_positive, pow10};
use crate::display::{decimal_text, fraction_text, natural_text};
use crate::render::{binary64_text, lines_text};
use crate::rpn_calc::{fraction_scale, CalcState, EditMode};
use vstd::arithmetic::div_mod::lemma_fundamental_div_mod;
use vstd::prelude::*;

verus! {

/// The whole number that the digits make of `start`, taken in order: each
/// digit multiplies what is there by ten and adds itself.
pub open spec fn whole_entry(start: u64, digits: Seq<i8>) -> u64
    decreases digits.len(),
{
    if digits.len() == 0 {
        start
    } else {
        binary64_sum(
            binary64_product(whole_entry(start, digits.drop_last()), TEN),
            integer_bits(digits.last() as int),
        )
    }
}

/// What the fractional digits make of `start`, taken in order: each digit adds
/// itself times the scale of its place.
pub open spec fn fraction_entry(start: u64, digits: Seq<i8>) -> u64
    decreases digits.len(),
{
    if digits.len() == 0 {
        start
    } else {
        binary64_sum(
            fraction_entry(start, digits.drop_last()),
            binary64_product(
                integer_bits(digits.last() as int),
                fraction_scale((digits.len() - 1) as nat),
            ),
        )
    }
}

proof fn lemma_after_digits_unfold(state: CalcState, digits: Seq<i8>)
    requires
        digits.len() > 0,
    ensures
        state.after_digits(digits) == state.after_digits(digits.drop_last()).after_digit(
            digits.last(),
        ),
{
    let messages = digits.map_values(|digit: i8| Message::NumPressed(digit));
    assert(messages.drop_last() =~= digits.drop_last().map_values(
        |digit: i8| Message::NumPressed(digit),
    ));
}

/// Digits entered into a whole part form the decimal number they spell: the
/// value being edited goes through multiply-by-ten-and-add once for each
/// digit, in order, and neither the stack nor the mode changes.
pub proof fn lemma_whole_digits(state: CalcState, digits: Seq<i8>)
    requires
        state.mode == EditMode::AppendWhole,
    ensures
        state.after_digits(digits) == (CalcState {
            current: whole_entry(state.current, digits),
            ..state
        }),
    decreases digits.len(),
{
    if digits.len() > 0 {
        lemma_whole_digits(state, digits.drop_last());
        lemma_after_digits_unfold(state, digits);
    }
}

/// After a decimal point, digits fill the decimal places in order: the first
/// adds itself times a tenth, each later one itself times the scale before it
/// times a tenth. The whole part is what was there before the point, or zero
/// where the point started a new entry after a result.
pub proof fn lemma_fraction_digits(state: CalcState, digits: Seq<i8>)
    requires
        state.accepts_decimal(),
    ensures
        state.after(Message::Decimal).after_digits(digits) == (CalcState {
            current: fraction_entry(state.after_decimal().current, digits),
            mode: EditMode::AppendFractional(fraction_scale(digits.len())),
            ..state.after_decimal()
        }),
    decreases digits.len(),
{
    if digits.len() > 0 {
        lemma_fraction_digits(state, digits.drop_last());
        lemma_after_digits_unfold(state.after(Message::Decimal), digits);
    }
}

/// Enter pushes exactly one value, the one that was being edited, and starts
/// a whole number at zero, whatever the mode was.
pub proof fn lemma_enter_pushes_one(state: CalcState)
    ensures
        state.after(Message::Enter).stack.len() == state.stack.len() + 1,
        state.after(Message::Enter).stack.drop_last() == state.stack,
        state.after(Message::Enter).stack.last() == state.current,
        state.after(Message::Enter).current == ZERO,
        state.after(Message::Enter).mode == EditMode::AppendWhole,
{
    assert(state.stack.push(state.current).drop_last() =~= state.stack);
}

/// An accepted operator leaves a finished result, and the digit that follows
/// keeps it: the result goes onto the stack, in the place of the operand that
/// the operator took, and the digit alone starts a new whole number.
pub proof fn lemma_digit_after_operator(state: CalcState, op: Op, digit: i8)
    requires
        state.accepts_operator(op),
    ensures
        state.after(Message::OpPressed(op)).mode == EditMode::PushNext,
        state.after(Message::OpPressed(op)).after(Message::NumPressed(digit)) == (CalcState {
            stack: state.stack.drop_last().push(op.applied(state.stack.last(), state.current)),
            current: integer_bits(digit as int),
            mode: EditMode::AppendWhole,
        }),
{
}

/// A division is refused whenever the operand on top of the stack is a
/// zero, of either sign, whatever the divisor is; nothing changes then.
pub proof fn lemma_divide_guard(state: CalcState)
    requires
        state.stack.len() > 0,
        state.stack.last() == ZERO || state.stack.last() == SIGN_BIT,
    ensures
        !state.changed_by(Message::OpPressed(Op::Divide)),
        state.after(Message::OpPressed(Op::Divide)) == state,
{
    lemma_below_smallest_positive_is_zero(state.stack.last());
}

/// A division is owed whenever the operand on top of the stack is not a
/// zero, be it the smallest subnormal number, an infinity or a NaN, and
/// whatever the divisor is: the operand leaves the stack, the quotient is
/// shown as a finished result.
pub proof fn lemma_divide_is_owed(state: CalcState)
    requires
        state.stack.len() > 0,
        state.stack.last() != ZERO,
        state.stack.last() != SIGN_BIT,
    ensures
        state.changed_by(Message::OpPressed(Op::Divide)),
        state.after(Message::OpPressed(Op::Divide)) == (CalcState {
            stack: state.stack.drop_last(),
            current: binary64_quotient(state.stack.last(), state.current),
            mode: EditMode::PushNext,
        }),
{
    lemma_below_smallest_positive_is_zero(state.stack.last());
}

/// The digit that follows Enter starts a whole number on its own and pushes
/// nothing more: the stack holds what Enter pushed, and the value being
/// edited is what multiply-by-ten-and-add makes of zero and the digit.
pub proof fn lemma_digit_after_enter(state: CalcState, digit: i8)
    ensures
        state.after(Message::Enter).after(Message::NumPressed(digit)) == (CalcState {
            stack: state.stack.push(state.current),
            current: binary64_sum(binary64_product(ZERO, TEN), integer_bits(digit as int)),
            mode: EditMode::AppendWhole,
        }),
        state.after(Message::Enter).changed_by(Message::NumPressed(digit)),
{
}

/// A command that reports no change has changed nothing.
pub proof fn lemma_ignored_command_changes_nothing(state: CalcState, message: Message)
    requires
        !state.changed_by(message),
    ensures
        state.after(message) == state,
{
}

/// Backspace is ignored in every state.
pub proof fn lemma_backspace_is_ignored(state: CalcState)
    ensures
        !state.changed_by(Message::Backspace),
        state.after(Message::Backspace) == state,
{
}

/// Every command leaves the calculator in a state it can be in.
pub proof fn lemma_command_preserves_wf(state: CalcState, message: Message)
    requires
        state.wf(),
    ensures
        state.after(message).wf(),
{
    if let EditMode::AppendFractional(scale) = state.mode {
        let entered = choose|entered: nat| scale == fraction_scale(entered);
        assert(binary64_product(scale, crate::binary64::TENTH) == fraction_scale(entered + 1));
    }
    assert(crate::binary64::TENTH == fraction_scale(0));
}

/// Every state that commands lead to from a new calculator is one it can be
/// in.
pub proof fn lemma_reachable_is_wf(messages: Seq<Message>)
    ensures
        CalcState::initial().after_all(messages).wf(),
    decreases messages.len(),
{
    if messages.len() > 0 {
        lemma_reachable_is_wf(messages.drop_last());
        lemma_command_preserves_wf(
            CalcState::initial().after_all(messages.drop_last()),
            messages.last(),
        );
    }
}

/// The number of line feeds in a text.
pub open spec fn line_feeds(text: Seq<char>) -> nat
    decreases text.len(),
{
    if text.len() == 0 {
        0
    } else {
        line_feeds(text.drop_last()) + if text.last() == '\n' {
            1nat
        } else {
            0nat
        }
    }
}

/// Whether a text stays on one line.
pub open spec fn on_one_line(text: Seq<char>) -> bool {
    forall|i: int| 0 <= i < text.len() ==> text[i] != '\n'
}

proof fn lemma_line_feeds_add(a: Seq<char>, b: Seq<char>)
    ensures
        line_feeds(a + b) == line_feeds(a) + line_feeds(b),
    decreases b.len(),
{
    if b.len() == 0 {
        assert(a + b =~= a);
    } else {
        lemma_line_feeds_add(a, b.drop_last());
        assert((a + b).drop_last() =~= a + b.drop_last());
    }
}

proof fn lemma_one_line_has_no_feed(text: Seq<char>)
    requires
        on_one_line(text),
    ensures
        line_feeds(text) == 0,
    decreases text.len(),
{
    if text.len() > 0 {
        lemma_one_line_has_no_feed(text.drop_last());
    }
}

proof fn lemma_natural_text_on_one_line(n: nat)
    ensures
        on_one_line(natural_text(n)),
    decreases n,
{
    if n >= 10 {
        lemma_natural_text_on_one_line(n / 10);
    }
}

proof fn lemma_fraction_text_on_one_line(part: nat, places: nat)
    requires
        part < pow10(places),
    ensures
        on_one_line(fraction_text(part, places)),
    decreases places,
{
    if part != 0 && places != 0 {
        let weight = pow10((places - 1) as nat);
        lemma_pow10_positive((places - 1) as nat);
        lemma_fundamental_div_mod(part as int, weight as int);
        assert(part / weight < 10 && part % weight < weight) by (nonlinear_arith)
            requires
                part == weight * (part / weight) + part % weight,
                part < 10 * weight,
                weight > 0,
                0 <= part % weight,
        ;
        lemma_fraction_text_on_one_line(part % weight, (places - 1) as nat);
    }
}

/// The text of a number never holds a line feed.
pub proof fn lemma_number_on_one_line(bits: u64)
    ensures
        on_one_line(binary64_text(bits)),
{
    let nb = crate::render::neighbourhood(bits);
    let places = crate::render::decimal_places(bits);
    let count = nb.shortest();
    lemma_pow10_positive(places);
    lemma_natural_text_on_one_line(count / pow10(places));
    assert(count % pow10(places) < pow10(places)) by (nonlinear_arith)
        requires
            pow10(places) > 0,
    ;
    lemma_fraction_text_on_one_line(count % pow10(places), places);
    assert(on_one_line(decimal_text(count, places)));
}

proof fn lemma_lines_text_feeds(values: Seq<u64>)
    requires
        values.len() > 0,
    ensures
        line_feeds(lines_text(values)) == values.len() - 1,
    decreases values.len(),
{
    lemma_number_on_one_line(values.last());
    lemma_one_line_has_no_feed(binary64_text(values.last()));
    if values.len() > 1 {
        lemma_lines_text_feeds(values.drop_last());
        lemma_line_feeds_add(lines_text(values.drop_last()), seq!['\n']);
        lemma_line_feeds_add(
            lines_text(values.drop_last()) + seq!['\n'],
            binary64_text(values.last()),
        );
        let feed = seq!['\n'];
        assert(feed.len() == 1 && feed.last() == '\n');
        assert(feed.drop_last() =~= Seq::<char>::empty());
        assert(line_feeds(feed.drop_last()) == 0);
        assert(line_feeds(feed) == 1);
    }
}

/// The display has one line for each operand on the stack and one more for
/// the value being edited: it holds as many line feeds as the stack holds
/// operands.
pub proof fn lemma_one_line_for_each_value(state: CalcState)
    ensures
        line_feeds(state.rendered()) == state.stack.len(),
{
    lemma_lines_text_feeds(state.shown());
}

/// Clearing everything empties the stack and leaves zero being edited,
/// whatever was there and whatever the mode, which stays; the display then
/// reads `0` and nothing else.
pub proof fn lemma_clear_all_renders_zero(state: CalcState)
    ensures
        state.after(Message::ClearStack).stack.len() == 0,
        state.after(Message::ClearStack).current == ZERO,
        state.after(Message::ClearStack).mode == state.mode,
        state.after(Message::ClearStack).rendered() == seq!['0'],
{
    assert(state.emptied().shown() =~= seq![ZERO]);
    assert(binary64_text(ZERO) =~= seq!['0']);
}

} // verus!
