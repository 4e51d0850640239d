//! The calculator engine: an operand stack, the value being edited and the
//! mode that says what the next digit does to it.

use crate::binary64::{
    below_smallest_positive, binary64_difference, binary64_product, binary64_quotient, binary64_sum,
    difference, from_integer, integer_bits, is_below_smallest_positive, product, quotient, sum, TEN,
    TENTH, ZERO,
};
use vstd::prelude::*;

verus! {

/// How the next digit changes the value being edited.
#[derive(Clone, Copy, Debug, PartialEq, Eq, Structural)]
pub enum EditMode {
    /// A digit extends the whole part: the value is multiplied by ten and the
    /// digit added.
    AppendWhole,
    /// A digit extends the fractional part: the digit times the scale is
    /// added, and the scale is multiplied by a tenth for the next digit.
    AppendFractional(u64),
    /// The value is a finished result: a digit first pushes it onto the stack
    /// and then starts a new whole number.
    PushNext,
}

/// The scale of the fractional digit that follows `entered` fractional digits
/// of one entry: a tenth for the first, and for each later one the scale
/// before it times a tenth, rounded as every product of two numbers is.
pub open spec fn fraction_scale(entered: nat) -> u64
    decreases entered,
{
    if entered == 0 {
        TENTH
    } else {
        binary64_product(fraction_scale((entered - 1) as nat), TENTH)
    }
}

/// Whether `scale` is the scale of some fractional digit of an entry.
pub open spec fn is_fraction_scale(scale: u64) -> bool {
    exists|entered: nat| scale == fraction_scale(entered)
}

/// What a calculator holds, as mathematics sees it.
pub struct CalcState {
    /// The operands entered so far, the oldest first and the top last.
    pub stack: Seq<u64>,
    /// The value being edited, shown below the stack.
    pub current: u64,
    /// What the next digit does.
    pub mode: EditMode,
}

impl CalcState {
    /// The state of a new calculator: nothing on the stack, zero being edited,
    /// digits extend the whole part.
    pub open spec fn initial() -> CalcState {
        CalcState { stack: Seq::empty(), current: ZERO, mode: EditMode::AppendWhole }
    }

    /// The state after the value being edited was entered: it is the new top
    /// of the stack, and a new whole number starts from zero.
    pub open spec fn entered(self) -> CalcState {
        CalcState {
            stack: self.stack.push(self.current),
            current: ZERO,
            mode: EditMode::AppendWhole,
        }
    }

    /// The state after a digit key.
    pub open spec fn after_digit(self, digit: i8) -> CalcState {
        let value = integer_bits(digit as int);
        match self.mode {
            EditMode::AppendWhole => CalcState {
                current: binary64_sum(binary64_product(self.current, TEN), value),
                ..self
            },
            EditMode::AppendFractional(scale) => CalcState {
                current: binary64_sum(self.current, binary64_product(value, scale)),
                mode: EditMode::AppendFractional(binary64_product(scale, TENTH)),
                ..self
            },
            EditMode::PushNext => CalcState {
                stack: self.stack.push(self.current),
                current: value,
                mode: EditMode::AppendWhole,
            },
        }
    }

    /// Whether a decimal point is accepted: an entry takes only one.
    pub open spec fn accepts_decimal(self) -> bool {
        !(self.mode is AppendFractional)
    }

    /// The state after a decimal point. In an entry that has none yet, the
    /// digits that follow are fractional, the first one worth a tenth. A
    /// finished result is pushed first, and the new entry starts from zero. In
    /// an entry that has one already, nothing changes.
    pub open spec fn after_decimal(self) -> CalcState {
        match self.mode {
            EditMode::AppendWhole => CalcState {
                mode: EditMode::AppendFractional(TENTH),
                ..self
            },
            EditMode::AppendFractional(_) => self,
            EditMode::PushNext => CalcState {
                stack: self.stack.push(self.current),
                current: ZERO,
                mode: EditMode::AppendFractional(TENTH),
            },
        }
    }

    /// The state after an operator took the top of a stack that is not empty
    /// and left `result`: the top is gone, the result is shown as a finished
    /// value.
    pub open spec fn reduced(self, result: u64) -> CalcState {
        CalcState { stack: self.stack.drop_last(), current: result, mode: EditMode::PushNext }
    }

    /// Whether a division is accepted: there is an operand on the stack, and
    /// its magnitude is not below the smallest positive number there is, so
    /// it is not a zero. It is the operand about to be divided that is
    /// tested, not the divisor.
    pub open spec fn accepts_division(self) -> bool {
        self.stack.len() > 0 && !below_smallest_positive(self.stack.last())
    }

    /// The state after the value being edited was cleared. The mode stays.
    pub open spec fn cleared(self) -> CalcState {
        CalcState { current: ZERO, ..self }
    }

    /// The state after everything was cleared: the stack is empty and the
    /// value being edited is zero. The mode stays.
    pub open spec fn emptied(self) -> CalcState {
        CalcState { stack: Seq::empty(), current: ZERO, mode: self.mode }
    }

    /// Whether the state is one that a calculator can be in: while fractional
    /// digits are entered, the scale of the next one is a tenth multiplied by
    /// a tenth once for each digit entered so far.
    pub open spec fn wf(self) -> bool {
        self.mode matches EditMode::AppendFractional(scale) ==> is_fraction_scale(scale)
    }

    /// The values on display, top to bottom of the screen: the stack from its
    /// oldest operand to its top, then the value being edited.
    pub open spec fn shown(self) -> Seq<u64> {
        self.stack.push(self.current)
    }
}

/// A reverse Polish notation calculator over binary64 numbers, each held as
/// its 64-bit pattern.
pub struct RpnCalc {
    stack: Vec<u64>,
    current: u64,
    edit_mode: EditMode,
}

impl View for RpnCalc {
    type V = CalcState;

    closed spec fn view(&self) -> CalcState {
        CalcState { stack: self.stack@, current: self.current, mode: self.edit_mode }
    }
}

impl RpnCalc {
    /// A calculator with an empty stack, showing zero.
    pub fn new() -> (calc: RpnCalc)
        ensures
            calc@ == CalcState::initial(),
            calc@.wf(),
    {
        RpnCalc { stack: Vec::new(), current: ZERO, edit_mode: EditMode::AppendWhole }
    }

    /// Enter: pushes the value being edited and starts a new entry at zero.
    /// Always changes the display.
    pub fn enter_current(&mut self) -> (changed: bool)
        ensures
            changed,
            final(self)@ == old(self)@.entered(),
            old(self)@.wf() ==> final(self)@.wf(),
    {
        let current = self.current;
        self.stack.push(current);
        self.current = ZERO;
        self.edit_mode = EditMode::AppendWhole;
        true
    }

    /// A digit key. Always changes the display.
    pub fn update_current(&mut self, digit: i8) -> (changed: bool)
        ensures
            changed,
            final(self)@ == old(self)@.after_digit(digit),
            old(self)@.wf() ==> final(self)@.wf(),
    {
        let value = from_integer(digit);
        match self.edit_mode {
            EditMode::AppendFractional(shift) => {
                proof {
                    if is_fraction_scale(shift) {
                        let entered = choose|entered: nat| shift == fraction_scale(entered);
                        assert(binary64_product(shift, TENTH) == fraction_scale(entered + 1));
                    }
                }
                self.current = sum(self.current, product(value, shift));
                self.edit_mode = EditMode::AppendFractional(product(shift, TENTH));
            },
            EditMode::AppendWhole => {
                self.current = sum(product(self.current, TEN), value);
            },
            EditMode::PushNext => {
                self.enter_current();
                self.current = value;
                self.edit_mode = EditMode::AppendWhole;
            },
        }
        true
    }

    /// The decimal point key. A second decimal point in one entry is ignored:
    /// the state stays and the display need not change.
    pub fn handle_decimal(&mut self) -> (changed: bool)
        ensures
            changed == old(self)@.accepts_decimal(),
            final(self)@ == old(self)@.after_decimal(),
            old(self)@.wf() ==> final(self)@.wf(),
    {
        match self.edit_mode {
            EditMode::AppendFractional(_) => false,
            EditMode::AppendWhole => {
                assert(TENTH == fraction_scale(0));
                self.edit_mode = EditMode::AppendFractional(TENTH);
                true
            },
            EditMode::PushNext => {
                assert(TENTH == fraction_scale(0));
                self.enter_current();
                self.edit_mode = EditMode::AppendFractional(TENTH);
                true
            },
        }
    }

    /// Addition: takes the top of the stack and shows its sum with the value
    /// being edited. Ignored on an empty stack.
    pub fn do_add(&mut self) -> (changed: bool)
        ensures
            changed == (old(self)@.stack.len() > 0),
            changed ==> final(self)@ == old(self)@.reduced(
                binary64_sum(old(self)@.stack.last(), old(self)@.current),
            ),
            !changed ==> final(self)@ == old(self)@,
            old(self)@.wf() ==> final(self)@.wf(),
    {
        match self.stack.pop() {
            None => false,
            Some(l) => {
                let r = self.current;
                self.current = sum(l, r);
                self.edit_mode = EditMode::PushNext;
                true
            },
        }
    }

    /// Subtraction: takes the top of the stack and shows it less the value
    /// being edited. Ignored on an empty stack.
    pub fn do_subtract(&mut self) -> (changed: bool)
        ensures
            changed == (old(self)@.stack.len() > 0),
            changed ==> final(self)@ == old(self)@.reduced(
                binary64_difference(old(self)@.stack.last(), old(self)@.current),
            ),
            !changed ==> final(self)@ == old(self)@,
            old(self)@.wf() ==> final(self)@.wf(),
    {
        match self.stack.pop() {
            None => false,
            Some(l) => {
                let r = self.current;
                self.current = difference(l, r);
                self.edit_mode = EditMode::PushNext;
                true
            },
        }
    }

    /// Multiplication: takes the top of the stack and shows its product with
    /// the value being edited. Ignored on an empty stack.
    pub fn do_multiply(&mut self) -> (changed: bool)
        ensures
            changed == (old(self)@.stack.len() > 0),
            changed ==> final(self)@ == old(self)@.reduced(
                binary64_product(old(self)@.stack.last(), old(self)@.current),
            ),
            !changed ==> final(self)@ == old(self)@,
            old(self)@.wf() ==> final(self)@.wf(),
    {
        match self.stack.pop() {
            None => false,
            Some(l) => {
                let r = self.current;
                self.current = product(l, r);
                self.edit_mode = EditMode::PushNext;
                true
            },
        }
    }

    /// Division: takes the top of the stack and shows it divided by the value
    /// being edited. Ignored on an empty stack, and when the top of the stack
    /// is a zero. The divisor is not looked at.
    pub fn do_divide(&mut self) -> (changed: bool)
        ensures
            changed == old(self)@.accepts_division(),
            changed ==> final(self)@ == old(self)@.reduced(
                binary64_quotient(old(self)@.stack.last(), old(self)@.current),
            ),
            !changed ==> final(self)@ == old(self)@,
            old(self)@.wf() ==> final(self)@.wf(),
    {
        let depth = self.stack.len();
        if depth == 0 {
            false
        } else if is_below_smallest_positive(self.stack[depth - 1]) {
            false
        } else {
            let denom = self.current;
            let num = self.stack.pop().unwrap();
            self.current = quotient(num, denom);
            self.edit_mode = EditMode::PushNext;
            true
        }
    }

    /// Backspace does nothing, and says so.
    pub fn backspace(&mut self) -> (changed: bool)
        ensures
            !changed,
            final(self)@ == old(self)@,
            old(self)@.wf() ==> final(self)@.wf(),
    {
        false
    }

    /// Clears the value being edited. Always changes the display.
    pub fn clear_current(&mut self) -> (changed: bool)
        ensures
            changed,
            final(self)@ == old(self)@.cleared(),
            old(self)@.wf() ==> final(self)@.wf(),
    {
        self.current = ZERO;
        true
    }

    /// Clears the value being edited and the whole stack. Always changes the
    /// display.
    pub fn clear_stack(&mut self) -> (changed: bool)
        ensures
            changed,
            final(self)@ == old(self)@.emptied(),
            old(self)@.wf() ==> final(self)@.wf(),
    {
        self.current = ZERO;
        self.stack.clear();
        true
    }

    /// The value being edited.
    pub fn current(&self) -> (bits: u64)
        ensures
            bits == self@.current,
    {
        self.current
    }

    /// The operands on the stack, the oldest first.
    pub fn stack(&self) -> (operands: &Vec<u64>)
        ensures
            operands@ == self@.stack,
    {
        &self.stack
    }

    /// The edit mode.
    pub fn edit_mode(&self) -> (mode: EditMode)
        ensures
            mode == self@.mode,
    {
        self.edit_mode
    }
}

} // verus!
