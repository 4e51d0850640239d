//! The commands a key or button can send, and what each does to a calculator.

use crate::binary64::{binary64_difference, binary64_product, binary64_quotient, binary64_sum};
use crate::rpn_calc::{CalcState, RpnCalc};
use vstd::prelude::*;

verus! {

/// One of the four operators.
#[derive(Clone, Copy, Debug, PartialEq, Eq, Structural)]
pub enum Op {
    Plus,
    Minus,
    Multiply,
    Divide,
}

/// One command, as a key press or a button sends it.
#[derive(Clone, Copy, Debug, PartialEq, Eq, Structural)]
pub enum Message {
    /// A digit key, with its digit.
    NumPressed(i8),
    /// An operator key.
    OpPressed(Op),
    /// The decimal point.
    Decimal,
    /// Clear the value being edited.
    ClearItem,
    /// Clear the value being edited and the stack.
    ClearStack,
    /// Push the value being edited.
    Enter,
    /// Take back the last key.
    Backspace,
}

impl Op {
    /// What the operator makes of its operands. The left operand is the one
    /// entered first, which comes from the stack; the right one is the value
    /// being edited.
    pub open spec fn applied(self, left: u64, right: u64) -> u64 {
        match self {
            Op::Plus => binary64_sum(left, right),
            Op::Minus => binary64_difference(left, right),
            Op::Multiply => binary64_product(left, right),
            Op::Divide => binary64_quotient(left, right),
        }
    }
}

impl CalcState {
    /// Whether the operator is accepted: every operator needs an operand on
    /// the stack, and division also that this operand is not a zero.
    pub open spec fn accepts_operator(self, op: Op) -> bool {
        match op {
            Op::Divide => self.accepts_division(),
            _ => self.stack.len() > 0,
        }
    }

    /// The state after an operator key: an accepted operator replaces the top
    /// of the stack and the value being edited by its result, any other
    /// changes nothing.
    pub open spec fn after_operator(self, op: Op) -> CalcState {
        if self.accepts_operator(op) {
            self.reduced(op.applied(self.stack.last(), self.current))
        } else {
            self
        }
    }

    /// Whether the command changes what is on display. Commands that are
    /// ignored do not.
    pub open spec fn changed_by(self, message: Message) -> bool {
        match message {
            Message::NumPressed(_) => true,
            Message::OpPressed(op) => self.accepts_operator(op),
            Message::Decimal => self.accepts_decimal(),
            Message::ClearItem => true,
            Message::ClearStack => true,
            Message::Enter => true,
            Message::Backspace => false,
        }
    }

    /// The state after the command.
    pub open spec fn after(self, message: Message) -> CalcState {
        match message {
            Message::NumPressed(digit) => self.after_digit(digit),
            Message::OpPressed(op) => self.after_operator(op),
            Message::Decimal => self.after_decimal(),
            Message::ClearItem => self.cleared(),
            Message::ClearStack => self.emptied(),
            Message::Enter => self.entered(),
            Message::Backspace => self,
        }
    }

    /// The state after the commands, taken in order.
    pub open spec fn after_all(self, messages: Seq<Message>) -> CalcState
        decreases messages.len(),
    {
        if messages.len() == 0 {
            self
        } else {
            self.after_all(messages.drop_last()).after(messages.last())
        }
    }

    /// The state after the digit keys, taken in order.
    pub open spec fn after_digits(self, digits: Seq<i8>) -> CalcState {
        self.after_all(digits.map_values(|digit: i8| Message::NumPressed(digit)))
    }
}

impl RpnCalc {
    /// An operator key. Says whether the display changed.
    pub fn handle_op(&mut self, op: Op) -> (changed: bool)
        ensures
            changed == old(self)@.accepts_operator(op),
            final(self)@ == old(self)@.after_operator(op),
            old(self)@.wf() ==> final(self)@.wf(),
    {
        match op {
            Op::Plus => self.do_add(),
            Op::Minus => self.do_subtract(),
            Op::Multiply => self.do_multiply(),
            Op::Divide => self.do_divide(),
        }
    }

    /// One command. Says whether the display changed and so has to be drawn
    /// again.
    pub fn handle_message(&mut self, message: Message) -> (changed: bool)
        ensures
            changed == old(self)@.changed_by(message),
            final(self)@ == old(self)@.after(message),
            old(self)@.wf() ==> final(self)@.wf(),
    {
        match message {
            Message::OpPressed(op) => self.handle_op(op),
            Message::NumPressed(digit) => self.update_current(digit),
            Message::Enter => self.enter_current(),
            Message::Decimal => self.handle_decimal(),
            Message::ClearItem => self.clear_current(),
            Message::ClearStack => self.clear_stack(),
            Message::Backspace => self.backspace(),
        }
    }
}

} // verus!
