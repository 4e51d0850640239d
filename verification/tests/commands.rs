use rpn_calculator::command::{Message, Op};
use rpn_calculator::rpn_calc::{EditMode, RpnCalc};

fn run(calc: &mut RpnCalc, messages: &[Message]) -> Vec<bool> {
    messages.iter().map(|message| calc.handle_message(*message)).collect()
}

#[test]
fn every_command_reaches_its_operation() {
    let mut calc = RpnCalc::new();
    let changed = run(
        &mut calc,
        &[
            Message::NumPressed(1),
            Message::NumPressed(2),
            Message::Enter,
            Message::NumPressed(4),
            Message::Decimal,
            Message::NumPressed(5),
            Message::Decimal,
            Message::Backspace,
            Message::OpPressed(Op::Multiply),
        ],
    );
    assert_eq!(changed, vec![true, true, true, true, true, true, false, false, true]);
    assert_eq!(f64::from_bits(calc.current()), 54.0);
    assert!(calc.stack().is_empty());
    assert_eq!(calc.edit_mode(), EditMode::PushNext);
}

#[test]
fn each_operator_key_applies_its_operator() {
    let cases = [(Op::Plus, 13.0), (Op::Minus, 7.0), (Op::Multiply, 30.0), (Op::Divide, 10.0 / 3.0)];
    for (op, expected) in cases {
        let mut calc = RpnCalc::new();
        run(&mut calc, &[Message::NumPressed(1), Message::NumPressed(0), Message::Enter, Message::NumPressed(3)]);
        assert!(calc.handle_op(op));
        assert_eq!(f64::from_bits(calc.current()), expected);
        assert_eq!(calc.edit_mode(), EditMode::PushNext);
    }
}

#[test]
fn rejected_commands_report_no_change() {
    let mut calc = RpnCalc::new();
    for op in [Op::Plus, Op::Minus, Op::Multiply, Op::Divide] {
        assert!(!calc.handle_message(Message::OpPressed(op)));
        assert!(!calc.handle_op(op));
    }
    assert!(!calc.handle_message(Message::Backspace));
    assert_eq!(calc.to_string(), "0");
    run(&mut calc, &[Message::Enter, Message::NumPressed(7)]);
    assert!(!calc.handle_message(Message::OpPressed(Op::Divide)));
    assert_eq!(calc.to_string(), "0\n7");
    assert!(calc.handle_message(Message::OpPressed(Op::Plus)));
    assert_eq!(calc.to_string(), "7");
}

#[test]
fn clear_keys_clear() {
    let mut calc = RpnCalc::new();
    run(&mut calc, &[Message::NumPressed(1), Message::Enter, Message::NumPressed(2)]);
    assert!(calc.handle_message(Message::ClearItem));
    assert_eq!(calc.to_string(), "1\n0");
    assert!(calc.handle_message(Message::ClearStack));
    assert_eq!(calc.to_string(), "0");
}

#[test]
fn a_session_renders_after_each_change() {
    let mut calc = RpnCalc::new();
    let keys = [
        (Message::NumPressed(3), Some("3")),
        (Message::Enter, Some("3\n0")),
        (Message::NumPressed(4), Some("3\n4")),
        (Message::Backspace, None),
        (Message::OpPressed(Op::Plus), Some("7")),
        (Message::OpPressed(Op::Plus), None),
        (Message::NumPressed(2), Some("7\n2")),
        (Message::OpPressed(Op::Divide), Some("3.5")),
        (Message::Decimal, Some("3.5\n0")),
        (Message::Decimal, None),
        (Message::NumPressed(5), Some("3.5\n0.5")),
        (Message::OpPressed(Op::Minus), Some("3")),
        (Message::ClearStack, Some("0")),
    ];
    for (message, display) in keys {
        let changed = calc.handle_message(message);
        assert_eq!(changed, display.is_some(), "{:?}", message);
        if let Some(text) = display {
            assert_eq!(calc.to_string(), text);
        }
    }
}
