use calculator::{CalculatorState, Op};

#[test]
fn digit_entry_is_literal() {
    let mut calc = CalculatorState::default();
    calc.input_digit(1);
    calc.input_digit(2);
    calc.input_digit(3);
    assert_eq!(calc.current_text(), "123");
}

#[test]
fn leading_zero_is_replaced() {
    let mut calc = CalculatorState::default();
    calc.input_digit(0);
    assert_eq!(calc.current_text(), "0");
    calc.input_digit(0);
    assert_eq!(calc.current_text(), "0");
    calc.input_digit(7);
    assert_eq!(calc.current_text(), "7");
}

#[test]
fn second_decimal_point_is_ignored() {
    let mut calc = CalculatorState::default();
    calc.input_digit(1);
    calc.input_decimal();
    calc.input_decimal();
    calc.input_digit(2);
    assert_eq!(calc.current_text(), "1.2");
}

#[test]
fn toggle_sign_on_zero_is_noop() {
    let mut calc = CalculatorState::default();
    calc.input_digit(0);
    calc.toggle_sign();
    assert_eq!(calc.current_text(), "0");
    assert!(!calc.error());
}

#[test]
fn toggle_sign_twice_restores() {
    let mut calc = CalculatorState::default();
    calc.input_digit(5);
    calc.toggle_sign();
    assert_eq!(calc.current_text(), "-5");
    calc.toggle_sign();
    assert_eq!(calc.current_text(), "5");
}

#[test]
fn set_op_without_entry_or_pending_is_noop() {
    let mut calc = CalculatorState::default();
    calc.set_op(Op::Add);
    assert_eq!(calc.current_text(), "");
    assert_eq!(calc.expression_text(), "");
    assert!(!calc.error());
    calc.input_digit(5);
    calc.evaluate();
    assert_eq!(calc.current_text(), "5");
    assert!(!calc.error());
}

#[test]
fn evaluate_without_history_is_noop() {
    let mut calc = CalculatorState::default();
    calc.evaluate();
    assert_eq!(calc.current_text(), "");
    assert_eq!(calc.expression_text(), "");
    assert!(!calc.error());
}

#[test]
fn clear_resets_even_after_fault() {
    let mut calc = CalculatorState::default();
    calc.input_digit(9);
    calc.set_op(Op::Div);
    calc.input_digit(0);
    calc.evaluate();
    assert!(calc.error());
    calc.clear();
    assert!(!calc.error());
    assert_eq!(calc.current_text(), "");
    assert_eq!(calc.expression_text(), "");
    calc.input_digit(2);
    calc.set_op(Op::Add);
    calc.input_digit(3);
    calc.evaluate();
    assert_eq!(calc.current_text(), "5");
}

#[test]
fn fault_gates_every_command_but_clear() {
    let mut calc = CalculatorState::default();
    calc.input_digit(9);
    calc.set_op(Op::Div);
    calc.input_digit(0);
    calc.evaluate();
    assert!(calc.error());
    let shown = calc.current_text();
    calc.input_digit(5);
    calc.input_decimal();
    calc.backspace();
    calc.toggle_sign();
    calc.set_op(Op::Add);
    calc.evaluate();
    assert!(calc.error());
    assert_eq!(calc.current_text(), shown);
}

#[test]
fn division_is_truncated_to_sixteen_fraction_digits() {
    let mut calc = CalculatorState::default();
    calc.input_digit(1);
    calc.set_op(Op::Div);
    calc.input_digit(3);
    calc.evaluate();
    assert_eq!(calc.current_text(), "0.3333333333333333");
}

#[test]
fn division_with_exact_result() {
    let mut calc = CalculatorState::default();
    calc.input_digit(7);
    calc.input_decimal();
    calc.input_digit(5);
    calc.set_op(Op::Div);
    calc.input_digit(2);
    calc.input_decimal();
    calc.input_digit(5);
    calc.evaluate();
    assert_eq!(calc.current_text(), "3");
}

#[test]
fn decimal_addition_is_exact() {
    let mut calc = CalculatorState::default();
    calc.input_digit(0);
    calc.input_decimal();
    calc.input_digit(1);
    calc.set_op(Op::Add);
    calc.input_digit(0);
    calc.input_decimal();
    calc.input_digit(2);
    calc.evaluate();
    assert_eq!(calc.current_text(), "0.3");
}

#[test]
fn subtraction_can_go_negative() {
    let mut calc = CalculatorState::default();
    calc.input_digit(3);
    calc.set_op(Op::Sub);
    calc.input_digit(5);
    calc.evaluate();
    assert_eq!(calc.current_text(), "-2");
}

#[test]
fn pending_operator_can_be_replaced() {
    let mut calc = CalculatorState::default();
    calc.input_digit(5);
    calc.set_op(Op::Add);
    calc.set_op(Op::Mul);
    calc.input_digit(3);
    calc.evaluate();
    assert_eq!(calc.current_text(), "15");
}

#[test]
fn expression_line_shows_resolved_form() {
    let mut calc = CalculatorState::default();
    calc.input_digit(1);
    calc.input_digit(2);
    calc.set_op(Op::Add);
    assert_eq!(calc.expression_text(), "12 + ");
    calc.input_digit(5);
    calc.evaluate();
    assert_eq!(calc.expression_text(), "12 + 5 =");
    assert_eq!(calc.current_text(), "17");
}

#[test]
fn repeat_evaluate_chains() {
    let mut calc = CalculatorState::default();
    calc.input_digit(5);
    calc.set_op(Op::Add);
    calc.input_digit(2);
    calc.evaluate();
    calc.evaluate();
    calc.evaluate();
    assert_eq!(calc.current_text(), "11");
}

#[test]
fn out_of_range_result_faults() {
    let mut calc = CalculatorState::default();
    for _ in 0..16 {
        calc.input_digit(9);
    }
    calc.set_op(Op::Mul);
    for _ in 0..16 {
        calc.input_digit(9);
    }
    calc.evaluate();
    assert!(calc.error());
}

#[test]
fn sign_toggled_entry_computes() {
    let mut calc = CalculatorState::default();
    calc.input_digit(5);
    calc.toggle_sign();
    calc.set_op(Op::Add);
    calc.input_digit(8);
    calc.evaluate();
    assert_eq!(calc.current_text(), "3");
}

#[test]
fn lone_sign_fails_to_parse() {
    let mut calc = CalculatorState::default();
    calc.input_digit(5);
    calc.toggle_sign();
    calc.backspace();
    assert_eq!(calc.current_text(), "-");
    calc.set_op(Op::Add);
    assert!(calc.error());
}

#[test]
fn tiny_product_truncates_to_zero() {
    let mut calc = CalculatorState::default();
    calc.input_decimal();
    for _ in 0..6 {
        calc.input_digit(0);
    }
    calc.input_digit(1);
    assert_eq!(calc.current_text(), "0.0000001");
    calc.set_op(Op::Mul);
    calc.input_decimal();
    for _ in 0..9 {
        calc.input_digit(0);
    }
    calc.input_digit(1);
    calc.evaluate();
    assert_eq!(calc.current_text(), "0");
    assert!(!calc.error());
}
