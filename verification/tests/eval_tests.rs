use std::collections::HashMap;

use pratt_calc::eval::{EvalError, Instr, OpKind};
use pratt_calc::expr::Expression;

/// Runs a compiled postfix program over an f32 stack, the way the
/// surrounding calculator does.
fn run(prog: &[Instr], vars: &HashMap<char, f32>) -> f32 {
    let mut stack: Vec<f32> = Vec::new();
    for instr in prog {
        match instr {
            Instr::PushDigit(d) => stack.push(*d as f32),
            Instr::PushVar(c) => stack.push(*vars.get(c).unwrap()),
            Instr::Apply(k) => {
                let rhs = stack.pop().unwrap();
                let lhs = stack.pop().unwrap();
                let v = match k {
                    OpKind::Add => lhs + rhs,
                    OpKind::Sub => lhs - rhs,
                    OpKind::Mul => lhs * rhs,
                    OpKind::Div => lhs / rhs,
                    OpKind::Pow => lhs.powf(rhs),
                    OpKind::Root => lhs.powf(1.0 / rhs),
                };
                stack.push(v);
            }
        }
    }
    assert_eq!(stack.len(), 1);
    stack[0]
}

fn eval_with(input: &str, vars: &HashMap<char, f32>) -> Result<f32, EvalError> {
    let expr = Expression::from_str(input).unwrap();
    let names: Vec<char> = vars.keys().copied().collect();
    let prog = expr.compile(&names)?;
    Ok(run(&prog, vars))
}

#[test]
fn evaluation_respects_precedence() {
    let mut vars = HashMap::new();
    vars.insert('b', 5.0);
    assert_eq!(eval_with("2 + b * 5", &vars), Ok(27.0));
}

#[test]
fn undefined_variable_is_reported() {
    let vars = HashMap::new();
    assert_eq!(
        eval_with("x", &vars),
        Err(EvalError::UndefinedVariable('x'))
    );
}

#[test]
fn compile_emits_postfix_in_evaluation_order() {
    let expr = Expression::from_str("1 + 2 * 3").unwrap();
    let prog = expr.compile(&vec![]).unwrap();
    assert_eq!(
        prog,
        vec![
            Instr::PushDigit(1),
            Instr::PushDigit(2),
            Instr::PushDigit(3),
            Instr::Apply(OpKind::Mul),
            Instr::Apply(OpKind::Add),
        ]
    );
}

#[test]
fn arithmetic_matches_the_operators() {
    let vars = HashMap::new();
    assert_eq!(eval_with("9 - 4", &vars), Ok(5.0));
    assert_eq!(eval_with("9 / 2", &vars), Ok(4.5));
    assert_eq!(eval_with("2 ^ 3", &vars), Ok(8.0));
    // The radical computes the right-th root of the left operand.
    let root = eval_with("8 √ 3", &vars).unwrap();
    assert!((root - 2.0).abs() < 1e-4);
    assert_eq!(eval_with("(2 + 2) * 2", &vars), Ok(8.0));
}

#[test]
fn division_by_zero_follows_float_semantics() {
    let vars = HashMap::new();
    assert_eq!(eval_with("1 / 0", &vars), Ok(f32::INFINITY));
}

#[test]
fn errors_surface_left_to_right() {
    let mut vars = HashMap::new();
    vars.insert('b', 5.0);
    // The left operand is checked before the right one.
    assert_eq!(
        eval_with("x + y", &vars),
        Err(EvalError::UndefinedVariable('x'))
    );
    // Both operands are checked before the node's own operator.
    assert_eq!(
        eval_with("b . z", &vars),
        Err(EvalError::UndefinedVariable('z'))
    );
}

#[test]
fn undefined_operations_are_reported() {
    let vars = HashMap::new();
    assert_eq!(eval_with("1 . 2", &vars), Err(EvalError::BadOperator('.')));
    assert_eq!(eval_with("1 = 2", &vars), Err(EvalError::BadOperator('=')));
}

#[test]
fn non_alphanumeric_leaves_are_reported() {
    let expr = Expression::Atom('%');
    assert_eq!(expr.compile(&vec![]), Err(EvalError::BadAtom('%')));
}

#[test]
fn assignment_is_detected_at_the_root() {
    let expr = Expression::from_str("a = 2 + 3").unwrap();
    match expr.is_asign() {
        Ok(Some((target, rhs))) => {
            assert_eq!(target, 'a');
            assert_eq!(rhs.to_string(), "(+ 2 3)");
        }
        other => panic!("expected an assignment, got {:?}", other),
    }
}

#[test]
fn ordinary_expressions_are_not_assignments() {
    let expr = Expression::from_str("2 + 3").unwrap();
    assert_eq!(expr.is_asign(), Ok(None));
    let atom = Expression::from_str("a").unwrap();
    assert_eq!(atom.is_asign(), Ok(None));
}

#[test]
fn assignment_target_must_be_a_letter() {
    let expr = Expression::from_str("1 = 2").unwrap();
    assert_eq!(expr.is_asign(), Err(EvalError::NotAVariableName('1')));
    let expr = Expression::from_str("(a + b) = 2").unwrap();
    assert_eq!(expr.is_asign(), Err(EvalError::MalformedAssignment));
}

#[test]
fn assignment_right_hand_side_evaluates() {
    let expr = Expression::from_str("a = 2 + 3").unwrap();
    let vars: HashMap<char, f32> = HashMap::new();
    match expr.is_asign() {
        Ok(Some((target, rhs))) => {
            let names: Vec<char> = vars.keys().copied().collect();
            let prog = rhs.compile(&names).unwrap();
            assert_eq!(target, 'a');
            assert_eq!(run(&prog, &vars), 5.0);
        }
        other => panic!("expected an assignment, got {:?}", other),
    }
}
