use exprcalc::eval::{EvalError, Expr};
use exprcalc::lexer::LexError;
use exprcalc::literal::Decimal;
use exprcalc::pipeline::{evaluate_line, PipelineError};
use exprcalc::postfix::ParseError;
use exprcalc::tokenizer::Operator;

fn number(d: &Decimal) -> f64 {
    let mut text = String::new();
    if d.negative {
        text.push('-');
    }
    let whole = d.digits.len() - d.scale;
    for (i, digit) in d.digits.iter().enumerate() {
        if i == whole {
            text.push('.');
        }
        text.push(char::from(b'0' + digit));
    }
    text.parse::<f64>().unwrap()
}

fn value(e: &Expr) -> f64 {
    match e {
        Expr::Number(d) => number(d),
        Expr::Binary(op, lhs, rhs) => {
            let a = value(lhs);
            let b = value(rhs);
            match op {
                Operator::Add => a + b,
                Operator::Sub => a - b,
                Operator::Mul => a * b,
                Operator::Div => a / b,
                Operator::Pow => a.powf(b),
                Operator::Mod => a % b,
            }
        }
    }
}

fn line(text: &str) -> f64 {
    value(&evaluate_line(text).unwrap())
}

#[test]
fn precedence_orders_operations() {
    assert_eq!(line("2 + 3 * 4"), 14.0);
    assert_eq!(line("2 * 3 + 4"), 10.0);
    assert_eq!(line("2 ^ 3 ^ 2"), 512.0);
    assert_eq!(line("7 % 4 * 2"), 6.0);
}

#[test]
fn parentheses_override_precedence() {
    assert_eq!(line("(2 + 3) * 4"), 20.0);
    assert_eq!(line("2 * (3 + 4)"), 14.0);
    assert_eq!(line("((2 + 3) * (4 - 1)) ^ 2"), 225.0);
}

#[test]
fn equal_precedence_groups_left() {
    assert_eq!(line("10 - 2 - 3"), 5.0);
    assert_eq!(line("100 / 10 / 5"), 2.0);
}

#[test]
fn minus_depends_on_what_precedes_it() {
    assert_eq!(line("-3 + 4"), 1.0);
    assert_eq!(line("4 - -3"), 7.0);
    assert_eq!(line("(1) - 2"), -1.0);
    assert_eq!(line("1 -2"), -1.0);
}

#[test]
fn unmatched_parentheses_fail() {
    assert_eq!(evaluate_line("(1 + 2"), Err(PipelineError::Parse(ParseError::UnmatchedParen)));
    assert_eq!(evaluate_line("1 + 2)"), Err(PipelineError::Parse(ParseError::UnmatchedParen)));
}

#[test]
fn empty_line_underflows() {
    assert_eq!(evaluate_line(""), Err(PipelineError::Eval(EvalError::StackUnderflow)));
    assert_eq!(evaluate_line("  \n"), Err(PipelineError::Eval(EvalError::StackUnderflow)));
}

#[test]
fn division_by_zero_is_no_error() {
    let zero = Expr::Number(Decimal { negative: false, digits: vec![0], scale: 0 });
    let one = Expr::Number(Decimal { negative: false, digits: vec![1], scale: 0 });
    assert_eq!(
        evaluate_line("1 / 0"),
        Ok(Expr::Binary(Operator::Div, Box::new(one), Box::new(zero)))
    );
}

#[test]
fn division_by_zero_is_infinite() {
    let v = line("1 / 0");
    assert!(v.is_infinite() && v > 0.0);
    assert!(line("1 % 0").is_nan());
}

#[test]
fn unknown_character_is_reported_with_its_position() {
    assert_eq!(
        evaluate_line("2 + a"),
        Err(PipelineError::Lex(LexError { position: 4, character: 'a' }))
    );
}

#[test]
fn a_malformed_literal_is_reported() {
    assert_eq!(evaluate_line("1.2.3 + 4"), Err(PipelineError::Eval(EvalError::MalformedLiteral)));
}

#[test]
fn leftover_operands_are_reported() {
    assert_eq!(evaluate_line("1 2"), Err(PipelineError::Eval(EvalError::MalformedExpression)));
}

#[test]
fn the_earliest_stage_reports() {
    assert_eq!(
        evaluate_line("(1.2.3 + ?"),
        Err(PipelineError::Lex(LexError { position: 9, character: '?' }))
    );
    assert_eq!(evaluate_line("(1.2.3 +"), Err(PipelineError::Parse(ParseError::UnmatchedParen)));
}

#[test]
fn decimals_and_separators_evaluate() {
    assert_eq!(line("1_000 * 2.5"), 2500.0);
    assert_eq!(line("0.1 + 0.2"), 0.1 + 0.2);
    assert_eq!(line(".5 + 5."), 5.5);
    assert_eq!(line("-2 ^ 2"), 4.0);
    assert_eq!(line("7 % 3"), 1.0);
}
