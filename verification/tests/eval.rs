use exprcalc::eval::{evaluate, EvalError, Expr};
use exprcalc::lexer::tokenize;
use exprcalc::literal::Decimal;
use exprcalc::postfix::to_postfix;
use exprcalc::token::{Token, TokenKind};
use exprcalc::tokenizer::Operator;

fn whole(n: u8) -> Expr {
    Expr::Number(Decimal { negative: false, digits: vec![n], scale: 0 })
}

fn bin(op: Operator, lhs: Expr, rhs: Expr) -> Expr {
    Expr::Binary(op, Box::new(lhs), Box::new(rhs))
}

fn num(start: usize, end: usize) -> Token {
    Token { kind: TokenKind::Number, start, end }
}

fn op(o: Operator, start: usize) -> Token {
    Token { kind: TokenKind::Operator(o), start, end: start + 1 }
}

fn tree(text: &str) -> Result<Expr, EvalError> {
    let tokens = tokenize(text).unwrap();
    let postfix = to_postfix(&tokens).unwrap();
    evaluate(text, &postfix)
}

#[test]
fn a_number_alone() {
    assert_eq!(evaluate("5", &[num(0, 1)]), Ok(whole(5)));
}

#[test]
fn the_first_pop_is_the_right_operand() {
    let postfix = [num(0, 1), num(2, 3), op(Operator::Sub, 4)];
    assert_eq!(evaluate("7 2 -", &postfix), Ok(bin(Operator::Sub, whole(7), whole(2))));
    let postfix = [num(0, 1), num(2, 3), op(Operator::Div, 4)];
    assert_eq!(evaluate("7 2 /", &postfix), Ok(bin(Operator::Div, whole(7), whole(2))));
}

#[test]
fn operations_nest() {
    let postfix = [num(0, 1), num(2, 3), num(4, 5), op(Operator::Mul, 6), op(Operator::Add, 8)];
    assert_eq!(
        evaluate("2 3 4 * +", &postfix),
        Ok(bin(Operator::Add, whole(2), bin(Operator::Mul, whole(3), whole(4))))
    );
}

#[test]
fn every_operator_is_kept() {
    for (symbol, o) in [
        ('+', Operator::Add),
        ('-', Operator::Sub),
        ('*', Operator::Mul),
        ('/', Operator::Div),
        ('^', Operator::Pow),
        ('%', Operator::Mod),
    ] {
        let text = format!("1 {} 2", symbol);
        assert_eq!(tree(&text), Ok(bin(o, whole(1), whole(2))));
    }
}

#[test]
fn nothing_to_evaluate_underflows() {
    assert_eq!(evaluate("", &[]), Err(EvalError::StackUnderflow));
    assert_eq!(evaluate("1 + 2", &[]), Err(EvalError::StackUnderflow));
}

#[test]
fn an_operator_short_of_operands_underflows() {
    assert_eq!(evaluate("+", &[op(Operator::Add, 0)]), Err(EvalError::StackUnderflow));
    assert_eq!(
        evaluate("1 +", &[num(0, 1), op(Operator::Add, 2)]),
        Err(EvalError::StackUnderflow)
    );
    assert_eq!(tree("1 +"), Err(EvalError::StackUnderflow));
    assert_eq!(tree("* 2"), Err(EvalError::StackUnderflow));
}

#[test]
fn a_bad_literal_is_malformed() {
    assert_eq!(tree("1.2.3"), Err(EvalError::MalformedLiteral));
    assert_eq!(tree("1 + ."), Err(EvalError::MalformedLiteral));
    assert_eq!(tree("- 3"), Err(EvalError::MalformedLiteral));
    assert_eq!(tree("--3"), Err(EvalError::MalformedLiteral));
    assert_eq!(tree("_"), Err(EvalError::MalformedLiteral));
}

#[test]
fn a_span_outside_the_source_is_malformed() {
    assert_eq!(evaluate("12", &[num(0, 3)]), Err(EvalError::MalformedLiteral));
    assert_eq!(evaluate("12", &[num(2, 1)]), Err(EvalError::MalformedLiteral));
}

#[test]
fn operands_left_over_are_an_error() {
    assert_eq!(tree("1 2"), Err(EvalError::MalformedExpression));
    assert_eq!(tree("1 2 + 3"), Err(EvalError::MalformedExpression));
    assert_eq!(tree("(1)(2)"), Err(EvalError::MalformedExpression));
}

#[test]
fn a_parenthesis_in_postfix_is_an_error() {
    let open = Token { kind: TokenKind::OpenParen, start: 0, end: 1 };
    let close = Token { kind: TokenKind::CloseParen, start: 0, end: 1 };
    assert_eq!(evaluate("(", &[open]), Err(EvalError::MalformedExpression));
    assert_eq!(evaluate(")", &[close]), Err(EvalError::MalformedExpression));
    assert_eq!(evaluate("1 (", &[num(0, 1), open]), Err(EvalError::MalformedExpression));
}

#[test]
fn the_first_failing_token_decides() {
    let postfix = [op(Operator::Add, 0), num(2, 3)];
    assert_eq!(evaluate("+ .", &postfix), Err(EvalError::StackUnderflow));
    let postfix = [num(2, 3), op(Operator::Add, 0)];
    assert_eq!(evaluate("+ .", &postfix), Err(EvalError::MalformedLiteral));
}

#[test]
fn literals_are_read_from_the_source() {
    assert_eq!(
        tree("-1_0.5 * 2"),
        Ok(bin(
            Operator::Mul,
            Expr::Number(Decimal { negative: true, digits: vec![1, 0, 5], scale: 1 }),
            whole(2)
        ))
    );
}

#[test]
fn a_deep_chain_evaluates() {
    let mut text = String::from("1");
    for _ in 0..200 {
        text.push_str(" + 1");
    }
    let mut e = tree(&text).unwrap();
    let mut depth = 0;
    while let Expr::Binary(o, lhs, rhs) = e {
        assert_eq!(o, Operator::Add);
        assert_eq!(*rhs, whole(1));
        e = *lhs;
        depth += 1;
    }
    assert_eq!(depth, 200);
    assert_eq!(e, whole(1));
}
