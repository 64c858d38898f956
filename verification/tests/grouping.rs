use exprcalc::eval::Expr;
use exprcalc::literal::Decimal;
use exprcalc::pipeline::evaluate_line;
use exprcalc::tokenizer::{Associativity, Operator};

fn n(digit: u8) -> Expr {
    Expr::Number(Decimal { negative: false, digits: vec![digit], scale: 0 })
}

fn bin(op: Operator, lhs: Expr, rhs: Expr) -> Expr {
    Expr::Binary(op, Box::new(lhs), Box::new(rhs))
}

fn symbol(op: Operator) -> char {
    match op {
        Operator::Add => '+',
        Operator::Sub => '-',
        Operator::Mul => '*',
        Operator::Div => '/',
        Operator::Pow => '^',
        Operator::Mod => '%',
    }
}

/// The expression written in a line, without parentheses.
fn line_of(e: &Expr) -> String {
    match e {
        Expr::Number(d) => d.digits.iter().map(|digit| char::from(b'0' + digit)).collect(),
        Expr::Binary(op, lhs, rhs) => format!("{}{}{}", line_of(lhs), symbol(*op), line_of(rhs)),
    }
}

fn fits_left(op: Operator, e: &Expr) -> bool {
    match e {
        Expr::Number(_) => true,
        Expr::Binary(inner, _, _) => {
            inner.precedence() > op.precedence()
                || (inner.precedence() == op.precedence()
                    && op.associativity() == Associativity::Left)
        }
    }
}

fn fits_right(op: Operator, e: &Expr) -> bool {
    match e {
        Expr::Number(_) => true,
        Expr::Binary(inner, _, _) => {
            inner.precedence() > op.precedence()
                || (inner.precedence() == op.precedence()
                    && op.associativity() == Associativity::Right)
        }
    }
}

fn well_grouped(e: &Expr) -> bool {
    match e {
        Expr::Number(_) => true,
        Expr::Binary(op, lhs, rhs) => {
            well_grouped(lhs) && well_grouped(rhs) && fits_left(*op, lhs) && fits_right(*op, rhs)
        }
    }
}

#[test]
fn multiplication_groups_before_addition() {
    assert_eq!(
        evaluate_line("2 + 3 * 4"),
        Ok(bin(Operator::Add, n(2), bin(Operator::Mul, n(3), n(4))))
    );
    assert_eq!(
        evaluate_line("2 * 3 + 4"),
        Ok(bin(Operator::Add, bin(Operator::Mul, n(2), n(3)), n(4)))
    );
}

#[test]
fn subtraction_groups_from_the_left() {
    assert_eq!(
        evaluate_line("9 - 2 - 3"),
        Ok(bin(Operator::Sub, bin(Operator::Sub, n(9), n(2)), n(3)))
    );
}

#[test]
fn power_groups_from_the_right() {
    assert_eq!(
        evaluate_line("2 ^ 3 ^ 2"),
        Ok(bin(Operator::Pow, n(2), bin(Operator::Pow, n(3), n(2))))
    );
}

#[test]
fn a_group_is_one_operand() {
    assert_eq!(
        evaluate_line("(2 + 3) * 4"),
        Ok(bin(Operator::Mul, bin(Operator::Add, n(2), n(3)), n(4)))
    );
    assert_eq!(
        evaluate_line("9 - (2 - 3)"),
        Ok(bin(Operator::Sub, n(9), bin(Operator::Sub, n(2), n(3))))
    );
    assert_eq!(
        evaluate_line("(2 ^ 3) ^ 2"),
        Ok(bin(Operator::Pow, bin(Operator::Pow, n(2), n(3)), n(2)))
    );
    assert_eq!(evaluate_line("((7))"), Ok(n(7)));
}

#[test]
fn every_flat_line_reads_back_and_is_well_grouped() {
    let symbols = ['+', '-', '*', '/', '^', '%'];
    for a in symbols {
        for b in symbols {
            for c in symbols {
                let text = format!("1{}2{}3{}4", a, b, c);
                let e = evaluate_line(&text).unwrap();
                assert_eq!(line_of(&e), text);
                assert!(well_grouped(&e));
            }
        }
    }
}

/// The expression written with every operation in parentheses.
fn in_parentheses(e: &Expr) -> String {
    match e {
        Expr::Number(d) => d.digits.iter().map(|digit| char::from(b'0' + digit)).collect(),
        Expr::Binary(op, lhs, rhs) => {
            format!("({} {} {})", in_parentheses(lhs), symbol(*op), in_parentheses(rhs))
        }
    }
}

#[test]
fn parentheses_say_the_grouping_again() {
    for text in [
        "1 + 2 * 3 - 4 / 5 ^ 6 % 7",
        "(1 + 2) * (3 - 4) / 5",
        "2 ^ 3 ^ (4 - 1) ^ 2",
        "((1)) - ((2 - 3) - 4)",
        "1 - (2 - (3 - (4 - 5)))",
        "9 % (4 + 1) * 2",
    ] {
        let e = evaluate_line(text).unwrap();
        assert_eq!(evaluate_line(&in_parentheses(&e)), Ok(e));
    }
}

#[test]
fn every_expression_in_infix_order_evaluates() {
    let operands = ["1", "(2)", "(3 + 4)", "((5 * 6) - 7)"];
    let symbols = ['+', '-', '*', '/', '^', '%'];
    for a in operands {
        for b in operands {
            for c in operands {
                for x in symbols {
                    for y in symbols {
                        let text = format!("{} {} {} {} {}", a, x, b, y, c);
                        assert!(evaluate_line(&text).is_ok());
                        let grouped = format!("(({} {} {}) {} {})", a, x, b, y, c);
                        assert!(evaluate_line(&grouped).is_ok());
                    }
                }
            }
        }
    }
}
