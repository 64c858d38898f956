use exprcalc::lexer::tokenize;
use exprcalc::postfix::{to_postfix, ParseError};
use exprcalc::token::{Token, TokenKind};

fn spell(text: &str) -> Result<String, ParseError> {
    let tokens = tokenize(text).unwrap();
    let postfix = to_postfix(&tokens)?;
    let words: Vec<&str> = postfix.iter().map(|t| &text[t.start..t.end]).collect();
    Ok(words.join(" "))
}

#[test]
fn nothing_in_nothing_out() {
    assert_eq!(to_postfix(&[]), Ok(vec![]));
}

#[test]
fn higher_precedence_leaves_first() {
    assert_eq!(spell("2 + 3 * 4"), Ok(String::from("2 3 4 * +")));
    assert_eq!(spell("2 * 3 + 4"), Ok(String::from("2 3 * 4 +")));
    assert_eq!(spell("1 + 2 * 3 ^ 4"), Ok(String::from("1 2 3 4 ^ * +")));
    assert_eq!(spell("1 ^ 2 * 3 + 4"), Ok(String::from("1 2 ^ 3 * 4 +")));
    assert_eq!(spell("8 % 3 + 1"), Ok(String::from("8 3 % 1 +")));
}

#[test]
fn left_associative_operators_leave_on_a_tie() {
    assert_eq!(spell("10 - 2 - 3"), Ok(String::from("10 2 - 3 -")));
    assert_eq!(spell("8 / 4 * 2 % 3"), Ok(String::from("8 4 / 2 * 3 %")));
    assert_eq!(spell("1 + 2 - 3"), Ok(String::from("1 2 + 3 -")));
}

#[test]
fn right_associative_operators_stay_on_a_tie() {
    assert_eq!(spell("2 ^ 3 ^ 2"), Ok(String::from("2 3 2 ^ ^")));
}

#[test]
fn parentheses_hold_operators_back() {
    assert_eq!(spell("(2 + 3) * 4"), Ok(String::from("2 3 + 4 *")));
    assert_eq!(spell("2 * (3 + 4)"), Ok(String::from("2 3 4 + *")));
    assert_eq!(spell("((1))"), Ok(String::from("1")));
    assert_eq!(spell("(1 + 2) * (3 - (4 / 5))"), Ok(String::from("1 2 + 3 4 5 / - *")));
    assert_eq!(spell("2 ^ (1 + 1) ^ 2"), Ok(String::from("2 1 1 + 2 ^ ^")));
}

#[test]
fn tokens_keep_their_spans() {
    let tokens = tokenize("12 + 3").unwrap();
    let postfix = to_postfix(&tokens).unwrap();
    assert_eq!(postfix, vec![tokens[0], tokens[2], tokens[1]]);
}

#[test]
fn a_closing_parenthesis_needs_an_opening_one() {
    assert_eq!(spell("1 + 2)"), Err(ParseError::UnmatchedParen));
    assert_eq!(spell(")"), Err(ParseError::UnmatchedParen));
    assert_eq!(spell(")("), Err(ParseError::UnmatchedParen));
    assert_eq!(spell("(1))"), Err(ParseError::UnmatchedParen));
}

#[test]
fn an_opening_parenthesis_needs_a_closing_one() {
    assert_eq!(spell("(1 + 2"), Err(ParseError::UnmatchedParen));
    assert_eq!(spell("("), Err(ParseError::UnmatchedParen));
    assert_eq!(spell("((1)"), Err(ParseError::UnmatchedParen));
    assert_eq!(spell("1 + (2 * (3 + 4)"), Err(ParseError::UnmatchedParen));
}

#[test]
fn balanced_parentheses_always_pass() {
    assert_eq!(spell("()"), Ok(String::new()));
    assert_eq!(spell("()()"), Ok(String::new()));
    assert_eq!(spell("(+)"), Ok(String::from("+")));
    assert_eq!(spell("1 2 + +"), Ok(String::from("1 2 + +")));
}

#[test]
fn the_output_holds_no_parenthesis() {
    let tokens = tokenize("((1 + 2) * (3 - 4)) / (5)").unwrap();
    let postfix = to_postfix(&tokens).unwrap();
    assert_eq!(postfix.len(), 9);
    for t in postfix {
        assert!(t.kind != TokenKind::OpenParen && t.kind != TokenKind::CloseParen);
    }
}

#[test]
fn spans_need_not_point_anywhere() {
    let far = Token { kind: TokenKind::Number, start: 1000, end: 2000 };
    assert_eq!(to_postfix(&[far]), Ok(vec![far]));
}
