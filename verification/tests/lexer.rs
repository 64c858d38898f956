use exprcalc::lexer::{guard_integer, push_char, tokenize, tokenize_num, LexError};
use exprcalc::token::{Token, TokenKind};
use exprcalc::tokenizer::Operator;

fn num(start: usize, end: usize) -> Token {
    Token { kind: TokenKind::Number, start, end }
}

fn op(o: Operator, start: usize) -> Token {
    Token { kind: TokenKind::Operator(o), start, end: start + 1 }
}

#[test]
fn empty_text_has_no_tokens() {
    assert_eq!(tokenize(""), Ok(vec![]));
    assert_eq!(tokenize(" \n  "), Ok(vec![]));
}

#[test]
fn every_operator_and_parenthesis_is_one_token() {
    assert_eq!(
        tokenize("1+2*3/4^5%6"),
        Ok(vec![
            num(0, 1),
            op(Operator::Add, 1),
            num(2, 3),
            op(Operator::Mul, 3),
            num(4, 5),
            op(Operator::Div, 5),
            num(6, 7),
            op(Operator::Pow, 7),
            num(8, 9),
            op(Operator::Mod, 9),
            num(10, 11),
        ])
    );
    assert_eq!(
        tokenize("()"),
        Ok(vec![
            Token { kind: TokenKind::OpenParen, start: 0, end: 1 },
            Token { kind: TokenKind::CloseParen, start: 1, end: 2 },
        ])
    );
}

#[test]
fn a_number_is_a_maximal_run() {
    assert_eq!(tokenize("1_000.50"), Ok(vec![num(0, 8)]));
    assert_eq!(tokenize("12 + 345"), Ok(vec![num(0, 2), op(Operator::Add, 3), num(5, 8)]));
    assert_eq!(tokenize("1__2..3"), Ok(vec![num(0, 7)]));
}

#[test]
fn white_space_ends_a_number() {
    assert_eq!(tokenize("1 2"), Ok(vec![num(0, 1), num(2, 3)]));
    assert_eq!(tokenize("1\n2"), Ok(vec![num(0, 1), num(2, 3)]));
    assert_eq!(tokenize("- 3"), Ok(vec![num(0, 1), num(2, 3)]));
}

#[test]
fn minus_opens_a_number_where_no_operand_precedes() {
    assert_eq!(tokenize("-3 + 4"), Ok(vec![num(0, 2), op(Operator::Add, 3), num(5, 6)]));
    assert_eq!(tokenize("4 - -3"), Ok(vec![num(0, 1), op(Operator::Sub, 2), num(4, 6)]));
    assert_eq!(
        tokenize("(-1)"),
        Ok(vec![
            Token { kind: TokenKind::OpenParen, start: 0, end: 1 },
            num(1, 3),
            Token { kind: TokenKind::CloseParen, start: 3, end: 4 },
        ])
    );
    assert_eq!(tokenize("2*-3"), Ok(vec![num(0, 1), op(Operator::Mul, 1), num(2, 4)]));
}

#[test]
fn minus_subtracts_after_a_number_or_a_closing_parenthesis() {
    assert_eq!(tokenize("1-2"), Ok(vec![num(0, 1), op(Operator::Sub, 1), num(2, 3)]));
    assert_eq!(
        tokenize("(1) - 2"),
        Ok(vec![
            Token { kind: TokenKind::OpenParen, start: 0, end: 1 },
            num(1, 2),
            Token { kind: TokenKind::CloseParen, start: 2, end: 3 },
            op(Operator::Sub, 4),
            num(6, 7),
        ])
    );
    assert_eq!(tokenize("--3"), Ok(vec![num(0, 1), op(Operator::Sub, 1), num(2, 3)]));
}

#[test]
fn the_first_unknown_character_is_reported() {
    assert_eq!(tokenize("2 + a"), Err(LexError { position: 4, character: 'a' }));
    assert_eq!(tokenize("x"), Err(LexError { position: 0, character: 'x' }));
    assert_eq!(tokenize("1 $ 2 # 3"), Err(LexError { position: 2, character: '$' }));
    assert_eq!(tokenize("1\t2"), Err(LexError { position: 1, character: '\t' }));
    assert_eq!(tokenize("12é"), Err(LexError { position: 2, character: 'é' }));
}

#[test]
fn guard_integer_accepts_digits_point_and_separator() {
    for c in "0123456789._".chars() {
        assert!(guard_integer(c));
    }
    for c in "-+ a(/٣".chars() {
        assert!(!guard_integer(c));
    }
}

#[test]
fn tokenize_num_lengthens_the_number_that_ends_here() {
    let mut acc = vec![num(0, 2)];
    assert_eq!(tokenize_num(&mut acc, 2), None);
    assert_eq!(acc, vec![num(0, 3)]);
}

#[test]
fn tokenize_num_opens_a_number_elsewhere() {
    let mut empty: Vec<Token> = vec![];
    assert_eq!(tokenize_num(&mut empty, 0), Some(TokenKind::Number));
    assert!(empty.is_empty());
    let mut gap = vec![num(0, 2)];
    assert_eq!(tokenize_num(&mut gap, 3), Some(TokenKind::Number));
    assert_eq!(gap, vec![num(0, 2)]);
    let mut after_op = vec![op(Operator::Add, 0)];
    assert_eq!(tokenize_num(&mut after_op, 1), Some(TokenKind::Number));
    assert_eq!(after_op, vec![op(Operator::Add, 0)]);
}

#[test]
fn push_char_reads_one_character() {
    assert_eq!(push_char(vec![], 0, ' '), Ok(vec![]));
    assert_eq!(push_char(vec![], 0, '7'), Ok(vec![num(0, 1)]));
    assert_eq!(push_char(vec![num(0, 1)], 1, '7'), Ok(vec![num(0, 2)]));
    assert_eq!(push_char(vec![num(0, 1)], 1, '-'), Ok(vec![num(0, 1), op(Operator::Sub, 1)]));
    assert_eq!(push_char(vec![], 5, '-'), Ok(vec![num(5, 6)]));
    assert_eq!(push_char(vec![num(0, 1)], 1, '?'), Err(LexError { position: 1, character: '?' }));
}

#[test]
fn a_number_token_reads_back_alone() {
    for text in ["-12.5 + 3_000 * (4 - -7.25)", "1 2 .5 5.", "--3", "1_000.50"] {
        let tokens = tokenize(text).unwrap();
        for t in tokens.iter().filter(|t| t.kind == TokenKind::Number) {
            let span = &text[t.start..t.end];
            assert_eq!(tokenize(span), Ok(vec![num(0, span.len())]));
        }
    }
}

#[test]
fn tokens_follow_one_another_and_cover_all_but_white_space() {
    let text = "-12.5 + 3_000 * (4 - -7.25) ^ 2 % 3";
    let tokens = tokenize(text).unwrap();
    let mut covered = vec![false; text.len()];
    let mut last_end = 0;
    for t in tokens.iter() {
        assert!(last_end <= t.start && t.start < t.end && t.end <= text.len());
        last_end = t.end;
        for j in t.start..t.end {
            covered[j] = true;
        }
    }
    for (j, c) in text.chars().enumerate() {
        assert_eq!(covered[j], c != ' ');
    }
}
