use exprcalc::literal::{to_decimal, Decimal};
use exprcalc::token::{Token, TokenKind};

fn read(text: &str) -> Option<Decimal> {
    let whole = Token { kind: TokenKind::Number, start: 0, end: text.chars().count() };
    to_decimal(text, &whole)
}

fn dec(negative: bool, digits: &[u8], scale: usize) -> Option<Decimal> {
    Some(Decimal { negative, digits: digits.to_vec(), scale })
}

#[test]
fn whole_numbers() {
    assert_eq!(read("0"), dec(false, &[0], 0));
    assert_eq!(read("7"), dec(false, &[7], 0));
    assert_eq!(read("1234567890"), dec(false, &[1, 2, 3, 4, 5, 6, 7, 8, 9, 0], 0));
    assert_eq!(read("007"), dec(false, &[0, 0, 7], 0));
}

#[test]
fn fractions() {
    assert_eq!(read("3.14"), dec(false, &[3, 1, 4], 2));
    assert_eq!(read(".5"), dec(false, &[5], 1));
    assert_eq!(read("5."), dec(false, &[5], 0));
    assert_eq!(read("0.001"), dec(false, &[0, 0, 0, 1], 3));
}

#[test]
fn negative_numbers() {
    assert_eq!(read("-3"), dec(true, &[3], 0));
    assert_eq!(read("-0.5"), dec(true, &[0, 5], 1));
    assert_eq!(read("-.5"), dec(true, &[5], 1));
    assert_eq!(read("-0"), dec(true, &[0], 0));
}

#[test]
fn separators_are_dropped() {
    assert_eq!(read("1_000"), dec(false, &[1, 0, 0, 0], 0));
    assert_eq!(read("1_000.50"), dec(false, &[1, 0, 0, 0, 5, 0], 2));
    assert_eq!(read("1__2"), dec(false, &[1, 2], 0));
    assert_eq!(read("_1_"), dec(false, &[1], 0));
    assert_eq!(read("_-_1"), dec(true, &[1], 0));
    assert_eq!(read("1_._5"), dec(false, &[1, 5], 1));
}

#[test]
fn text_without_a_digit_is_no_number() {
    assert_eq!(read(""), None);
    assert_eq!(read("-"), None);
    assert_eq!(read("."), None);
    assert_eq!(read("-."), None);
    assert_eq!(read("_"), None);
    assert_eq!(read("___"), None);
}

#[test]
fn two_points_are_no_number() {
    assert_eq!(read("1.2.3"), None);
    assert_eq!(read("1..2"), None);
    assert_eq!(read("..1"), None);
}

#[test]
fn a_sign_stands_first_or_nowhere() {
    assert_eq!(read("1-2"), None);
    assert_eq!(read("--1"), None);
    assert_eq!(read("1-"), None);
    assert_eq!(read("+1"), None);
}

#[test]
fn other_characters_are_no_number() {
    assert_eq!(read("1e5"), None);
    assert_eq!(read("inf"), None);
    assert_eq!(read("NaN"), None);
    assert_eq!(read("1 2"), None);
    assert_eq!(read(" 1"), None);
    assert_eq!(read("٣"), None);
}

#[test]
fn the_span_selects_the_text() {
    let text = "12 + 3.5";
    let t = Token { kind: TokenKind::Number, start: 5, end: 8 };
    assert_eq!(to_decimal(text, &t), dec(false, &[3, 5], 1));
    let inner = Token { kind: TokenKind::Number, start: 1, end: 2 };
    assert_eq!(to_decimal(text, &inner), dec(false, &[2], 0));
}

#[test]
fn the_kind_of_the_token_does_not_matter() {
    let t = Token { kind: TokenKind::OpenParen, start: 0, end: 2 };
    assert_eq!(to_decimal("42", &t), dec(false, &[4, 2], 0));
}

#[test]
fn a_span_outside_the_text_spells_nothing() {
    let beyond = Token { kind: TokenKind::Number, start: 0, end: 3 };
    assert_eq!(to_decimal("12", &beyond), None);
    let backwards = Token { kind: TokenKind::Number, start: 2, end: 1 };
    assert_eq!(to_decimal("123", &backwards), None);
    let empty = Token { kind: TokenKind::Number, start: 1, end: 1 };
    assert_eq!(to_decimal("123", &empty), None);
    let far = Token { kind: TokenKind::Number, start: usize::MAX, end: usize::MAX };
    assert_eq!(to_decimal("123", &far), None);
}

#[test]
fn spans_count_characters() {
    let t = Token { kind: TokenKind::Number, start: 1, end: 3 };
    assert_eq!(to_decimal("é42", &t), dec(false, &[4, 2], 0));
}

#[test]
fn a_long_literal_keeps_every_digit() {
    let text = "123456789012345678901234567890.5";
    let d = read(text).unwrap();
    assert_eq!(d.digits.len(), 31);
    assert_eq!(d.scale, 1);
    assert_eq!(d.digits[29], 0);
    assert_eq!(d.digits[30], 5);
}

#[test]
fn decimal_in_reads_from_characters() {
    let chars: Vec<char> = "é-4_2.50+".chars().collect();
    let t = Token { kind: TokenKind::Number, start: 1, end: 8 };
    assert_eq!(exprcalc::literal::decimal_in(&chars, &t), dec(true, &[4, 2, 5, 0], 2));
    let bad = Token { kind: TokenKind::Number, start: 0, end: 2 };
    assert_eq!(exprcalc::literal::decimal_in(&chars, &bad), None);
    let beyond = Token { kind: TokenKind::Number, start: 1, end: 10 };
    assert_eq!(exprcalc::literal::decimal_in(&chars, &beyond), None);
}

#[test]
fn what_is_read_is_well_formed() {
    for text in ["0", "-12.5", ".5", "5.", "1_000.000_1", "007", "-0"] {
        let d = read(text).unwrap();
        assert!(!d.digits.is_empty());
        assert!(d.scale <= d.digits.len());
        assert!(d.digits.iter().all(|digit| *digit <= 9));
    }
}

#[test]
fn chars_of_keeps_the_text() {
    assert_eq!(exprcalc::text::chars_of(""), Vec::<char>::new());
    assert_eq!(exprcalc::text::chars_of("1 + é"), vec!['1', ' ', '+', ' ', 'é']);
}
