//! Single characters and the operators they stand for.

use vstd::prelude::*;

verus! {

/// A binary operator of the expression language.
#[derive(Clone, Copy, Debug, PartialEq, Eq, Structural)]
pub enum Operator {
    Add,
    Sub,
    Mul,
    Div,
    Pow,
    Mod,
}

/// How a chain of operators of equal precedence is grouped.
#[derive(Clone, Copy, Debug, PartialEq, Eq, Structural)]
pub enum Associativity {
    Left,
    Right,
}

/// The precedence and associativity of one operator. A higher precedence binds tighter.
#[derive(Clone, Copy, Debug, PartialEq, Eq, Structural)]
pub struct OperatorInfo {
    pub precedence: u8,
    pub associativity: Associativity,
}

impl Operator {
    /// The operator table.
    pub open spec fn spec_info(self) -> OperatorInfo {
        match self {
            Operator::Pow => OperatorInfo { precedence: 4, associativity: Associativity::Right },
            Operator::Mul => OperatorInfo { precedence: 3, associativity: Associativity::Left },
            Operator::Div => OperatorInfo { precedence: 3, associativity: Associativity::Left },
            Operator::Mod => OperatorInfo { precedence: 3, associativity: Associativity::Left },
            Operator::Add => OperatorInfo { precedence: 2, associativity: Associativity::Left },
            Operator::Sub => OperatorInfo { precedence: 2, associativity: Associativity::Left },
        }
    }

    pub open spec fn spec_precedence(self) -> u8 {
        self.spec_info().precedence
    }

    pub open spec fn spec_associativity(self) -> Associativity {
        self.spec_info().associativity
    }

    /// The operator that a symbol stands for when it is read on its own.
    pub open spec fn of_symbol(c: char) -> Option<Operator> {
        if c == '+' {
            Some(Operator::Add)
        } else if c == '-' {
            Some(Operator::Sub)
        } else if c == '*' {
            Some(Operator::Mul)
        } else if c == '/' {
            Some(Operator::Div)
        } else if c == '^' {
            Some(Operator::Pow)
        } else if c == '%' {
            Some(Operator::Mod)
        } else {
            None
        }
    }

    #[verifier::when_used_as_spec(spec_info)]
    pub fn info(self) -> (r: OperatorInfo)
        ensures
            r == self.spec_info(),
    {
        match self {
            Operator::Pow => OperatorInfo { precedence: 4, associativity: Associativity::Right },
            Operator::Mul => OperatorInfo { precedence: 3, associativity: Associativity::Left },
            Operator::Div => OperatorInfo { precedence: 3, associativity: Associativity::Left },
            Operator::Mod => OperatorInfo { precedence: 3, associativity: Associativity::Left },
            Operator::Add => OperatorInfo { precedence: 2, associativity: Associativity::Left },
            Operator::Sub => OperatorInfo { precedence: 2, associativity: Associativity::Left },
        }
    }

    #[verifier::when_used_as_spec(spec_precedence)]
    pub fn precedence(self) -> (r: u8)
        ensures
            r == self.spec_precedence(),
    {
        self.info().precedence
    }

    #[verifier::when_used_as_spec(spec_associativity)]
    pub fn associativity(self) -> (r: Associativity)
        ensures
            r == self.spec_associativity(),
    {
        self.info().associativity
    }

    pub fn from_symbol(c: char) -> (r: Option<Operator>)
        ensures
            r == Operator::of_symbol(c),
    {
        match c {
            '+' => Some(Operator::Add),
            '-' => Some(Operator::Sub),
            '*' => Some(Operator::Mul),
            '/' => Some(Operator::Div),
            '^' => Some(Operator::Pow),
            '%' => Some(Operator::Mod),
            _ => None,
        }
    }
}

/// Operators of equal precedence group the same way, so precedence and associativity
/// together settle, for any two operators, which is applied first.
pub proof fn lemma_equal_precedence_groups_alike(a: Operator, b: Operator)
    ensures
        a.spec_precedence() == b.spec_precedence() ==> a.spec_associativity()
            == b.spec_associativity(),
{
}

/// What one character stands for: an operator symbol, or any other character.
#[derive(Clone, Copy, Debug, PartialEq, Eq, Structural)]
pub enum Token {
    Character,
    Symbol(Operator),
}

/// One character of the input and, once it has been looked at, what it stands for.
#[allow(non_camel_case_types)]
#[derive(Clone, Copy, Debug, PartialEq, Eq, Structural)]
pub struct Token_t {
    pub data: char,
    pub token: Option<Token>,
}

/// What the character `c` stands for.
pub open spec fn class_of(c: char) -> Token {
    match Operator::of_symbol(c) {
        Some(op) => Token::Symbol(op),
        None => Token::Character,
    }
}

/// The precedence of what a character stands for: that of its operator, and 0 for any other
/// character.
pub open spec fn prec_of(t: Token) -> u8 {
    match t {
        Token::Symbol(op) => op.spec_precedence(),
        Token::Character => 0,
    }
}

/// A character that has not been looked at yet.
fn unread(data: char) -> (r: Token_t)
    ensures
        r == (Token_t { data, token: Some(Token::Character) }),
{
    Token_t { data, token: Some(Token::Character) }
}

/// Cuts a string into its characters. Each one starts out as an ordinary character;
/// `set_operator` then gives it its meaning.
pub fn tokenize(s: String) -> (x: Vec<Token_t>)
    ensures
        x@.len() == s@.len(),
        forall|i: int|
            0 <= i < s@.len() ==> #[trigger] x@[i] == (Token_t {
                data: s@[i],
                token: Some(Token::Character),
            }),
{
    let mut x: Vec<Token_t> = Vec::new();
    for c in it: s.as_str().chars()
        invariant
            it.seq() == s@,
            x@.len() == it.index(),
            forall|j: int|
                0 <= j < it.index() ==> #[trigger] x@[j] == (Token_t {
                    data: s@[j],
                    token: Some(Token::Character),
                }),
    {
        x.push(unread(c));
    }
    x
}

/// Tells which operator the character of `c` is a symbol of, if any.
pub fn is_operator(c: &Token_t) -> (r: Token)
    ensures
        r == class_of(c.data),
{
    match Operator::from_symbol(c.data) {
        Some(op) => Token::Symbol(op),
        None => Token::Character,
    }
}

/// Records in `c` what its character stands for.
pub fn set_operator(c: &mut Token_t)
    ensures
        final(c).data == old(c).data,
        final(c).token == Some(class_of(old(c).data)),
{
    c.token = Some(is_operator(c));
}

/// The precedence of a character whose meaning has been recorded.
pub fn get_prec(c: &Token_t) -> (x: u8)
    requires
        c.token is Some,
    ensures
        x == prec_of(c.token->0),
{
    match c.token {
        Some(Token::Symbol(op)) => op.precedence(),
        _ => 0,
    }
}

} // verus!
