//! The evaluator: from a postfix sequence to the one expression that it denotes.
//!
//! The evaluator works a stack of operands, as a calculator would, but its operands are exact:
//! a number is its decimal, and an operation is the operator with its two operands. What comes
//! out is the whole computation, ready to be carried out in any arithmetic.

use crate::literal::{decimal_in, literal_at, Decimal, DecimalView};
use crate::text::chars_of;
use crate::token::{Token, TokenKind};
use crate::tokenizer::Operator;
use vstd::prelude::*;

verus! {

#[derive(Clone, Copy, Debug, PartialEq, Eq, Structural)]
pub enum EvalError {
    /// An operator with fewer than two operands before it, or nothing to evaluate.
    StackUnderflow,
    /// A number token whose text is no decimal.
    MalformedLiteral,
    /// Operands that no operator consumes, or a parenthesis in the postfix sequence.
    MalformedExpression,
}

/// An arithmetic expression: a number, or an operator applied to a left and a right operand.
#[derive(Debug, PartialEq, Eq)]
pub enum Expr {
    Number(Decimal),
    Binary(Operator, Box<Expr>, Box<Expr>),
}

/// The mathematical content of an `Expr`.
pub enum ExprView {
    Number(DecimalView),
    Binary(Operator, Box<ExprView>, Box<ExprView>),
}

impl View for Expr {
    type V = ExprView;

    open spec fn view(&self) -> ExprView
        decreases self,
    {
        match self {
            Expr::Number(d) => ExprView::Number(d@),
            Expr::Binary(op, lhs, rhs) => ExprView::Binary(
                *op,
                Box::new((**lhs).view()),
                Box::new((**rhs).view()),
            ),
        }
    }
}

/// The contents of a stack of expressions, its top last.
pub open spec fn stack_view(stack: Seq<Expr>) -> Seq<ExprView> {
    stack.map_values(|e: Expr| e@)
}

/// The operand stack after one more token. A number is pushed. An operator takes the two
/// topmost operands, the upper one as its right operand, and pushes the operation.
pub open spec fn eval_step(source: Seq<char>, stack: Seq<ExprView>, t: Token) -> Result<
    Seq<ExprView>,
    EvalError,
> {
    match t.kind {
        TokenKind::Number => match literal_at(source, t) {
            Some(d) => Ok(stack.push(ExprView::Number(d))),
            None => Err(EvalError::MalformedLiteral),
        },
        TokenKind::Operator(op) => if stack.len() < 2 {
            Err(EvalError::StackUnderflow)
        } else {
            Ok(
                stack.take(stack.len() - 2).push(
                    ExprView::Binary(
                        op,
                        Box::new(stack[stack.len() - 2]),
                        Box::new(stack[stack.len() - 1]),
                    ),
                ),
            )
        },
        _ => Err(EvalError::MalformedExpression),
    }
}

/// The operand stack after the first `n` tokens of `postfix`.
pub open spec fn eval_prefix(source: Seq<char>, postfix: Seq<Token>, n: nat) -> Result<
    Seq<ExprView>,
    EvalError,
>
    decreases n,
{
    if n == 0 {
        Ok(Seq::empty())
    } else {
        match eval_prefix(source, postfix, (n - 1) as nat) {
            Ok(stack) => eval_step(source, stack, postfix[n - 1]),
            Err(e) => Err(e),
        }
    }
}

/// The expression that `postfix` denotes: the one operand left when all tokens are read.
pub open spec fn eval_postfix(source: Seq<char>, postfix: Seq<Token>) -> Result<
    ExprView,
    EvalError,
> {
    match eval_prefix(source, postfix, postfix.len()) {
        Ok(stack) => if stack.len() == 0 {
            Err(EvalError::StackUnderflow)
        } else if stack.len() > 1 {
            Err(EvalError::MalformedExpression)
        } else {
            Ok(stack[0])
        },
        Err(e) => Err(e),
    }
}

/// Once a token has failed, reading on changes nothing.
proof fn lemma_eval_error_stays(source: Seq<char>, postfix: Seq<Token>, n: nat, m: nat)
    requires
        n <= m,
        eval_prefix(source, postfix, n) is Err,
    ensures
        eval_prefix(source, postfix, m) == eval_prefix(source, postfix, n),
    decreases m,
{
    if n < m {
        lemma_eval_error_stays(source, postfix, n, (m - 1) as nat);
    }
}

/// The numbers less the operators among the first `n` tokens: the operands that are left
/// when each operator has taken two and given back one.
pub open spec fn operand_count(postfix: Seq<Token>, n: nat) -> int
    decreases n,
{
    if n == 0 {
        0
    } else {
        operand_count(postfix, (n - 1) as nat) + match postfix[n - 1].kind {
            TokenKind::Number => 1int,
            TokenKind::Operator(_) => -1int,
            _ => 0int,
        }
    }
}

/// Every token among the first `n` can be read: each is a number that spells a decimal, or
/// an operator.
pub open spec fn tokens_readable(source: Seq<char>, postfix: Seq<Token>, n: nat) -> bool {
    forall|i: int|
        0 <= i < n ==> match (#[trigger] postfix[i]).kind {
            TokenKind::Number => literal_at(source, postfix[i]) is Some,
            TokenKind::Operator(_) => true,
            _ => false,
        }
}

/// `postfix` denotes an expression: every token can be read, every operator finds its two
/// operands, and one operand is left at the end.
pub open spec fn is_postfix_expression(source: Seq<char>, postfix: Seq<Token>) -> bool {
    &&& tokens_readable(source, postfix, postfix.len())
    &&& forall|n: nat| 1 <= n <= postfix.len() ==> #[trigger] operand_count(postfix, n) >= 1
    &&& operand_count(postfix, postfix.len()) == 1
}

proof fn lemma_eval_counts_operands(source: Seq<char>, postfix: Seq<Token>, n: nat)
    requires
        n <= postfix.len(),
    ensures
        eval_prefix(source, postfix, n) is Ok <==> tokens_readable(source, postfix, n)
            && forall|m: nat| 1 <= m <= n ==> #[trigger] operand_count(postfix, m) >= 1,
        eval_prefix(source, postfix, n) matches Ok(stack) ==> stack.len() == operand_count(
            postfix,
            n,
        ),
    decreases n,
{
    if n > 0 {
        let k = (n - 1) as nat;
        lemma_eval_counts_operands(source, postfix, k);
        let t = postfix[n - 1];
        match eval_prefix(source, postfix, k) {
            Ok(stack) => {
                if eval_prefix(source, postfix, n) is Ok {
                    assert forall|m: nat| 1 <= m <= n implies #[trigger] operand_count(
                        postfix,
                        m,
                    ) >= 1 by {
                        if m < n {
                            assert(m <= k);
                        }
                    }
                } else {
                    if tokens_readable(source, postfix, n) {
                        assert(postfix[n - 1].kind is Operator);
                        assert(operand_count(postfix, n) < 1);
                    }
                }
            },
            Err(_) => {
                if tokens_readable(source, postfix, n) {
                    assert(tokens_readable(source, postfix, k));
                    let m = choose|m: nat|
                        1 <= m <= k && !(#[trigger] operand_count(postfix, m) >= 1);
                    assert(m <= n);
                }
            },
        }
    }
}

/// The evaluator succeeds exactly on a postfix sequence that denotes an expression.
pub proof fn lemma_eval_needs_expression(source: Seq<char>, postfix: Seq<Token>)
    ensures
        eval_postfix(source, postfix) is Ok <==> is_postfix_expression(source, postfix),
{
    lemma_eval_counts_operands(source, postfix, postfix.len());
    if postfix.len() == 0 {
        assert(operand_count(postfix, 0) == 0);
    } else if eval_prefix(source, postfix, postfix.len()) is Ok {
        assert(operand_count(postfix, postfix.len()) >= 1);
    }
}

/// Reduces `postfix` to the expression that it denotes, reading number tokens from
/// `source_text`. The first token that cannot be read decides the error.
pub fn evaluate(source_text: &str, postfix: &[Token]) -> (r: Result<Expr, EvalError>)
    ensures
        match r {
            Ok(e) => eval_postfix(source_text@, postfix@) == Ok::<ExprView, EvalError>(e@),
            Err(e) => eval_postfix(source_text@, postfix@) == Err::<ExprView, EvalError>(e),
        },
        r is Ok <==> is_postfix_expression(source_text@, postfix@),
{
    proof {
        lemma_eval_needs_expression(source_text@, postfix@);
    }
    let source = chars_of(source_text);
    let mut stack: Vec<Expr> = Vec::new();
    let n = postfix.len();
    let mut i: usize = 0;
    assert(stack_view(stack@) == Seq::<ExprView>::empty());
    while i < n
        invariant
            n == postfix@.len(),
            i <= n,
            source@ == source_text@,
            eval_postfix(source_text@, postfix@) is Ok <==> is_postfix_expression(
                source_text@,
                postfix@,
            ),
            eval_prefix(source_text@, postfix@, i as nat) == Ok::<Seq<ExprView>, EvalError>(
                stack_view(stack@),
            ),
        decreases n - i,
    {
        let token = postfix[i];
        let ghost before = stack_view(stack@);
        match token.kind {
            TokenKind::Number => {
                match decimal_in(source.as_slice(), &token) {
                    Some(d) => {
                        stack.push(Expr::Number(d));
                        assert(stack_view(stack@) == before.push(ExprView::Number(d@)));
                    },
                    None => {
                        proof {
                            lemma_eval_error_stays(
                                source_text@,
                                postfix@,
                                (i + 1) as nat,
                                n as nat,
                            );
                        }
                        return Err(EvalError::MalformedLiteral);
                    },
                }
            },
            TokenKind::Operator(op) => {
                let rhs = stack.pop();
                let lhs = stack.pop();
                match (lhs, rhs) {
                    (Some(a), Some(b)) => {
                        stack.push(Expr::Binary(op, Box::new(a), Box::new(b)));
                        assert(stack_view(stack@) == before.take(before.len() - 2).push(
                            ExprView::Binary(op, Box::new(a@), Box::new(b@)),
                        ));
                    },
                    _ => {
                        proof {
                            lemma_eval_error_stays(
                                source_text@,
                                postfix@,
                                (i + 1) as nat,
                                n as nat,
                            );
                        }
                        return Err(EvalError::StackUnderflow);
                    },
                }
            },
            _ => {
                proof {
                    lemma_eval_error_stays(source_text@, postfix@, (i + 1) as nat, n as nat);
                }
                return Err(EvalError::MalformedExpression);
            },
        }
        i += 1;
    }
    if stack.len() > 1 {
        return Err(EvalError::MalformedExpression);
    }
    match stack.pop() {
        Some(e) => Ok(e),
        None => Err(EvalError::StackUnderflow),
    }
}

} // verus!
