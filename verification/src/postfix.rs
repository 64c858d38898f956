//! The converter: from infix order to postfix order, by the shunting-yard algorithm.

use crate::token::{Token, TokenKind};
use crate::tokenizer::{Associativity, Operator};
use vstd::prelude::*;

verus! {

#[derive(Clone, Copy, Debug, PartialEq, Eq, Structural)]
pub enum ParseError {
    /// A closing parenthesis that nothing opened, or an opening one that nothing closed.
    UnmatchedParen,
}

/// The operator `o2` on top of the stack leaves it before `o1` is pushed: `o2` binds tighter,
/// or as tight while `o1` groups to the left.
pub open spec fn leaves_before(o2: Operator, o1: Operator) -> bool {
    o2.spec_precedence() > o1.spec_precedence() || (o2.spec_precedence() == o1.spec_precedence()
        && o1.spec_associativity() == Associativity::Left)
}

/// The operator stack, its top last, and the output.
pub struct Yard {
    pub stack: Seq<Token>,
    pub output: Seq<Token>,
}

impl Yard {
    /// The state after the top of the stack has moved to the output.
    pub open spec fn shift(self) -> Yard {
        Yard { stack: self.stack.drop_last(), output: self.output.push(self.stack.last()) }
    }
}

/// Moves operators from the stack to the output for as long as the top leaves before `o1`.
pub open spec fn pop_operators(y: Yard, o1: Operator) -> Yard
    decreases y.stack.len(),
{
    if y.stack.len() > 0 && y.stack.last().kind is Operator && leaves_before(
        y.stack.last().kind->Operator_0,
        o1,
    ) {
        pop_operators(y.shift(), o1)
    } else {
        y
    }
}

/// Moves the stack to the output down to the nearest opening parenthesis, which is dropped.
/// Fails where the stack holds none.
pub open spec fn pop_to_paren(y: Yard) -> Result<Yard, ParseError>
    decreases y.stack.len(),
{
    if y.stack.len() == 0 {
        Err(ParseError::UnmatchedParen)
    } else if y.stack.last().kind is OpenParen {
        Ok(Yard { stack: y.stack.drop_last(), output: y.output })
    } else {
        pop_to_paren(y.shift())
    }
}

/// The state after one more token.
pub open spec fn yard_step(y: Yard, t: Token) -> Result<Yard, ParseError> {
    match t.kind {
        TokenKind::Number => Ok(Yard { stack: y.stack, output: y.output.push(t) }),
        TokenKind::Operator(o1) => {
            let p = pop_operators(y, o1);
            Ok(Yard { stack: p.stack.push(t), output: p.output })
        },
        TokenKind::OpenParen => Ok(Yard { stack: y.stack.push(t), output: y.output }),
        TokenKind::CloseParen => pop_to_paren(y),
    }
}

/// The state after the first `n` tokens.
pub open spec fn yard_prefix(tokens: Seq<Token>, n: nat) -> Result<Yard, ParseError>
    decreases n,
{
    if n == 0 {
        Ok(Yard { stack: Seq::empty(), output: Seq::empty() })
    } else {
        match yard_prefix(tokens, (n - 1) as nat) {
            Ok(y) => yard_step(y, tokens[n - 1]),
            Err(e) => Err(e),
        }
    }
}

/// Empties the stack into the output, top first. Fails where the stack holds an opening
/// parenthesis.
pub open spec fn drain(y: Yard) -> Result<Seq<Token>, ParseError>
    decreases y.stack.len(),
{
    if y.stack.len() == 0 {
        Ok(y.output)
    } else if y.stack.last().kind is OpenParen {
        Err(ParseError::UnmatchedParen)
    } else {
        drain(y.shift())
    }
}

/// The tokens in postfix order.
pub open spec fn postfix_of(tokens: Seq<Token>) -> Result<Seq<Token>, ParseError> {
    match yard_prefix(tokens, tokens.len()) {
        Ok(y) => drain(y),
        Err(e) => Err(e),
    }
}

/// The opening parentheses less the closing ones among the first `n` tokens.
pub open spec fn paren_depth(tokens: Seq<Token>, n: nat) -> int
    decreases n,
{
    if n == 0 {
        0
    } else {
        paren_depth(tokens, (n - 1) as nat) + match tokens[n - 1].kind {
            TokenKind::OpenParen => 1int,
            TokenKind::CloseParen => -1int,
            _ => 0int,
        }
    }
}

/// Every closing parenthesis closes an earlier opening one, and none stays open.
pub open spec fn parens_balanced(tokens: Seq<Token>) -> bool {
    &&& forall|n: nat| n <= tokens.len() ==> #[trigger] paren_depth(tokens, n) >= 0
    &&& paren_depth(tokens, tokens.len()) == 0
}

/// The number of opening parentheses on a stack.
pub open spec fn open_count(stack: Seq<Token>) -> nat
    decreases stack.len(),
{
    if stack.len() == 0 {
        0
    } else {
        open_count(stack.drop_last()) + if stack.last().kind is OpenParen {
            1nat
        } else {
            0nat
        }
    }
}

proof fn lemma_open_count_push(stack: Seq<Token>, t: Token)
    ensures
        open_count(stack.push(t)) == open_count(stack) + if t.kind is OpenParen {
            1nat
        } else {
            0nat
        },
{
    assert(stack.push(t).drop_last() == stack);
}

proof fn lemma_pop_operators_keeps_parens(y: Yard, o1: Operator)
    ensures
        open_count(pop_operators(y, o1).stack) == open_count(y.stack),
    decreases y.stack.len(),
{
    if y.stack.len() > 0 && y.stack.last().kind is Operator && leaves_before(
        y.stack.last().kind->Operator_0,
        o1,
    ) {
        lemma_pop_operators_keeps_parens(y.shift(), o1);
    }
}

proof fn lemma_pop_to_paren_closes_one(y: Yard)
    ensures
        match pop_to_paren(y) {
            Ok(p) => open_count(y.stack) == open_count(p.stack) + 1,
            Err(_) => open_count(y.stack) == 0,
        },
    decreases y.stack.len(),
{
    if y.stack.len() > 0 && !(y.stack.last().kind is OpenParen) {
        lemma_pop_to_paren_closes_one(y.shift());
    }
}

proof fn lemma_drain_needs_no_paren(y: Yard)
    ensures
        drain(y) is Ok <==> open_count(y.stack) == 0,
    decreases y.stack.len(),
{
    if y.stack.len() > 0 && !(y.stack.last().kind is OpenParen) {
        lemma_drain_needs_no_paren(y.shift());
    }
}

/// The first `n` tokens pass exactly when no closing parenthesis among them lacks an opening
/// one, and the stack then holds the parentheses that are still open.
proof fn lemma_yard_counts_parens(tokens: Seq<Token>, n: nat)
    requires
        n <= tokens.len(),
    ensures
        yard_prefix(tokens, n) is Ok <==> forall|m: nat|
            m <= n ==> #[trigger] paren_depth(tokens, m) >= 0,
        yard_prefix(tokens, n) matches Ok(y) ==> open_count(y.stack) == paren_depth(tokens, n),
    decreases n,
{
    if n > 0 {
        let k = (n - 1) as nat;
        lemma_yard_counts_parens(tokens, k);
        match yard_prefix(tokens, k) {
            Ok(y) => {
                let t = tokens[n - 1];
                match t.kind {
                    TokenKind::Number => {},
                    TokenKind::Operator(o1) => {
                        lemma_pop_operators_keeps_parens(y, o1);
                        lemma_open_count_push(pop_operators(y, o1).stack, t);
                    },
                    TokenKind::OpenParen => {
                        lemma_open_count_push(y.stack, t);
                    },
                    TokenKind::CloseParen => {
                        lemma_pop_to_paren_closes_one(y);
                    },
                }
                if yard_prefix(tokens, n) is Ok {
                    assert forall|m: nat| m <= n implies #[trigger] paren_depth(tokens, m)
                        >= 0 by {
                        if m < n {
                            assert(m <= k);
                        }
                    }
                } else {
                    assert(paren_depth(tokens, n) < 0);
                }
            },
            Err(_) => {
                let m = choose|m: nat| m <= k && !(#[trigger] paren_depth(tokens, m) >= 0);
                assert(m <= n);
            },
        }
    }
}

/// The conversion fails exactly on unbalanced parentheses.
pub proof fn lemma_postfix_needs_balance(tokens: Seq<Token>)
    ensures
        postfix_of(tokens) is Ok <==> parens_balanced(tokens),
{
    lemma_yard_counts_parens(tokens, tokens.len());
    if let Ok(y) = yard_prefix(tokens, tokens.len()) {
        lemma_drain_needs_no_paren(y);
    }
}

/// Once a token has failed, reading on changes nothing.
proof fn lemma_yard_error_stays(tokens: Seq<Token>, n: nat, m: nat)
    requires
        n <= m,
        yard_prefix(tokens, n) is Err,
    ensures
        yard_prefix(tokens, m) == yard_prefix(tokens, n),
    decreases m,
{
    if n < m {
        lemma_yard_error_stays(tokens, n, (m - 1) as nat);
    }
}

/// No token of `tokens` is a parenthesis.
pub open spec fn holds_no_paren(tokens: Seq<Token>) -> bool {
    forall|i: int|
        0 <= i < tokens.len() ==> !((#[trigger] tokens[i]).kind is OpenParen) && !(
        tokens[i].kind is CloseParen)
}

/// No token of `tokens` is a closing parenthesis.
spec fn holds_no_close(tokens: Seq<Token>) -> bool {
    forall|i: int| 0 <= i < tokens.len() ==> !((#[trigger] tokens[i]).kind is CloseParen)
}

/// No parenthesis in the output, no closing parenthesis on the stack.
spec fn is_clean(y: Yard) -> bool {
    holds_no_paren(y.output) && holds_no_close(y.stack)
}

proof fn lemma_shift_stays_clean(y: Yard)
    requires
        is_clean(y),
        y.stack.len() > 0,
        !(y.stack.last().kind is OpenParen),
    ensures
        is_clean(y.shift()),
{
    assert(!(y.stack[y.stack.len() - 1].kind is CloseParen));
}

proof fn lemma_pop_operators_stays_clean(y: Yard, o1: Operator)
    requires
        is_clean(y),
    ensures
        is_clean(pop_operators(y, o1)),
    decreases y.stack.len(),
{
    if y.stack.len() > 0 && y.stack.last().kind is Operator && leaves_before(
        y.stack.last().kind->Operator_0,
        o1,
    ) {
        lemma_shift_stays_clean(y);
        lemma_pop_operators_stays_clean(y.shift(), o1);
    }
}

proof fn lemma_pop_to_paren_stays_clean(y: Yard)
    requires
        is_clean(y),
    ensures
        pop_to_paren(y) matches Ok(p) ==> is_clean(p),
    decreases y.stack.len(),
{
    if y.stack.len() > 0 && !(y.stack.last().kind is OpenParen) {
        lemma_shift_stays_clean(y);
        lemma_pop_to_paren_stays_clean(y.shift());
    }
}

proof fn lemma_drain_stays_clean(y: Yard)
    requires
        is_clean(y),
    ensures
        drain(y) matches Ok(out) ==> holds_no_paren(out),
    decreases y.stack.len(),
{
    if y.stack.len() > 0 && !(y.stack.last().kind is OpenParen) {
        lemma_shift_stays_clean(y);
        lemma_drain_stays_clean(y.shift());
    }
}

proof fn lemma_yard_stays_clean(tokens: Seq<Token>, n: nat)
    requires
        n <= tokens.len(),
    ensures
        yard_prefix(tokens, n) matches Ok(y) ==> is_clean(y),
    decreases n,
{
    if n > 0 {
        lemma_yard_stays_clean(tokens, (n - 1) as nat);
        if let Ok(y) = yard_prefix(tokens, (n - 1) as nat) {
            let t = tokens[n - 1];
            match t.kind {
                TokenKind::Number => {},
                TokenKind::Operator(o1) => {
                    lemma_pop_operators_stays_clean(y, o1);
                },
                TokenKind::OpenParen => {},
                TokenKind::CloseParen => {
                    lemma_pop_to_paren_stays_clean(y);
                },
            }
        }
    }
}

/// The postfix order needs no parentheses: none reaches the output.
pub proof fn lemma_postfix_holds_no_paren(tokens: Seq<Token>)
    ensures
        postfix_of(tokens) matches Ok(postfix) ==> holds_no_paren(postfix),
{
    lemma_yard_stays_clean(tokens, tokens.len());
    if let Ok(y) = yard_prefix(tokens, tokens.len()) {
        lemma_drain_stays_clean(y);
    }
}

/// The converter reads a prefix of its input without looking at the rest.
pub proof fn lemma_yard_prefix_local(a: Seq<Token>, b: Seq<Token>, n: nat)
    requires
        n <= a.len(),
        n <= b.len(),
        a.take(n as int) == b.take(n as int),
    ensures
        yard_prefix(a, n) == yard_prefix(b, n),
    decreases n,
{
    if n > 0 {
        assert(a.take(n - 1) == a.take(n as int).take(n - 1));
        assert(b.take(n - 1) == b.take(n as int).take(n - 1));
        lemma_yard_prefix_local(a, b, (n - 1) as nat);
        assert(a[n - 1] == a.take(n as int)[n - 1]);
        assert(b[n - 1] == b.take(n as int)[n - 1]);
    }
}

/// Above an opening parenthesis, operators leave as they would from a stack of their own.
proof fn lemma_pop_operators_above_paren(
    below: Seq<Token>,
    written: Seq<Token>,
    y: Yard,
    o1: Operator,
)
    requires
        below.len() > 0,
        below.last().kind is OpenParen,
    ensures
        pop_operators(Yard { stack: below + y.stack, output: written + y.output }, o1) == (Yard {
            stack: below + pop_operators(y, o1).stack,
            output: written + pop_operators(y, o1).output,
        }),
    decreases y.stack.len(),
{
    let framed = Yard { stack: below + y.stack, output: written + y.output };
    if y.stack.len() > 0 {
        assert(framed.stack.last() == y.stack.last());
        if y.stack.last().kind is Operator && leaves_before(y.stack.last().kind->Operator_0, o1) {
            assert(framed.shift().stack == below + y.shift().stack);
            assert(framed.shift().output == written + y.shift().output);
            lemma_pop_operators_above_paren(below, written, y.shift(), o1);
        }
    } else {
        assert(framed.stack == below);
        assert(below + pop_operators(y, o1).stack == below);
    }
}

/// Above an opening parenthesis, a closing parenthesis that finds its partner there leaves
/// what lies below untouched.
proof fn lemma_pop_to_paren_above_paren(below: Seq<Token>, written: Seq<Token>, y: Yard)
    requires
        open_count(y.stack) >= 1,
    ensures
        pop_to_paren(y) is Ok,
        pop_to_paren(Yard { stack: below + y.stack, output: written + y.output }) == Ok::<
            Yard,
            ParseError,
        >(
            Yard {
                stack: below + pop_to_paren(y)->Ok_0.stack,
                output: written + pop_to_paren(y)->Ok_0.output,
            },
        ),
    decreases y.stack.len(),
{
    let framed = Yard { stack: below + y.stack, output: written + y.output };
    assert(framed.stack.last() == y.stack.last());
    if y.stack.last().kind is OpenParen {
        assert(framed.stack.drop_last() == below + y.stack.drop_last());
    } else {
        assert(framed.shift().stack == below + y.shift().stack);
        assert(framed.shift().output == written + y.shift().output);
        lemma_pop_to_paren_above_paren(below, written, y.shift());
    }
}

/// The closing parenthesis of a group moves to the output what emptying the stack of the
/// group alone would move there, and takes the opening parenthesis away.
proof fn lemma_close_drains_group(below: Seq<Token>, open: Token, written: Seq<Token>, y: Yard)
    requires
        open.kind is OpenParen,
        drain(y) is Ok,
    ensures
        pop_to_paren(Yard { stack: below.push(open) + y.stack, output: written + y.output })
            == Ok::<Yard, ParseError>(Yard { stack: below, output: written + drain(y)->Ok_0 }),
    decreases y.stack.len(),
{
    let framed = Yard { stack: below.push(open) + y.stack, output: written + y.output };
    if y.stack.len() == 0 {
        assert(framed.stack == below.push(open));
        assert(framed.stack.drop_last() == below);
    } else {
        assert(framed.stack.last() == y.stack.last());
        assert(framed.shift().stack == below.push(open) + y.shift().stack);
        assert(framed.shift().output == written + y.shift().output);
        lemma_close_drains_group(below, open, written, y.shift());
    }
}

/// Inside a group, the converter works above the opening parenthesis as it would on the
/// inside alone.
proof fn lemma_inside_group(before: Seq<Token>, open: Token, inside: Seq<Token>, n: nat)
    requires
        open.kind is OpenParen,
        yard_prefix(before, before.len()) is Ok,
        n <= inside.len(),
        forall|m: nat| m <= n ==> #[trigger] paren_depth(inside, m) >= 0,
    ensures
        yard_prefix(inside, n) is Ok,
        yard_prefix(before.push(open) + inside, before.len() + 1 + n) == Ok::<Yard, ParseError>(
            Yard {
                stack: yard_prefix(before, before.len())->Ok_0.stack.push(open) + yard_prefix(
                    inside,
                    n,
                )->Ok_0.stack,
                output: yard_prefix(before, before.len())->Ok_0.output + yard_prefix(
                    inside,
                    n,
                )->Ok_0.output,
            },
        ),
    decreases n,
{
    let all = before.push(open) + inside;
    let y0 = yard_prefix(before, before.len())->Ok_0;
    let below = y0.stack.push(open);
    lemma_yard_counts_parens(inside, n);
    if n == 0 {
        assert(all.take(before.len() as int) == before.take(before.len() as int));
        lemma_yard_prefix_local(all, before, before.len());
        assert(all[before.len() as int] == open);
        assert(below + Seq::<Token>::empty() == below);
        assert(y0.output + Seq::<Token>::empty() == y0.output);
    } else {
        let k = (n - 1) as nat;
        assert forall|m: nat| m <= k implies #[trigger] paren_depth(inside, m) >= 0 by {
            assert(m <= n);
        }
        lemma_inside_group(before, open, inside, k);
        lemma_yard_counts_parens(inside, k);
        let y = yard_prefix(inside, k)->Ok_0;
        let t = inside[k as int];
        assert(all[(before.len() + 1 + k) as int] == t);
        let framed = Yard { stack: below + y.stack, output: y0.output + y.output };
        match t.kind {
            TokenKind::Number => {
                assert(framed.output.push(t) == y0.output + y.output.push(t));
            },
            TokenKind::Operator(o1) => {
                lemma_pop_operators_above_paren(below, y0.output, y, o1);
                let p = pop_operators(y, o1);
                assert((below + p.stack).push(t) == below + p.stack.push(t));
            },
            TokenKind::OpenParen => {
                assert(framed.stack.push(t) == below + y.stack.push(t));
            },
            TokenKind::CloseParen => {
                assert(paren_depth(inside, n) >= 0);
                lemma_pop_to_paren_above_paren(below, y0.output, y);
            },
        }
    }
}

/// Parentheses set their contents apart. When the converter has read a group, from its
/// opening parenthesis to the closing one, its stack is as it was before the group, and its
/// output has grown by the postfix form of what stands between the parentheses. No operator
/// outside the group gets in the way of one inside, whatever their precedence, and none
/// inside of one outside.
pub proof fn lemma_group_converts_alone(
    before: Seq<Token>,
    open: Token,
    inside: Seq<Token>,
    close: Token,
)
    requires
        open.kind is OpenParen,
        close.kind is CloseParen,
        yard_prefix(before, before.len()) is Ok,
        parens_balanced(inside),
    ensures
        postfix_of(inside) is Ok,
        ({
            let group = before.push(open) + inside.push(close);
            yard_prefix(group, group.len()) == Ok::<Yard, ParseError>(
                Yard {
                    stack: yard_prefix(before, before.len())->Ok_0.stack,
                    output: yard_prefix(before, before.len())->Ok_0.output + postfix_of(
                        inside,
                    )->Ok_0,
                },
            )
        }),
{
    let group = before.push(open) + inside.push(close);
    let opened = before.push(open) + inside;
    let y0 = yard_prefix(before, before.len())->Ok_0;
    let y = yard_prefix(inside, inside.len())->Ok_0;
    lemma_postfix_needs_balance(inside);
    lemma_inside_group(before, open, inside, inside.len());
    assert(group.take(opened.len() as int) == opened.take(opened.len() as int));
    lemma_yard_prefix_local(group, opened, opened.len());
    assert(group[opened.len() as int] == close);
    lemma_close_drains_group(y0.stack, open, y0.output, y);
}

/// Reorders `tokens` from infix to postfix. Each token keeps its span. Fails on unbalanced
/// parentheses, and on nothing else.
pub fn to_postfix(tokens: &[Token]) -> (r: Result<Vec<Token>, ParseError>)
    ensures
        match r {
            Ok(postfix) => postfix_of(tokens@) == Ok::<Seq<Token>, ParseError>(postfix@),
            Err(e) => postfix_of(tokens@) == Err::<Seq<Token>, ParseError>(e),
        },
        r is Ok <==> parens_balanced(tokens@),
        r matches Ok(postfix) ==> holds_no_paren(postfix@),
{
    let mut operator_stack: Vec<Token> = Vec::new();
    let mut output_queue: Vec<Token> = Vec::new();
    let n = tokens.len();
    let mut i: usize = 0;
    while i < n
        invariant
            n == tokens@.len(),
            i <= n,
            yard_prefix(tokens@, i as nat) == Ok::<Yard, ParseError>(
                Yard { stack: operator_stack@, output: output_queue@ },
            ),
        decreases n - i,
    {
        let toke = tokens[i];
        let ghost before = Yard { stack: operator_stack@, output: output_queue@ };
        match toke.kind {
            TokenKind::Operator(o1) => {
                while operator_stack.len() > 0
                    invariant
                        pop_operators(Yard { stack: operator_stack@, output: output_queue@ }, o1)
                            == pop_operators(before, o1),
                    ensures
                        pop_operators(before, o1) == (Yard {
                            stack: operator_stack@,
                            output: output_queue@,
                        }),
                    decreases operator_stack.len(),
                {
                    let top = operator_stack[operator_stack.len() - 1];
                    let leaves = match top.kind {
                        TokenKind::Operator(o2) => {
                            let po1 = o1.precedence();
                            let po2 = o2.precedence();
                            po2 > po1 || (po2 == po1 && o1.associativity() == Associativity::Left)
                        },
                        _ => false,
                    };
                    if !leaves {
                        break ;
                    }
                    operator_stack.pop();
                    output_queue.push(top);
                }
                operator_stack.push(toke);
            },
            TokenKind::Number => {
                output_queue.push(toke);
            },
            TokenKind::OpenParen => {
                operator_stack.push(toke);
            },
            TokenKind::CloseParen => {
                loop
                    invariant_except_break
                        pop_to_paren(Yard { stack: operator_stack@, output: output_queue@ })
                            == pop_to_paren(before),
                    invariant
                        yard_prefix(tokens@, i as nat) == Ok::<Yard, ParseError>(before),
                        toke == tokens@[i as int],
                        toke.kind is CloseParen,
                        i < n,
                        n == tokens@.len(),
                    ensures
                        pop_to_paren(before) == Ok::<Yard, ParseError>(
                            Yard { stack: operator_stack@, output: output_queue@ },
                        ),
                    decreases operator_stack.len(),
                {
                    match operator_stack.pop() {
                        None => {
                            proof {
                                lemma_yard_error_stays(tokens@, (i + 1) as nat, n as nat);
                                lemma_postfix_needs_balance(tokens@);
                            }
                            return Err(ParseError::UnmatchedParen);
                        },
                        Some(top) => {
                            if let TokenKind::OpenParen = top.kind {
                                break ;
                            }
                            output_queue.push(top);
                        },
                    }
                }
            },
        }
        i += 1;
    }
    let ghost done = Yard { stack: operator_stack@, output: output_queue@ };
    proof {
        lemma_postfix_needs_balance(tokens@);
        lemma_postfix_holds_no_paren(tokens@);
    }
    loop
        invariant
            drain(Yard { stack: operator_stack@, output: output_queue@ }) == drain(done),
            postfix_of(tokens@) == drain(done),
            postfix_of(tokens@) is Ok <==> parens_balanced(tokens@),
            postfix_of(tokens@) matches Ok(postfix) ==> holds_no_paren(postfix),
        decreases operator_stack.len(),
    {
        match operator_stack.pop() {
            None => {
                return Ok(output_queue);
            },
            Some(top) => {
                if let TokenKind::OpenParen = top.kind {
                    return Err(ParseError::UnmatchedParen);
                }
                output_queue.push(top);
            },
        }
    }
}

} // verus!
