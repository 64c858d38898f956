//! Expressions as they are written.
//!
//! A phrase is a number, a group in parentheses, or two operands with an operator between
//! them. It is well phrased when it says what it means: each operand binds tightly enough
//! to stand where it does, or stands in parentheses. What is written can then be read in
//! one way only.

use crate::eval::ExprView;
use crate::literal::{literal_at, DecimalView};
use crate::token::{Token, TokenKind};
use crate::tokenizer::{lemma_equal_precedence_groups_alike, Associativity, Operator};
use vstd::prelude::*;

verus! {

/// An expression as it is written.
pub enum Phrase {
    Number(DecimalView),
    /// A phrase in parentheses.
    Group(Box<Phrase>),
    Binary(Operator, Box<Phrase>, Box<Phrase>),
}

/// One element of a written expression.
pub enum Mark {
    Number(DecimalView),
    Operator(Operator),
    Open,
    Close,
}

/// The phrase written out, element by element.
pub open spec fn spelling(p: Phrase) -> Seq<Mark>
    decreases p,
{
    match p {
        Phrase::Number(d) => seq![Mark::Number(d)],
        Phrase::Group(inner) => seq![Mark::Open] + spelling(*inner) + seq![Mark::Close],
        Phrase::Binary(op, lhs, rhs) => spelling(*lhs) + seq![Mark::Operator(op)] + spelling(*rhs),
    }
}

/// The expression that the phrase means: the parentheses have done their work and are gone.
pub open spec fn meaning(p: Phrase) -> ExprView
    decreases p,
{
    match p {
        Phrase::Number(d) => ExprView::Number(d),
        Phrase::Group(inner) => meaning(*inner),
        Phrase::Binary(op, lhs, rhs) => ExprView::Binary(
            op,
            Box::new(meaning(*lhs)),
            Box::new(meaning(*rhs)),
        ),
    }
}

/// The operator `x` may stand in the left operand of `op` without parentheses: it binds
/// tighter, or as tight while operators of that precedence group to the left.
pub open spec fn stays_left(x: Operator, op: Operator) -> bool {
    x.spec_precedence() > op.spec_precedence() || (x.spec_precedence() == op.spec_precedence()
        && op.spec_associativity() == Associativity::Left)
}

/// The operator `x` may stand in the right operand of `op` without parentheses: it binds
/// tighter, or as tight while operators of that precedence group to the right.
pub open spec fn stays_right(x: Operator, op: Operator) -> bool {
    x.spec_precedence() > op.spec_precedence() || (x.spec_precedence() == op.spec_precedence()
        && op.spec_associativity() == Associativity::Right)
}

/// `p` can be the left operand of `op` as it stands: it is a number or a group, or its
/// operator may stand there.
pub open spec fn sits_left(op: Operator, p: Phrase) -> bool {
    match p {
        Phrase::Binary(inner, _, _) => stays_left(inner, op),
        _ => true,
    }
}

/// `p` can be the right operand of `op` as it stands: it is a number or a group, or its
/// operator may stand there.
pub open spec fn sits_right(op: Operator, p: Phrase) -> bool {
    match p {
        Phrase::Binary(inner, _, _) => stays_right(inner, op),
        _ => true,
    }
}

/// The phrase says what it means: every operand stands where precedence and associativity
/// put it, or in parentheses.
pub open spec fn well_phrased(p: Phrase) -> bool
    decreases p,
{
    match p {
        Phrase::Number(_) => true,
        Phrase::Group(inner) => well_phrased(*inner),
        Phrase::Binary(op, lhs, rhs) => {
            &&& well_phrased(*lhs)
            &&& well_phrased(*rhs)
            &&& sits_left(op, *lhs)
            &&& sits_right(op, *rhs)
        },
    }
}

/// What a token stands for in a written expression.
pub open spec fn mark_at(source: Seq<char>, t: Token) -> Mark {
    match t.kind {
        TokenKind::Number => Mark::Number(literal_at(source, t)->0),
        TokenKind::Operator(op) => Mark::Operator(op),
        TokenKind::OpenParen => Mark::Open,
        TokenKind::CloseParen => Mark::Close,
    }
}

/// What the tokens spell.
pub open spec fn marks_of(source: Seq<char>, tokens: Seq<Token>) -> Seq<Mark> {
    tokens.map_values(|t: Token| mark_at(source, t))
}

/// Every number among the tokens spells a decimal.
pub open spec fn numbers_read(source: Seq<char>, tokens: Seq<Token>) -> bool {
    forall|i: int|
        0 <= i < tokens.len() && (#[trigger] tokens[i]).kind is Number ==> literal_at(
            source,
            tokens[i],
        ) is Some
}

/// The parentheses that are open after the first `n` marks.
pub open spec fn depth(marks: Seq<Mark>, n: nat) -> int
    decreases n,
{
    if n == 0 {
        0
    } else {
        depth(marks, (n - 1) as nat) + match marks[n - 1] {
            Mark::Open => 1int,
            Mark::Close => -1int,
            _ => 0int,
        }
    }
}

proof fn lemma_depth_of_front(a: Seq<Mark>, b: Seq<Mark>, n: nat)
    requires
        n <= a.len(),
    ensures
        depth(a + b, n) == depth(a, n),
    decreases n,
{
    if n > 0 {
        lemma_depth_of_front(a, b, (n - 1) as nat);
        assert((a + b)[n - 1] == a[n - 1]);
    }
}

proof fn lemma_depth_of_back(a: Seq<Mark>, b: Seq<Mark>, n: nat)
    requires
        n <= b.len(),
    ensures
        depth(a + b, a.len() + n) == depth(a, a.len()) + depth(b, n),
    decreases n,
{
    if n == 0 {
        lemma_depth_of_front(a, b, a.len());
    } else {
        lemma_depth_of_back(a, b, (n - 1) as nat);
        assert((a + b)[a.len() + n - 1] == b[n - 1]);
    }
}

/// In the spelling of a phrase every parenthesis has its partner, and what stands inside a
/// group stands inside its parentheses.
pub proof fn lemma_spelling_is_balanced(p: Phrase)
    ensures
        spelling(p).len() >= 1,
        !(p is Number) ==> spelling(p).len() >= 3,
        depth(spelling(p), spelling(p).len()) == 0,
        forall|n: nat| n <= spelling(p).len() ==> #[trigger] depth(spelling(p), n) >= 0,
        p is Group ==> forall|n: nat|
            1 <= n < spelling(p).len() ==> #[trigger] depth(spelling(p), n) >= 1,
    decreases p,
{
    let whole = spelling(p);
    match p {
        Phrase::Number(d) => {
            assert(depth(whole, 0) == 0);
            assert(depth(whole, 1) == 0);
            assert forall|n: nat| n <= whole.len() implies #[trigger] depth(whole, n) >= 0 by {
                if n == 1 {
                } else {
                    assert(n == 0);
                }
            }
        },
        Phrase::Group(inner) => {
            lemma_spelling_is_balanced(*inner);
            let open = seq![Mark::Open];
            let close = seq![Mark::Close];
            let middle = spelling(*inner);
            let front = open + middle;
            assert(whole == front + close);
            assert(depth(open, 0) == 0);
            assert(depth(open, 1) == 1);
            assert(depth(close, 0) == 0);
            assert(depth(close, 1) == -1);
            assert forall|n: nat| n <= front.len() implies depth(front, n) == if n == 0 {
                0int
            } else {
                1 + depth(middle, (n - 1) as nat)
            } by {
                if n == 0 {
                } else {
                    lemma_depth_of_back(open, middle, (n - 1) as nat);
                }
            }
            assert forall|n: nat| n <= whole.len() implies depth(whole, n) == if n == 0 {
                0int
            } else if n < whole.len() {
                1 + depth(middle, (n - 1) as nat)
            } else {
                0int
            } by {
                if n <= front.len() {
                    lemma_depth_of_front(front, close, n);
                } else {
                    lemma_depth_of_back(front, close, 1);
                }
            }
            assert forall|n: nat| n <= whole.len() implies #[trigger] depth(whole, n) >= 0 by {
                if 0 < n < whole.len() {
                    assert(depth(middle, (n - 1) as nat) >= 0);
                }
            }
            assert forall|n: nat| 1 <= n < whole.len() implies #[trigger] depth(whole, n)
                >= 1 by {
                assert(depth(middle, (n - 1) as nat) >= 0);
            }
        },
        Phrase::Binary(op, lhs, rhs) => {
            lemma_spelling_is_balanced(*lhs);
            lemma_spelling_is_balanced(*rhs);
            lemma_depth_around_operator(p);
            assert forall|n: nat| n <= whole.len() implies #[trigger] depth(whole, n) >= 0 by {
                let left = spelling(*lhs);
                let right = spelling(*rhs);
                if n <= left.len() {
                    assert(depth(left, n) >= 0);
                } else {
                    assert(depth(right, (n - left.len() - 1) as nat) >= 0);
                }
            }
        },
    }
}

/// The depth in the spelling of two operands with an operator between them is the depth in
/// the operand that the place lies in, if each operand closes what it opens.
proof fn lemma_depth_around_operator(p: Phrase)
    requires
        p is Binary,
        depth(spelling(*p->Binary_1), spelling(*p->Binary_1).len()) == 0,
    ensures
        forall|n: nat|
            n <= spelling(*p->Binary_1).len() ==> #[trigger] depth(spelling(p), n) == depth(
                spelling(*p->Binary_1),
                n,
            ),
        forall|n: nat|
            spelling(*p->Binary_1).len() < n <= spelling(p).len() ==> #[trigger] depth(
                spelling(p),
                n,
            ) == depth(spelling(*p->Binary_2), (n - spelling(*p->Binary_1).len() - 1) as nat),
{
    let left = spelling(*p->Binary_1);
    let right = spelling(*p->Binary_2);
    let sign = seq![Mark::Operator(p->Binary_0)];
    let front = left + sign;
    let whole = spelling(p);
    assert(whole == front + right);
    assert(depth(sign, 0) == 0);
    assert(depth(sign, 1) == 0);
    lemma_depth_of_back(left, sign, 1);
    assert forall|n: nat| n <= left.len() implies #[trigger] depth(whole, n) == depth(left, n) by {
        lemma_depth_of_front(left, sign, n);
        lemma_depth_of_front(front, right, n);
    }
    assert forall|n: nat| left.len() < n <= whole.len() implies #[trigger] depth(whole, n)
        == depth(right, (n - left.len() - 1) as nat) by {
        lemma_depth_of_back(front, right, (n - left.len() - 1) as nat);
    }
}

/// In a well-phrased operand, every operator outside parentheses binds tightly enough for
/// the side that the operand stands on.
proof fn lemma_open_operators_stay(e: Phrase, op: Operator, i: int)
    requires
        well_phrased(e),
        0 <= i < spelling(e).len(),
        spelling(e)[i] is Operator,
        depth(spelling(e), i as nat) == 0,
    ensures
        sits_left(op, e) ==> stays_left(spelling(e)[i]->Operator_0, op),
        sits_right(op, e) ==> stays_right(spelling(e)[i]->Operator_0, op),
    decreases e,
{
    lemma_spelling_is_balanced(e);
    match e {
        Phrase::Number(_) => {},
        Phrase::Group(_) => {
            if i >= 1 {
                assert(depth(spelling(e), i as nat) >= 1);
            }
        },
        Phrase::Binary(inner, lhs, rhs) => {
            let x = spelling(e)[i]->Operator_0;
            let n = spelling(*lhs).len() as int;
            lemma_spelling_is_balanced(*lhs);
            lemma_depth_around_operator(e);
            lemma_equal_precedence_groups_alike(inner, op);
            lemma_equal_precedence_groups_alike(x, op);
            lemma_equal_precedence_groups_alike(x, inner);
            if i < n {
                assert(spelling(e)[i] == spelling(*lhs)[i]);
                assert(depth(spelling(e), i as nat) == depth(spelling(*lhs), i as nat));
                lemma_open_operators_stay(*lhs, inner, i);
            } else if i > n {
                assert(spelling(e)[i] == spelling(*rhs)[i - n - 1]);
                assert(depth(spelling(e), i as nat) == depth(
                    spelling(*rhs),
                    (i - n - 1) as nat,
                ));
                lemma_open_operators_stay(*rhs, inner, i - n - 1);
            } else {
                assert(x == inner);
            }
        },
    }
}

/// What is written can be read in one way only: two well-phrased phrases with the same
/// spelling are the same phrase.
pub proof fn lemma_phrase_is_unique(a: Phrase, b: Phrase)
    requires
        well_phrased(a),
        well_phrased(b),
        spelling(a) == spelling(b),
    ensures
        a == b,
    decreases a,
{
    lemma_spelling_is_balanced(a);
    lemma_spelling_is_balanced(b);
    let line = spelling(a);
    match a {
        Phrase::Number(d) => {
            assert(line[0] == Mark::Number(d));
            assert(b is Number);
        },
        Phrase::Group(inner) => {
            assert(line[0] == Mark::Open);
            match b {
                Phrase::Number(_) => {},
                Phrase::Group(inner2) => {
                    assert(spelling(*inner) == line.subrange(1, line.len() - 1));
                    assert(spelling(*inner2) == spelling(b).subrange(1, line.len() - 1));
                    lemma_phrase_is_unique(*inner, *inner2);
                },
                Phrase::Binary(_, lhs2, _) => {
                    // The operator of `b` would stand inside the parentheses of `a`.
                    let q = spelling(*lhs2).len();
                    lemma_spelling_is_balanced(*lhs2);
                    lemma_depth_around_operator(b);
                    assert(depth(spelling(b), q) == depth(spelling(*lhs2), q));
                    assert(depth(line, q) >= 1);
                },
            }
        },
        Phrase::Binary(op, lhs, rhs) => {
            let p = spelling(*lhs).len();
            lemma_spelling_is_balanced(*lhs);
            lemma_depth_around_operator(a);
            assert(depth(line, p) == depth(spelling(*lhs), p));
            match b {
                Phrase::Number(_) => {},
                Phrase::Group(_) => {
                    assert(depth(spelling(b), p) >= 1);
                },
                Phrase::Binary(op2, lhs2, rhs2) => {
                    let q = spelling(*lhs2).len();
                    lemma_spelling_is_balanced(*lhs2);
                    lemma_depth_around_operator(b);
                    assert(depth(spelling(b), q) == depth(spelling(*lhs2), q));
                    assert(line[p as int] == Mark::Operator(op));
                    assert(spelling(b)[q as int] == Mark::Operator(op2));
                    lemma_equal_precedence_groups_alike(op, op2);
                    if p < q {
                        // The operator of `a` stands in the left operand of `b`, and that
                        // of `b` in the right operand of `a`: each would have to bind
                        // tighter than the other.
                        assert(spelling(*lhs2)[p as int] == spelling(b)[p as int]);
                        assert(depth(spelling(b), p) == depth(spelling(*lhs2), p));
                        lemma_open_operators_stay(*lhs2, op2, p as int);
                        assert(spelling(*rhs)[q - p - 1] == line[q as int]);
                        assert(depth(line, q) == depth(spelling(*rhs), (q - p - 1) as nat));
                        lemma_open_operators_stay(*rhs, op, q - p - 1);
                    } else if q < p {
                        assert(spelling(*lhs)[q as int] == line[q as int]);
                        assert(depth(line, q) == depth(spelling(*lhs), q));
                        lemma_open_operators_stay(*lhs, op, q as int);
                        assert(spelling(*rhs2)[p - q - 1] == spelling(b)[p as int]);
                        assert(depth(spelling(b), p) == depth(
                            spelling(*rhs2),
                            (p - q - 1) as nat,
                        ));
                        lemma_open_operators_stay(*rhs2, op2, p - q - 1);
                    }
                    assert(p == q);
                    assert(op == op2);
                    assert(spelling(*lhs) == line.subrange(0, p as int));
                    assert(spelling(*lhs2) == spelling(b).subrange(0, p as int));
                    assert(spelling(*rhs) == line.subrange(p as int + 1, line.len() as int));
                    assert(spelling(*rhs2) == spelling(b).subrange(
                        p as int + 1,
                        line.len() as int,
                    ));
                    lemma_phrase_is_unique(*lhs, *lhs2);
                    lemma_phrase_is_unique(*rhs, *rhs2);
                },
            }
        },
    }
}

} // verus!
