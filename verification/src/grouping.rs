//! What the pipeline means: how an expression is grouped.
//!
//! For the tokens that spell a well-phrased phrase, the converter and the evaluator together
//! produce the expression that the phrase means. Every expression in infix order is such a
//! spelling, so every expression is accepted and evaluated to what it means, with a group in
//! parentheses counting as one operand.

use crate::eval::{eval_postfix, eval_prefix, eval_step, EvalError, ExprView};
use crate::literal::literal_at;
use crate::phrase::{
    lemma_phrase_is_unique, lemma_spelling_is_balanced, mark_at, marks_of, meaning, numbers_read,
    sits_left, sits_right, spelling, well_phrased, Mark, Phrase,
};
use crate::postfix::{
    drain, leaves_before, lemma_group_converts_alone, lemma_postfix_needs_balance,
    lemma_yard_prefix_local, paren_depth, parens_balanced, pop_operators, postfix_of,
    yard_prefix, yard_step, ParseError, Yard,
};
use crate::token::{Token, TokenKind};
use crate::tokenizer::{lemma_equal_precedence_groups_alike, Operator};
use vstd::prelude::*;

verus! {

/// The evaluator can read the output of `y`.
pub open spec fn output_reads(source: Seq<char>, y: Yard) -> bool {
    eval_prefix(source, y.output, y.output.len()) is Ok
}

/// The operands that the evaluator builds from the output of `y`.
pub open spec fn operands(source: Seq<char>, y: Yard) -> Seq<ExprView> {
    eval_prefix(source, y.output, y.output.len())->Ok_0
}

/// The evaluator reads a prefix of its input without looking at the rest.
proof fn lemma_eval_prefix_local(source: Seq<char>, a: Seq<Token>, b: Seq<Token>, n: nat)
    requires
        n <= a.len(),
        n <= b.len(),
        a.take(n as int) == b.take(n as int),
    ensures
        eval_prefix(source, a, n) == eval_prefix(source, b, n),
    decreases n,
{
    if n > 0 {
        assert(a.take(n - 1) == a.take(n as int).take(n - 1));
        assert(b.take(n - 1) == b.take(n as int).take(n - 1));
        lemma_eval_prefix_local(source, a, b, (n - 1) as nat);
        assert(a[n - 1] == a.take(n as int)[n - 1]);
        assert(b[n - 1] == b.take(n as int)[n - 1]);
    }
}

/// One more token in the output is one more step of the evaluator.
proof fn lemma_eval_push(source: Seq<char>, out: Seq<Token>, t: Token)
    ensures
        eval_prefix(source, out.push(t), out.len() + 1) == match eval_prefix(
            source,
            out,
            out.len(),
        ) {
            Ok(stack) => eval_step(source, stack, t),
            Err(e) => Err(e),
        },
{
    assert(out.push(t).take(out.len() as int) == out.take(out.len() as int));
    lemma_eval_prefix_local(source, out.push(t), out, out.len());
}

proof fn lemma_block_on_top(source: Seq<char>, before: Seq<Token>, block: Seq<Token>, n: nat)
    requires
        eval_prefix(source, before, before.len()) is Ok,
        n <= block.len(),
        eval_prefix(source, block, n) is Ok,
    ensures
        eval_prefix(source, before + block, before.len() + n) == Ok::<Seq<ExprView>, EvalError>(
            eval_prefix(source, before, before.len())->Ok_0 + eval_prefix(source, block, n)->Ok_0,
        ),
    decreases n,
{
    let all = before + block;
    let vs = eval_prefix(source, before, before.len())->Ok_0;
    if n == 0 {
        assert(all.take(before.len() as int) == before.take(before.len() as int));
        lemma_eval_prefix_local(source, all, before, before.len());
        assert(vs + Seq::<ExprView>::empty() == vs);
    } else {
        let k = (n - 1) as nat;
        lemma_block_on_top(source, before, block, k);
        let st = eval_prefix(source, block, k)->Ok_0;
        let t = block[k as int];
        assert(all[(before.len() + k) as int] == t);
        match t.kind {
            TokenKind::Number => {
                let d = literal_at(source, t)->0;
                assert((vs + st).push(ExprView::Number(d)) == vs + st.push(ExprView::Number(d)));
            },
            TokenKind::Operator(op) => {
                let whole = vs + st;
                let joined = ExprView::Binary(
                    op,
                    Box::new(st[st.len() - 2]),
                    Box::new(st[st.len() - 1]),
                );
                assert(whole[whole.len() - 2] == st[st.len() - 2]);
                assert(whole[whole.len() - 1] == st[st.len() - 1]);
                assert(whole.take(whole.len() - 2).push(joined) == vs + st.take(
                    st.len() - 2,
                ).push(joined));
            },
            _ => {},
        }
    }
}

/// A postfix sequence that denotes an expression on its own denotes it wherever it stands:
/// read after other tokens, it leaves their operands alone and adds that one expression.
pub proof fn lemma_block_evaluates_alone(source: Seq<char>, before: Seq<Token>, block: Seq<Token>)
    requires
        eval_prefix(source, before, before.len()) is Ok,
        eval_postfix(source, block) is Ok,
    ensures
        eval_prefix(source, before + block, (before + block).len()) == Ok::<
            Seq<ExprView>,
            EvalError,
        >(
            eval_prefix(source, before, before.len())->Ok_0.push(
                eval_postfix(source, block)->Ok_0,
            ),
        ),
{
    lemma_block_on_top(source, before, block, block.len());
    let vs = eval_prefix(source, before, before.len())->Ok_0;
    let st = eval_prefix(source, block, block.len())->Ok_0;
    assert(vs + st == vs.push(st[0]));
}

/// Parentheses override precedence: a group in parentheses counts as one operand, the
/// expression that its inside denotes. When the converter has read the group, its stack is
/// as it was before, and the evaluator finds in the output one operand more, just as after
/// a number: the expression of the inside, built without regard to what stands around the
/// parentheses.
pub proof fn lemma_group_is_one_operand(
    source: Seq<char>,
    before: Seq<Token>,
    open: Token,
    inside: Seq<Token>,
    close: Token,
)
    requires
        open.kind is OpenParen,
        close.kind is CloseParen,
        yard_prefix(before, before.len()) is Ok,
        output_reads(source, yard_prefix(before, before.len())->Ok_0),
        postfix_of(inside) is Ok,
        eval_postfix(source, postfix_of(inside)->Ok_0) is Ok,
    ensures
        ({
            let group = before.push(open) + inside.push(close);
            let y0 = yard_prefix(before, before.len())->Ok_0;
            let y = yard_prefix(group, group.len())->Ok_0;
            &&& yard_prefix(group, group.len()) is Ok
            &&& y.stack == y0.stack
            &&& output_reads(source, y)
            &&& operands(source, y) == operands(source, y0).push(
                eval_postfix(source, postfix_of(inside)->Ok_0)->Ok_0,
            )
        }),
{
    lemma_postfix_needs_balance(inside);
    lemma_group_converts_alone(before, open, inside, close);
    let y0 = yard_prefix(before, before.len())->Ok_0;
    lemma_block_evaluates_alone(source, y0.output, postfix_of(inside)->Ok_0);
}

/// What the phrases mean, one by one.
spec fn meanings(ps: Seq<Phrase>) -> Seq<ExprView> {
    ps.map_values(|p: Phrase| meaning(p))
}

/// The operands that the evaluator builds from the output of `y` are what the phrases
/// `ps` mean.
spec fn holds(source: Seq<char>, y: Yard, ps: Seq<Phrase>) -> bool {
    output_reads(source, y) && operands(source, y) == meanings(ps)
}

/// What holds between the operands `ps` and the waiting operators `ops` after an operand:
/// there is one operand more than operators, every operand is well phrased and sits well
/// beside the operators next to it, and no waiting operator would have left before the one
/// above it.
spec fn chain(ps: Seq<Phrase>, ops: Seq<Token>) -> bool
    decreases ops.len(),
{
    &&& ps.len() == ops.len() + 1
    &&& well_phrased(ps.last())
    &&& ops.len() > 0 ==> {
        &&& ops.last().kind is Operator
        &&& sits_right(ops.last().kind->Operator_0, ps.last())
        &&& sits_left(ops.last().kind->Operator_0, ps[ps.len() - 2])
        &&& ops.len() > 1 ==> {
            &&& ops[ops.len() - 2].kind is Operator
            &&& !leaves_before(ops[ops.len() - 2].kind->Operator_0, ops.last().kind->Operator_0)
        }
        &&& chain(ps.drop_last(), ops.drop_last())
    }
}

/// What the operands and the waiting operators spell between them, operand and operator in
/// turn.
spec fn pending(ps: Seq<Phrase>, ops: Seq<Token>) -> Seq<Mark>
    decreases ps.len() + ops.len(),
{
    if ops.len() > 0 && ops.len() >= ps.len() {
        pending(ps, ops.drop_last()).push(Mark::Operator(ops.last().kind->Operator_0))
    } else if ps.len() > 0 {
        pending(ps.drop_last(), ops) + spelling(ps.last())
    } else {
        Seq::empty()
    }
}

/// Moving the top operator to the output joins the two topmost operands under it, and
/// nothing else changes.
proof fn lemma_shift_joins(source: Seq<char>, y: Yard, ps: Seq<Phrase>) -> (qs: Seq<Phrase>)
    requires
        y.stack.len() > 0,
        holds(source, y, ps),
        chain(ps, y.stack),
    ensures
        holds(source, y.shift(), qs),
        chain(qs, y.shift().stack),
        pending(qs, y.shift().stack) == pending(ps, y.stack),
        qs.last() matches Phrase::Binary(op, _, _) && y.stack.last().kind == TokenKind::Operator(
            op,
        ),
{
    let ops = y.stack;
    let o = ops.last().kind->Operator_0;
    let n = ps.len() as int;
    let joined = Phrase::Binary(o, Box::new(ps[n - 2]), Box::new(ps[n - 1]));
    let qs = ps.take(n - 2).push(joined);
    let rest = ops.drop_last();
    lemma_eval_push(source, y.output, ops.last());
    assert(meanings(qs) == meanings(ps).take(n - 2).push(meaning(joined)));
    assert(chain(ps.drop_last(), rest));
    assert(ps.drop_last().last() == ps[n - 2]);
    assert(well_phrased(joined));
    assert(qs.drop_last() == ps.drop_last().drop_last());
    assert(qs.last() == joined);
    if rest.len() > 0 {
        assert(qs[qs.len() - 2] == ps.drop_last()[ps.drop_last().len() - 2]);
        assert(rest.last() == ops[ops.len() - 2]);
        lemma_equal_precedence_groups_alike(o, rest.last().kind->Operator_0);
    }
    assert(chain(qs, rest));
    // The spelling is the same, grouped differently.
    let below = pending(ps.drop_last().drop_last(), rest);
    assert(pending(ps.drop_last(), rest) == below + spelling(ps[n - 2]));
    assert(pending(ps.drop_last(), ops) == pending(ps.drop_last(), rest).push(Mark::Operator(o)));
    assert(pending(ps, ops) == pending(ps.drop_last(), ops) + spelling(ps[n - 1]));
    assert(pending(qs, rest) == below + spelling(joined));
    assert(spelling(joined) == spelling(ps[n - 2]) + seq![Mark::Operator(o)] + spelling(
        ps[n - 1],
    ));
    assert((below + spelling(ps[n - 2])).push(Mark::Operator(o)) + spelling(ps[n - 1]) == below
        + spelling(joined));
    qs
}

/// While operators leave before `o1`, the operands stay a chain that spells the same, and
/// when they stop the top of the stack does not leave before `o1` and the topmost operand
/// sits well to its left.
proof fn lemma_pop_keeps_chain(
    source: Seq<char>,
    y: Yard,
    ps: Seq<Phrase>,
    o1: Operator,
) -> (qs: Seq<Phrase>)
    requires
        holds(source, y, ps),
        chain(ps, y.stack),
        sits_left(o1, ps.last()),
    ensures
        holds(source, pop_operators(y, o1), qs),
        chain(qs, pop_operators(y, o1).stack),
        sits_left(o1, qs.last()),
        pending(qs, pop_operators(y, o1).stack) == pending(ps, y.stack),
        pop_operators(y, o1).stack.len() > 0 ==> pop_operators(y, o1).stack.last().kind
            is Operator && !leaves_before(pop_operators(y, o1).stack.last().kind->Operator_0, o1),
    decreases y.stack.len(),
{
    if y.stack.len() > 0 && y.stack.last().kind is Operator && leaves_before(
        y.stack.last().kind->Operator_0,
        o1,
    ) {
        let joined = lemma_shift_joins(source, y, ps);
        lemma_pop_keeps_chain(source, y.shift(), joined, o1)
    } else {
        ps
    }
}

/// Emptying the stack leaves the one phrase that spells all that was pending.
proof fn lemma_drain_joins_all(source: Seq<char>, y: Yard, ps: Seq<Phrase>) -> (p: Phrase)
    requires
        holds(source, y, ps),
        chain(ps, y.stack),
    ensures
        drain(y) is Ok,
        eval_postfix(source, drain(y)->Ok_0) == Ok::<ExprView, EvalError>(meaning(p)),
        well_phrased(p),
        spelling(p) == pending(ps, y.stack),
    decreases y.stack.len(),
{
    if y.stack.len() > 0 {
        let joined = lemma_shift_joins(source, y, ps);
        lemma_drain_joins_all(source, y.shift(), joined)
    } else {
        assert(pending(ps.drop_last(), y.stack) == Seq::<Mark>::empty());
        assert(Seq::<Mark>::empty() + spelling(ps[0]) == spelling(ps[0]));
        ps[0]
    }
}

/// What holds when the first `n` tokens end with an operand: the operands are a chain that
/// spells those tokens, and the topmost is that last operand, a number or a group.
spec fn after_operand(source: Seq<char>, tokens: Seq<Token>, n: int, ps: Seq<Phrase>) -> bool {
    &&& 0 <= n <= tokens.len()
    &&& yard_prefix(tokens, n as nat) is Ok
    &&& {
        let y = yard_prefix(tokens, n as nat)->Ok_0;
        &&& holds(source, y, ps)
        &&& chain(ps, y.stack)
        &&& !(ps.last() is Binary)
        &&& pending(ps, y.stack) == marks_of(source, tokens.take(n))
    }
}

/// What holds when the first `n` tokens wait for an operand: there are none, or they end
/// with an operator, below which the operands are a chain, and the topmost operand sits
/// well to the left of that operator.
spec fn before_operand(source: Seq<char>, tokens: Seq<Token>, n: int, ps: Seq<Phrase>) -> bool {
    &&& 0 <= n <= tokens.len()
    &&& yard_prefix(tokens, n as nat) is Ok
    &&& {
        let y = yard_prefix(tokens, n as nat)->Ok_0;
        &&& holds(source, y, ps)
        &&& y.stack.len() == ps.len()
        &&& ps.len() > 0 ==> {
            &&& y.stack.last().kind is Operator
            &&& chain(ps, y.stack.drop_last())
            &&& sits_left(y.stack.last().kind->Operator_0, ps.last())
            &&& y.stack.len() > 1 ==> y.stack[y.stack.len() - 2].kind is Operator
                && !leaves_before(
                y.stack[y.stack.len() - 2].kind->Operator_0,
                y.stack.last().kind->Operator_0,
            )
        }
        &&& pending(ps, y.stack) == marks_of(source, tokens.take(n))
    }
}

proof fn lemma_marks_append(source: Seq<char>, tokens: Seq<Token>, n: int, m: int)
    requires
        0 <= n <= m <= tokens.len(),
    ensures
        marks_of(source, tokens.take(m)) == marks_of(source, tokens.take(n)) + marks_of(
            source,
            tokens.subrange(n, m),
        ),
{
    assert(tokens.take(m) == tokens.take(n) + tokens.subrange(n, m));
}

proof fn lemma_marks_of_part(
    source: Seq<char>,
    tokens: Seq<Token>,
    from: int,
    to: int,
    a: int,
    b: int,
)
    requires
        0 <= from <= a <= b <= to <= tokens.len(),
    ensures
        marks_of(source, tokens.subrange(a, b)) == marks_of(
            source,
            tokens.subrange(from, to),
        ).subrange(a - from, b - from),
{
    let part = tokens.subrange(from, to);
    assert forall|i: int| 0 <= i < b - a implies marks_of(source, tokens.subrange(a, b))[i]
        == marks_of(source, part).subrange(a - from, b - from)[i] by {
        assert(tokens.subrange(a, b)[i] == part[a - from + i]);
    }
}

/// A number is one operand more.
proof fn lemma_reads_number(
    source: Seq<char>,
    tokens: Seq<Token>,
    n: int,
    ps: Seq<Phrase>,
) -> (qs: Seq<Phrase>)
    requires
        before_operand(source, tokens, n, ps),
        n < tokens.len(),
        tokens[n].kind is Number,
        literal_at(source, tokens[n]) is Some,
    ensures
        qs == ps.push(Phrase::Number(literal_at(source, tokens[n])->0)),
        after_operand(source, tokens, n + 1, qs),
{
    let y = yard_prefix(tokens, n as nat)->Ok_0;
    let t = tokens[n];
    let p = Phrase::Number(literal_at(source, t)->0);
    lemma_eval_push(source, y.output, t);
    let qs = ps.push(p);
    assert(meanings(qs) == meanings(ps).push(meaning(p)));
    assert(qs.drop_last() == ps);
    lemma_marks_append(source, tokens, n, n + 1);
    assert(marks_of(source, tokens.subrange(n, n + 1)) == spelling(p)) by {
        assert(tokens.subrange(n, n + 1)[0] == t);
    }
    qs
}

/// A group is one operand more, when its inside is evaluated to what it means.
proof fn lemma_reads_group(
    source: Seq<char>,
    tokens: Seq<Token>,
    n: int,
    len: int,
    inner: Phrase,
    ps: Seq<Phrase>,
) -> (qs: Seq<Phrase>)
    requires
        before_operand(source, tokens, n, ps),
        len >= 2,
        n + len <= tokens.len(),
        tokens[n].kind is OpenParen,
        tokens[n + len - 1].kind is CloseParen,
        marks_of(source, tokens.subrange(n + 1, n + len - 1)) == spelling(inner),
        well_phrased(inner),
        postfix_of(tokens.subrange(n + 1, n + len - 1)) is Ok,
        eval_postfix(source, postfix_of(tokens.subrange(n + 1, n + len - 1))->Ok_0) == Ok::<
            ExprView,
            EvalError,
        >(meaning(inner)),
    ensures
        qs == ps.push(Phrase::Group(Box::new(inner))),
        after_operand(source, tokens, n + len, qs),
{
    let p = Phrase::Group(Box::new(inner));
    let open = tokens[n];
    let close = tokens[n + len - 1];
    let inside = tokens.subrange(n + 1, n + len - 1);
    let before = tokens.take(n);
    let group = before.push(open) + inside.push(close);
    assert(group == tokens.take(n + len));
    assert(before.take(n) == tokens.take(n));
    lemma_yard_prefix_local(before, tokens, n as nat);
    lemma_group_is_one_operand(source, before, open, inside, close);
    assert(group.take(n + len) == tokens.take(n + len));
    lemma_yard_prefix_local(group, tokens, (n + len) as nat);
    let qs = ps.push(p);
    assert(meanings(qs) == meanings(ps).push(meaning(p)));
    assert(qs.drop_last() == ps);
    lemma_marks_append(source, tokens, n, n + len);
    assert(marks_of(source, tokens.subrange(n, n + len)) == spelling(p)) by {
        let part = tokens.subrange(n, n + len);
        assert forall|i: int| 0 <= i < len implies marks_of(source, part)[i] == spelling(p)[i] by {
            if i == 0 {
                assert(part[i] == open);
            } else if i == len - 1 {
                assert(part[i] == close);
            } else {
                assert(part[i] == inside[i - 1]);
                assert(marks_of(source, inside)[i - 1] == spelling(inner)[i - 1]);
            }
        }
    }
    qs
}

/// An operator lets the operators leave that bind tighter, joins their operands, and waits
/// for its right operand.
proof fn lemma_reads_operator(
    source: Seq<char>,
    tokens: Seq<Token>,
    n: int,
    ps: Seq<Phrase>,
) -> (qs: Seq<Phrase>)
    requires
        after_operand(source, tokens, n, ps),
        n < tokens.len(),
        tokens[n].kind is Operator,
    ensures
        before_operand(source, tokens, n + 1, qs),
        qs.len() > 0,
{
    let y = yard_prefix(tokens, n as nat)->Ok_0;
    let t = tokens[n];
    let op = t.kind->Operator_0;
    let qs = lemma_pop_keeps_chain(source, y, ps, op);
    let popped = pop_operators(y, op);
    let next = Yard { stack: popped.stack.push(t), output: popped.output };
    assert(yard_step(y, t) == Ok::<Yard, ParseError>(next));
    assert(next.stack.drop_last() == popped.stack);
    if next.stack.len() > 1 {
        assert(next.stack[next.stack.len() - 2] == popped.stack.last());
    }
    lemma_marks_append(source, tokens, n, n + 1);
    assert(marks_of(source, tokens.subrange(n, n + 1)) == seq![Mark::Operator(op)]) by {
        assert(tokens.subrange(n, n + 1)[0] == t);
    }
    assert(pending(qs, next.stack) == pending(qs, popped.stack).push(Mark::Operator(op)));
    assert(marks_of(source, tokens.take(n)) + seq![Mark::Operator(op)] == marks_of(
        source,
        tokens.take(n),
    ).push(Mark::Operator(op)));
    qs
}

/// Reading an operand, whatever it holds, adds that one operand to the chain.
proof fn lemma_reads_phrase(
    source: Seq<char>,
    tokens: Seq<Token>,
    n: int,
    p: Phrase,
    ps: Seq<Phrase>,
) -> (qs: Seq<Phrase>)
    requires
        before_operand(source, tokens, n, ps),
        n + spelling(p).len() <= tokens.len(),
        marks_of(source, tokens.subrange(n, n + spelling(p).len())) == spelling(p),
        well_phrased(p),
        numbers_read(source, tokens),
    ensures
        after_operand(source, tokens, n + spelling(p).len(), qs),
    decreases p, 0nat,
{
    let len = spelling(p).len() as int;
    let part = tokens.subrange(n, n + len);
    lemma_spelling_is_balanced(p);
    match p {
        Phrase::Number(d) => {
            assert(part[0] == tokens[n]);
            assert(mark_at(source, tokens[n]) == spelling(p)[0]);
            lemma_reads_number(source, tokens, n, ps)
        },
        Phrase::Group(inner) => {
            let inside = tokens.subrange(n + 1, n + len - 1);
            assert(part[0] == tokens[n]);
            assert(mark_at(source, tokens[n]) == spelling(p)[0]);
            assert(part[len - 1] == tokens[n + len - 1]);
            assert(mark_at(source, tokens[n + len - 1]) == spelling(p)[len - 1]);
            lemma_marks_of_part(source, tokens, n, n + len, n + 1, n + len - 1);
            assert(spelling(p).subrange(1, len - 1) == spelling(*inner));
            assert(numbers_read(source, inside)) by {
                assert forall|i: int|
                    0 <= i < inside.len() && (#[trigger] inside[i]).kind
                        is Number implies literal_at(source, inside[i]) is Some by {
                    assert(inside[i] == tokens[n + 1 + i]);
                }
            }
            lemma_phrase_is_evaluated(source, inside, *inner);
            lemma_reads_group(source, tokens, n, len, *inner, ps)
        },
        Phrase::Binary(op, lhs, rhs) => {
            let left = spelling(*lhs).len() as int;
            let right = spelling(*rhs).len() as int;
            lemma_marks_of_part(source, tokens, n, n + len, n, n + left);
            assert(spelling(p).subrange(0, left) == spelling(*lhs));
            let ms = lemma_reads_phrase(source, tokens, n, *lhs, ps);
            let m = n + left;
            assert(part[left] == tokens[m]);
            assert(mark_at(source, tokens[m]) == spelling(p)[left]);
            let js = lemma_reads_operator(source, tokens, m, ms);
            lemma_marks_of_part(source, tokens, n, n + len, m + 1, m + 1 + right);
            assert(spelling(p).subrange(left + 1, len) == spelling(*rhs));
            lemma_reads_phrase(source, tokens, m + 1, *rhs, js)
        },
    }
}

/// The pipeline means what is written. Where tokens spell a well-phrased phrase and their
/// numbers spell decimals, the converter accepts them and the evaluator reduces the postfix
/// order to the expression that the phrase means: operators of higher precedence are
/// applied first, operators of equal precedence from the side they group to, and what
/// stands in parentheses before what stands around it.
pub proof fn lemma_phrase_is_evaluated(source: Seq<char>, tokens: Seq<Token>, p: Phrase)
    requires
        marks_of(source, tokens) == spelling(p),
        well_phrased(p),
        numbers_read(source, tokens),
    ensures
        postfix_of(tokens) is Ok,
        eval_postfix(source, postfix_of(tokens)->Ok_0) == Ok::<ExprView, EvalError>(meaning(p)),
    decreases p, 1nat,
{
    let none = Seq::<Phrase>::empty();
    assert(meanings(none) == Seq::<ExprView>::empty());
    assert(tokens.take(0) == Seq::<Token>::empty());
    assert(marks_of(source, tokens.take(0)) == Seq::<Mark>::empty());
    assert(tokens.subrange(0, tokens.len() as int) == tokens);
    let ps = lemma_reads_phrase(source, tokens, 0, p, none);
    let y = yard_prefix(tokens, tokens.len())->Ok_0;
    assert(tokens.take(tokens.len() as int) == tokens);
    let read = lemma_drain_joins_all(source, y, ps);
    lemma_phrase_is_unique(read, p);
}

/// After the first `n` tokens an operand is due: nothing has been read, or the last token
/// is an operator or an opening parenthesis.
pub open spec fn operand_due(tokens: Seq<Token>, n: int) -> bool {
    n == 0 || tokens[n - 1].kind is Operator || tokens[n - 1].kind is OpenParen
}

/// The token at place `i` comes in its turn: where an operand is due, a number or an
/// opening parenthesis; elsewhere an operator or a closing parenthesis.
pub open spec fn in_turn(tokens: Seq<Token>, i: int) -> bool {
    if operand_due(tokens, i) {
        tokens[i].kind is Number || tokens[i].kind is OpenParen
    } else {
        tokens[i].kind is Operator || tokens[i].kind is CloseParen
    }
}

/// The tokens are an expression in infix order: operands and operators take turns, the
/// last token ends an operand, and every parenthesis has its partner.
pub open spec fn is_expression(tokens: Seq<Token>) -> bool {
    &&& forall|i: int| 0 <= i < tokens.len() ==> #[trigger] in_turn(tokens, i)
    &&& !operand_due(tokens, tokens.len() as int)
    &&& parens_balanced(tokens)
}

proof fn lemma_depth_of_part(tokens: Seq<Token>, from: int, k: nat)
    requires
        0 <= from,
        from + k <= tokens.len(),
    ensures
        paren_depth(tokens.subrange(from, tokens.len() as int), k) == paren_depth(
            tokens,
            (from + k) as nat,
        ) - paren_depth(tokens, from as nat),
    decreases k,
{
    if k > 0 {
        lemma_depth_of_part(tokens, from, (k - 1) as nat);
        assert(tokens.subrange(from, tokens.len() as int)[k - 1] == tokens[from + k - 1]);
    }
}

proof fn lemma_depth_of_front(a: Seq<Token>, b: Seq<Token>, k: nat)
    requires
        k <= a.len(),
        a.len() <= b.len(),
        a == b.take(a.len() as int),
    ensures
        paren_depth(a, k) == paren_depth(b, k),
    decreases k,
{
    if k > 0 {
        lemma_depth_of_front(a, b, (k - 1) as nat);
    }
}

/// An opening parenthesis has its partner: the first place after it where no more
/// parentheses are open than before it.
proof fn lemma_finds_partner(tokens: Seq<Token>, n: int, k: int) -> (m: int)
    requires
        parens_balanced(tokens),
        0 <= n < k <= tokens.len(),
        forall|j: nat|
            n < j <= k ==> #[trigger] paren_depth(tokens, j) > paren_depth(tokens, n as nat),
    ensures
        k <= m < tokens.len(),
        tokens[m].kind is CloseParen,
        paren_depth(tokens, (m + 1) as nat) == paren_depth(tokens, n as nat),
        forall|j: nat|
            n < j <= m ==> #[trigger] paren_depth(tokens, j) > paren_depth(tokens, n as nat),
    decreases tokens.len() - k,
{
    assert(paren_depth(tokens, n as nat) >= 0);
    assert(paren_depth(tokens, k as nat) > paren_depth(tokens, n as nat));
    if k == tokens.len() {
        k
    } else if paren_depth(tokens, (k + 1) as nat) > paren_depth(tokens, n as nat) {
        assert forall|j: nat| n < j <= k + 1 implies #[trigger] paren_depth(tokens, j)
            > paren_depth(tokens, n as nat) by {
            if j <= k {
            } else {
                assert(j == (k + 1) as nat);
            }
        }
        lemma_finds_partner(tokens, n, k + 1)
    } else {
        k
    }
}

/// What stands between an opening parenthesis and its partner is an expression.
proof fn lemma_inside_is_expression(tokens: Seq<Token>, n: int, m: int)
    requires
        is_expression(tokens),
        0 <= n < m < tokens.len(),
        tokens[n].kind is OpenParen,
        tokens[m].kind is CloseParen,
        paren_depth(tokens, (m + 1) as nat) == paren_depth(tokens, n as nat),
        forall|j: nat|
            n < j <= m ==> #[trigger] paren_depth(tokens, j) > paren_depth(tokens, n as nat),
    ensures
        n + 1 < m,
        is_expression(tokens.subrange(n + 1, m)),
{
    let inside = tokens.subrange(n + 1, m);
    assert(in_turn(tokens, m));
    assert(n + 1 < m);
    assert forall|i: int| 0 <= i < inside.len() implies #[trigger] in_turn(inside, i) by {
        assert(in_turn(tokens, n + 1 + i));
        assert(inside[i] == tokens[n + 1 + i]);
        if i > 0 {
            assert(inside[i - 1] == tokens[n + i]);
        }
    }
    assert(inside[inside.len() - 1] == tokens[m - 1]);
    let rest = tokens.subrange(n + 1, tokens.len() as int);
    assert(inside == rest.take(inside.len() as int));
    assert(paren_depth(tokens, (n + 1) as nat) == paren_depth(tokens, n as nat) + 1);
    assert forall|k: nat| k <= inside.len() implies #[trigger] paren_depth(inside, k) >= 0 by {
        lemma_depth_of_front(inside, rest, k);
        lemma_depth_of_part(tokens, n + 1, k);
        if k > 0 {
            assert(paren_depth(tokens, (n + 1 + k) as nat) > paren_depth(tokens, n as nat));
        }
    }
    lemma_depth_of_front(inside, rest, inside.len());
    lemma_depth_of_part(tokens, n + 1, inside.len());
    assert(paren_depth(tokens, (m + 1) as nat) == paren_depth(tokens, m as nat) - 1);
}

/// From a place outside all parentheses, the rest of an expression is read operand by
/// operand.
proof fn lemma_reads_on(source: Seq<char>, tokens: Seq<Token>, n: int, ps: Seq<Phrase>) -> (qs:
    Seq<Phrase>)
    requires
        is_expression(tokens),
        numbers_read(source, tokens),
        0 <= n <= tokens.len(),
        paren_depth(tokens, n as nat) == 0,
        if operand_due(tokens, n) {
            before_operand(source, tokens, n, ps)
        } else {
            after_operand(source, tokens, n, ps)
        },
    ensures
        after_operand(source, tokens, tokens.len() as int, qs),
    decreases tokens.len(), tokens.len() - n,
{
    if n == tokens.len() {
        ps
    } else {
        let t = tokens[n];
        assert(in_turn(tokens, n));
        assert(paren_depth(tokens, (n + 1) as nat) >= 0);
        match t.kind {
            TokenKind::Number => {
                let ms = lemma_reads_number(source, tokens, n, ps);
                lemma_reads_on(source, tokens, n + 1, ms)
            },
            TokenKind::Operator(_) => {
                let ms = lemma_reads_operator(source, tokens, n, ps);
                lemma_reads_on(source, tokens, n + 1, ms)
            },
            TokenKind::OpenParen => {
                let m = lemma_finds_partner(tokens, n, n + 1);
                lemma_inside_is_expression(tokens, n, m);
                let inside = tokens.subrange(n + 1, m);
                assert(numbers_read(source, inside)) by {
                    assert forall|i: int|
                        0 <= i < inside.len() && (#[trigger] inside[i]).kind
                            is Number implies literal_at(source, inside[i]) is Some by {
                        assert(inside[i] == tokens[n + 1 + i]);
                    }
                }
                let inner = lemma_expression_is_read(source, inside);
                let ms = lemma_reads_group(source, tokens, n, m - n + 1, inner, ps);
                lemma_reads_on(source, tokens, m + 1, ms)
            },
            TokenKind::CloseParen => ps,
        }
    }
}

/// Every expression can be read. Where the tokens are an expression in infix order and
/// their numbers spell decimals, the pipeline accepts them, and what comes out is what a
/// well-phrased phrase means that the tokens spell. Since what is written can be read in
/// one way only, that phrase is the only one.
pub proof fn lemma_expression_is_read(source: Seq<char>, tokens: Seq<Token>) -> (p: Phrase)
    requires
        is_expression(tokens),
        numbers_read(source, tokens),
    ensures
        well_phrased(p),
        spelling(p) == marks_of(source, tokens),
        postfix_of(tokens) is Ok,
        eval_postfix(source, postfix_of(tokens)->Ok_0) == Ok::<ExprView, EvalError>(meaning(p)),
    decreases tokens.len(), tokens.len() + 1,
{
    let none = Seq::<Phrase>::empty();
    assert(meanings(none) == Seq::<ExprView>::empty());
    assert(marks_of(source, tokens.take(0)) == Seq::<Mark>::empty());
    let ps = lemma_reads_on(source, tokens, 0, none);
    assert(tokens.take(tokens.len() as int) == tokens);
    lemma_drain_joins_all(source, yard_prefix(tokens, tokens.len())->Ok_0, ps)
}

} // verus!
