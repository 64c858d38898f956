//! The three stages in a row: one line of text in, one expression out.

use crate::eval::{eval_postfix, evaluate, EvalError, Expr, ExprView};
use crate::grouping::{is_expression, lemma_expression_is_read, lemma_phrase_is_evaluated};
use crate::lexer::{lex, tokenize, LexError};
use crate::phrase::{marks_of, meaning, numbers_read, spelling, well_phrased, Phrase};
use crate::postfix::{postfix_of, to_postfix, ParseError};
use vstd::prelude::*;

verus! {

/// What went wrong, by the stage that found it.
#[derive(Clone, Copy, Debug, PartialEq, Eq, Structural)]
pub enum PipelineError {
    Lex(LexError),
    Parse(ParseError),
    Eval(EvalError),
}

/// The expression that a line of text denotes, or the error of the first stage that fails.
pub open spec fn line_value(text: Seq<char>) -> Result<ExprView, PipelineError> {
    match lex(text) {
        Err(e) => Err(PipelineError::Lex(e)),
        Ok(tokens) => match postfix_of(tokens) {
            Err(e) => Err(PipelineError::Parse(e)),
            Ok(postfix) => match eval_postfix(text, postfix) {
                Err(e) => Err(PipelineError::Eval(e)),
                Ok(expr) => Ok(expr),
            },
        },
    }
}

/// A line means what is written in it: where its tokens spell a well-phrased phrase and its
/// numbers spell decimals, its value is the expression that the phrase means.
pub proof fn lemma_line_means_what_is_written(text: Seq<char>, p: Phrase)
    requires
        lex(text) is Ok,
        marks_of(text, lex(text)->Ok_0) == spelling(p),
        numbers_read(text, lex(text)->Ok_0),
        well_phrased(p),
    ensures
        line_value(text) == Ok::<ExprView, PipelineError>(meaning(p)),
{
    lemma_phrase_is_evaluated(text, lex(text)->Ok_0, p);
}

/// Every expression has a value: where the tokens of a line are an expression in infix
/// order and its numbers spell decimals, no stage fails, and the value of the line is what
/// the line, read as a well-phrased phrase, means.
pub proof fn lemma_expression_has_a_value(text: Seq<char>) -> (p: Phrase)
    requires
        lex(text) is Ok,
        is_expression(lex(text)->Ok_0),
        numbers_read(text, lex(text)->Ok_0),
    ensures
        well_phrased(p),
        spelling(p) == marks_of(text, lex(text)->Ok_0),
        line_value(text) == Ok::<ExprView, PipelineError>(meaning(p)),
{
    lemma_expression_is_read(text, lex(text)->Ok_0)
}

/// Evaluates one line of text. An error passes through unchanged from the stage that
/// found it.
pub fn evaluate_line(text: &str) -> (r: Result<Expr, PipelineError>)
    ensures
        match r {
            Ok(expr) => line_value(text@) == Ok::<ExprView, PipelineError>(expr@),
            Err(e) => line_value(text@) == Err::<ExprView, PipelineError>(e),
        },
{
    let tokens = match tokenize(text) {
        Ok(tokens) => tokens,
        Err(e) => {
            return Err(PipelineError::Lex(e));
        },
    };
    let postfix = match to_postfix(tokens.as_slice()) {
        Ok(postfix) => postfix,
        Err(e) => {
            return Err(PipelineError::Parse(e));
        },
    };
    match evaluate(text, postfix.as_slice()) {
        Ok(expr) => Ok(expr),
        Err(e) => Err(PipelineError::Eval(e)),
    }
}

} // verus!
