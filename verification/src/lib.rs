//! An arithmetic expression evaluator in three stages: text is cut into tokens, the tokens
//! are reordered from infix to postfix, and the postfix sequence is reduced to one expression.
//!
//! - `lexer` cuts text into tokens with their spans.
//! - `postfix` reorders tokens by the shunting-yard algorithm.
//! - `literal` reads the text of a number token as an exact decimal.
//! - `eval` reduces a postfix sequence to the expression that it denotes.
//! - `pipeline` runs the three stages on one line.
//! - `phrase` describes expressions as they are written, with their parentheses.
//! - `grouping` states what the stages achieve together: they find the expression that a
//!   written phrase means, grouping operands by precedence, associativity and parentheses.
//! - `tokenizer` holds the operators and their table, and classifies single characters.
//!
//! The library computes no floating-point value. It hands back the expression, with every
//! number as an exact decimal, and leaves the arithmetic to its caller.

pub mod eval;
pub mod grouping;
pub mod lexer;
pub mod literal;
pub mod phrase;
pub mod pipeline;
pub mod postfix;
pub mod text;
pub mod token;
pub mod tokenizer;
