//! The lexer: from text to tokens.
//!
//! Offsets count characters. Every character that the lexer accepts is an ASCII character, so
//! in a text that it accepts they are byte offsets as well, and so is the position of the first
//! character that it rejects.

use crate::text::chars_of;
use crate::token::{Token, TokenKind};
use crate::tokenizer::Operator;
use vstd::prelude::*;

verus! {

/// A character that no token can hold, and where it stands in the text.
#[derive(Clone, Copy, Debug, PartialEq, Eq, Structural)]
pub struct LexError {
    pub position: usize,
    pub character: char,
}

/// The characters that separate tokens and yield none: the blank and the newline.
pub open spec fn is_space(c: char) -> bool {
    c == ' ' || c == '\n'
}

pub open spec fn is_digit(c: char) -> bool {
    '0' <= c <= '9'
}

/// The characters that a number is made of after its first: digits, the decimal point and
/// the separator.
pub open spec fn is_number_char(c: char) -> bool {
    is_digit(c) || c == '.' || c == '_'
}

/// The characters that the lexer accepts.
pub open spec fn is_accepted(c: char) -> bool {
    is_space(c) || is_number_char(c) || Operator::of_symbol(c) is Some || c == '(' || c == ')'
}

/// A minus sign after these tokens subtracts: the last token is a number or a closing
/// parenthesis. Anywhere else it opens a negative number.
pub open spec fn minus_is_binary(tokens: Seq<Token>) -> bool {
    tokens.len() > 0 && (tokens.last().kind is Number || tokens.last().kind is CloseParen)
}

/// A number character at offset `i` carries on the number before it: the last token is a
/// number that ends exactly there.
pub open spec fn continues_number(tokens: Seq<Token>, i: usize) -> bool {
    tokens.len() > 0 && tokens.last().kind is Number && tokens.last().end == i
}

pub open spec fn one_char(kind: TokenKind, i: usize) -> Token {
    Token { kind, start: i, end: (i + 1) as usize }
}

/// The tokens after the character `c` at offset `i` has been read, given those before it.
pub open spec fn lex_step(tokens: Seq<Token>, i: usize, c: char) -> Result<Seq<Token>, LexError> {
    if is_space(c) {
        Ok(tokens)
    } else if c == '-' {
        if minus_is_binary(tokens) {
            Ok(tokens.push(one_char(TokenKind::Operator(Operator::Sub), i)))
        } else {
            Ok(tokens.push(one_char(TokenKind::Number, i)))
        }
    } else if Operator::of_symbol(c) is Some {
        Ok(tokens.push(one_char(TokenKind::Operator(Operator::of_symbol(c)->0), i)))
    } else if c == '(' {
        Ok(tokens.push(one_char(TokenKind::OpenParen, i)))
    } else if c == ')' {
        Ok(tokens.push(one_char(TokenKind::CloseParen, i)))
    } else if is_number_char(c) {
        if continues_number(tokens, i) {
            Ok(tokens.update(tokens.len() - 1, Token { end: (i + 1) as usize, ..tokens.last() }))
        } else {
            Ok(tokens.push(one_char(TokenKind::Number, i)))
        }
    } else {
        Err(LexError { position: i, character: c })
    }
}

/// The tokens of the first `n` characters of `s`, or the first character among them that the
/// lexer rejects.
pub open spec fn lex_prefix(s: Seq<char>, n: nat) -> Result<Seq<Token>, LexError>
    decreases n,
{
    if n == 0 {
        Ok(Seq::empty())
    } else {
        match lex_prefix(s, (n - 1) as nat) {
            Ok(tokens) => lex_step(tokens, (n - 1) as usize, s[n - 1]),
            Err(e) => Err(e),
        }
    }
}

/// The tokens of `s`, or the first character that the lexer rejects.
pub open spec fn lex(s: Seq<char>) -> Result<Seq<Token>, LexError> {
    lex_prefix(s, s.len())
}

/// Once a character has been rejected, reading on changes nothing.
proof fn lemma_lex_error_stays(s: Seq<char>, n: nat, m: nat)
    requires
        n <= m,
        lex_prefix(s, n) is Err,
    ensures
        lex_prefix(s, m) == lex_prefix(s, n),
    decreases m,
{
    if n < m {
        lemma_lex_error_stays(s, n, (m - 1) as nat);
    }
}

proof fn lemma_lex_prefix_rejects_first(s: Seq<char>, n: nat)
    requires
        n <= s.len(),
        s.len() <= usize::MAX,
    ensures
        match lex_prefix(s, n) {
            Ok(_) => forall|j: int| 0 <= j < n ==> is_accepted(#[trigger] s[j]),
            Err(e) => {
                &&& e.position < n
                &&& e.character == s[e.position as int]
                &&& !is_accepted(e.character)
                &&& forall|j: int| 0 <= j < e.position ==> is_accepted(#[trigger] s[j])
            },
        },
    decreases n,
{
    if n > 0 {
        lemma_lex_prefix_rejects_first(s, (n - 1) as nat);
    }
}

/// The token `t` matches the text under its span: a number covers an optional minus sign and
/// then number characters only; any other token covers the one character that spells it.
pub open spec fn token_fits(s: Seq<char>, t: Token) -> bool {
    &&& t.start < t.end <= s.len()
    &&& match t.kind {
        TokenKind::Number => {
            &&& s[t.start as int] == '-' || is_number_char(s[t.start as int])
            &&& forall|j: int| t.start < j < t.end ==> is_number_char(#[trigger] s[j])
        },
        TokenKind::Operator(op) => {
            &&& t.end == t.start + 1
            &&& Operator::of_symbol(s[t.start as int]) == Some(op)
        },
        TokenKind::OpenParen => t.end == t.start + 1 && s[t.start as int] == '(',
        TokenKind::CloseParen => t.end == t.start + 1 && s[t.start as int] == ')',
    }
}

/// A number token is as long as it can be: no number character follows it directly.
pub open spec fn number_is_maximal(s: Seq<char>, t: Token, n: nat) -> bool {
    t.kind is Number && t.end < n ==> !is_number_char(s[t.end as int])
}

/// Where the token at place `k` begins with a minus sign, it is the operator exactly when a
/// number or a closing parenthesis stands before it.
pub open spec fn minus_is_placed(s: Seq<char>, tokens: Seq<Token>, k: int) -> bool {
    s[tokens[k].start as int] == '-' ==> (tokens[k].kind is Operator <==> minus_is_binary(
        tokens.take(k),
    ))
}

/// The offset `j` lies under the span of one of the tokens.
pub open spec fn covered(tokens: Seq<Token>, j: int) -> bool {
    exists|k: int| 0 <= k < tokens.len() && (#[trigger] tokens[k]).start <= j < tokens[k].end
}

/// What holds of the tokens of the first `n` characters of `s`: each matches the text under
/// its span, a minus sign is read by what stands before it, the tokens follow one another
/// without overlap, every number is as long as it can be, and what lies under no token is
/// white space.
pub open spec fn tokens_fit(s: Seq<char>, tokens: Seq<Token>, n: nat) -> bool {
    &&& forall|k: int| 0 <= k < tokens.len() ==> token_fits(s, #[trigger] tokens[k])
    &&& forall|k: int| 0 <= k < tokens.len() ==> #[trigger] minus_is_placed(s, tokens, k)
    &&& forall|k: int| 0 <= k < tokens.len() ==> (#[trigger] tokens[k]).end <= n
    &&& forall|k: int, l: int|
        0 <= k < l < tokens.len() ==> (#[trigger] tokens[k]).end <= (#[trigger] tokens[l]).start
    &&& forall|k: int| 0 <= k < tokens.len() ==> number_is_maximal(s, #[trigger] tokens[k], n)
    &&& forall|j: int| 0 <= j < n && !covered(tokens, j) ==> is_space(#[trigger] s[j])
}

proof fn lemma_fit_space(s: Seq<char>, tokens: Seq<Token>, n: nat)
    requires
        1 <= n <= s.len(),
        tokens_fit(s, tokens, (n - 1) as nat),
        is_space(s[n - 1]),
    ensures
        tokens_fit(s, tokens, n),
{
    assert forall|k: int| 0 <= k < tokens.len() implies number_is_maximal(
        s,
        #[trigger] tokens[k],
        n,
    ) by {
        assert(number_is_maximal(s, tokens[k], (n - 1) as nat));
    }
}

proof fn lemma_fit_extend(s: Seq<char>, prior: Seq<Token>, n: nat)
    requires
        1 <= n <= s.len() <= usize::MAX,
        tokens_fit(s, prior, (n - 1) as nat),
        continues_number(prior, (n - 1) as usize),
        is_number_char(s[n - 1]),
    ensures
        tokens_fit(
            s,
            prior.update(prior.len() - 1, Token { end: n as usize, ..prior.last() }),
            n,
        ),
{
    let last = prior.len() - 1;
    let next = prior.update(last, Token { end: n as usize, ..prior.last() });
    assert(token_fits(s, prior[last]));
    assert forall|k: int| 0 <= k < next.len() implies token_fits(s, #[trigger] next[k]) by {
        if k < last {
            assert(token_fits(s, prior[k]));
        }
    }
    assert forall|k: int| 0 <= k < next.len() implies #[trigger] minus_is_placed(s, next, k) by {
        assert(minus_is_placed(s, prior, k));
        assert(next.take(k) == prior.take(k));
    }
    assert forall|k: int, l: int| 0 <= k < l < next.len() implies (#[trigger] next[k]).end <= (
    #[trigger] next[l]).start by {
        assert(prior[k].end <= prior[l].start);
    }
    assert forall|k: int| 0 <= k < next.len() implies number_is_maximal(
        s,
        #[trigger] next[k],
        n,
    ) by {
        if k < last {
            assert(number_is_maximal(s, prior[k], (n - 1) as nat));
            assert(prior[k].end <= prior[last].start);
        }
    }
    assert forall|j: int| 0 <= j < n && !covered(next, j) implies is_space(#[trigger] s[j]) by {
        if j < n - 1 {
            if covered(prior, j) {
                let k = choose|k: int|
                    0 <= k < prior.len() && (#[trigger] prior[k]).start <= j < prior[k].end;
                assert(next[k].start <= j < next[k].end);
            }
        } else {
            assert(next[last].start <= j < next[last].end);
        }
    }
}

proof fn lemma_fit_push(s: Seq<char>, prior: Seq<Token>, t: Token, n: nat)
    requires
        1 <= n <= s.len() <= usize::MAX,
        tokens_fit(s, prior, (n - 1) as nat),
        token_fits(s, t),
        t.start == n - 1,
        t.end == n,
        is_number_char(s[n - 1]) ==> !continues_number(prior, (n - 1) as usize),
        s[n - 1] == '-' ==> (t.kind is Operator <==> minus_is_binary(prior)),
    ensures
        tokens_fit(s, prior.push(t), n),
{
    let next = prior.push(t);
    assert forall|k: int| 0 <= k < next.len() implies #[trigger] minus_is_placed(s, next, k) by {
        if k < prior.len() {
            assert(minus_is_placed(s, prior, k));
            assert(next.take(k) == prior.take(k));
        } else {
            assert(next.take(k) == prior);
        }
    }
    assert forall|k: int| 0 <= k < next.len() implies token_fits(s, #[trigger] next[k]) by {
        if k < prior.len() {
            assert(token_fits(s, prior[k]));
        }
    }
    assert forall|k: int, l: int| 0 <= k < l < next.len() implies (#[trigger] next[k]).end <= (
    #[trigger] next[l]).start by {
        if l < prior.len() {
            assert(prior[k].end <= prior[l].start);
        } else {
            assert(prior[k].end <= n - 1);
        }
    }
    assert forall|k: int| 0 <= k < next.len() implies number_is_maximal(
        s,
        #[trigger] next[k],
        n,
    ) by {
        if k < prior.len() {
            assert(number_is_maximal(s, prior[k], (n - 1) as nat));
            assert(prior[k].end <= n - 1);
            if k < prior.len() - 1 {
                assert(prior[k].end <= prior[prior.len() - 1].start);
                assert(token_fits(s, prior[prior.len() - 1]));
            }
        }
    }
    assert forall|j: int| 0 <= j < n && !covered(next, j) implies is_space(#[trigger] s[j]) by {
        if j < n - 1 {
            if covered(prior, j) {
                let k = choose|k: int|
                    0 <= k < prior.len() && (#[trigger] prior[k]).start <= j < prior[k].end;
                assert(next[k].start <= j < next[k].end);
            }
        } else {
            assert(next[prior.len() as int].start <= j < next[prior.len() as int].end);
        }
    }
}

proof fn lemma_lex_prefix_fits(s: Seq<char>, n: nat)
    requires
        n <= s.len(),
        s.len() <= usize::MAX,
    ensures
        lex_prefix(s, n) matches Ok(tokens) ==> tokens_fit(s, tokens, n),
    decreases n,
{
    if n > 0 {
        let i = (n - 1) as nat;
        lemma_lex_prefix_fits(s, i);
        if let Ok(prior) = lex_prefix(s, i) {
            if let Ok(next) = lex_prefix(s, n) {
                let c = s[i as int];
                assert(lex_step(prior, i as usize, c) == Ok::<Seq<Token>, LexError>(next));
                if is_space(c) {
                    lemma_fit_space(s, prior, n);
                } else if c != '-' && Operator::of_symbol(c) is None && c != '(' && c != ')'
                    && continues_number(prior, i as usize) {
                    lemma_fit_extend(s, prior, n);
                } else {
                    let kind = if c == '-' {
                        if minus_is_binary(prior) {
                            TokenKind::Operator(Operator::Sub)
                        } else {
                            TokenKind::Number
                        }
                    } else if Operator::of_symbol(c) is Some {
                        TokenKind::Operator(Operator::of_symbol(c)->0)
                    } else if c == '(' {
                        TokenKind::OpenParen
                    } else if c == ')' {
                        TokenKind::CloseParen
                    } else {
                        TokenKind::Number
                    };
                    let t = one_char(kind, i as usize);
                    assert(next == prior.push(t));
                    assert(token_fits(s, t));
                    lemma_fit_push(s, prior, t, n);
                }
            }
        }
    }
}

/// The lexer fails exactly on a text with a character that it does not accept, and reports the
/// first such character.
pub proof fn lemma_lex_rejects_first(s: Seq<char>)
    requires
        s.len() <= usize::MAX,
    ensures
        match lex(s) {
            Ok(_) => forall|j: int| 0 <= j < s.len() ==> is_accepted(#[trigger] s[j]),
            Err(e) => {
                &&& e.position < s.len()
                &&& e.character == s[e.position as int]
                &&& !is_accepted(e.character)
                &&& forall|j: int| 0 <= j < e.position ==> is_accepted(#[trigger] s[j])
            },
        },
{
    lemma_lex_prefix_rejects_first(s, s.len());
}

/// The tokens that the lexer emits fit the text: each matches the text under its span, they
/// follow one another without overlap, every number is as long as it can be, and what lies
/// under no token is white space.
pub proof fn lemma_lex_tokens_fit(s: Seq<char>)
    requires
        s.len() <= usize::MAX,
    ensures
        lex(s) matches Ok(tokens) ==> tokens_fit(s, tokens, s.len()),
{
    lemma_lex_prefix_fits(s, s.len());
}

/// Where the tokens before place `k` end: at the end of the last of them, or at the start of
/// the text.
spec fn end_before(tokens: Seq<Token>, k: int) -> int {
    if k == 0 {
        0
    } else {
        tokens[k - 1].end as int
    }
}

/// Between two tokens that fit the text lies white space only.
proof fn lemma_gap_is_space(s: Seq<char>, tokens: Seq<Token>, k: int, j: int)
    requires
        tokens_fit(s, tokens, s.len()),
        0 <= k < tokens.len(),
        end_before(tokens, k) <= j < tokens[k].start,
    ensures
        is_space(s[j]),
{
    assert(token_fits(s, tokens[k]));
    assert forall|l: int| 0 <= l < tokens.len() implies !((#[trigger] tokens[l]).start <= j
        < tokens[l].end) by {
        if l < k {
            if l < k - 1 {
                assert(tokens[l].end <= tokens[k - 1].start);
                assert(token_fits(s, tokens[k - 1]));
            }
        } else if l > k {
            assert(tokens[k].end <= tokens[l].start);
        }
    }
}

/// Two token sequences that fit the text and agree on their first `k` tokens agree on the
/// next one.
proof fn lemma_next_token_agrees(s: Seq<char>, a: Seq<Token>, b: Seq<Token>, k: int)
    requires
        tokens_fit(s, a, s.len()),
        tokens_fit(s, b, s.len()),
        0 <= k < a.len(),
        k <= b.len(),
        a.take(k) == b.take(k),
    ensures
        k < b.len(),
        a[k] == b[k],
{
    let p = a[k].start as int;
    assert(token_fits(s, a[k]));
    assert(end_before(a, k) == end_before(b, k)) by {
        if k > 0 {
            assert(a.take(k)[k - 1] == a[k - 1]);
            assert(b.take(k)[k - 1] == b[k - 1]);
        }
    }
    assert(end_before(a, k) <= p) by {
        if k > 0 {
            assert(a[k - 1].end <= a[k].start);
        }
    }
    // The first character of the token is no white space, so a token of `b` lies over it.
    assert(!is_space(s[p]));
    assert(covered(b, p));
    let l = choose|l: int| 0 <= l < b.len() && (#[trigger] b[l]).start <= p < b[l].end;
    if l < k {
        assert(b.take(k)[l] == b[l]);
        assert(a.take(k)[l] == a[l]);
        if l < k - 1 {
            assert(a[l].end <= a[k - 1].start);
            assert(token_fits(s, a[k - 1]));
        }
    }
    assert(k < b.len());
    assert(token_fits(s, b[k]));
    let q = b[k].start as int;
    assert(end_before(b, k) <= q) by {
        if k > 0 {
            assert(b[k - 1].end <= b[k].start);
        }
    }
    // Both tokens start at the first character after the gap.
    if p < q {
        lemma_gap_is_space(s, b, k, p);
    } else if q < p {
        lemma_gap_is_space(s, a, k, q);
    }
    assert(p == q);
    // The character and what stands before it decide the kind.
    assert(minus_is_placed(s, a, k));
    assert(minus_is_placed(s, b, k));
    assert(a[k].kind == b[k].kind);
    // A number ends where the number characters end.
    assert(number_is_maximal(s, a[k], s.len()));
    assert(number_is_maximal(s, b[k], s.len()));
    if a[k].end < b[k].end {
        assert(is_number_char(s[a[k].end as int]));
    } else if b[k].end < a[k].end {
        assert(is_number_char(s[b[k].end as int]));
    }
}

proof fn lemma_fit_prefix_agrees(s: Seq<char>, a: Seq<Token>, b: Seq<Token>, k: int)
    requires
        tokens_fit(s, a, s.len()),
        tokens_fit(s, b, s.len()),
        0 <= k <= a.len(),
    ensures
        k <= b.len(),
        a.take(k) == b.take(k),
    decreases k,
{
    if k > 0 {
        lemma_fit_prefix_agrees(s, a, b, k - 1);
        lemma_next_token_agrees(s, a, b, k - 1);
        assert(a.take(k) == a.take(k - 1).push(a[k - 1]));
        assert(b.take(k) == b.take(k - 1).push(b[k - 1]));
    }
}

/// A text has one sequence of tokens that fits it.
pub proof fn lemma_fit_is_unique(s: Seq<char>, a: Seq<Token>, b: Seq<Token>)
    requires
        tokens_fit(s, a, s.len()),
        tokens_fit(s, b, s.len()),
    ensures
        a == b,
{
    lemma_fit_prefix_agrees(s, a, b, a.len() as int);
    lemma_fit_prefix_agrees(s, b, a, b.len() as int);
    assert(a.take(a.len() as int) == a);
    assert(b.take(a.len() as int) == b);
}

/// So the tokens of a text that the lexer accepts are the tokens that fit it, and no more
/// needs to be known of the lexer to know what it returns.
pub proof fn lemma_lex_is_what_fits(s: Seq<char>, tokens: Seq<Token>)
    requires
        s.len() <= usize::MAX,
        forall|j: int| 0 <= j < s.len() ==> is_accepted(#[trigger] s[j]),
        tokens_fit(s, tokens, s.len()),
    ensures
        lex(s) == Ok::<Seq<Token>, LexError>(tokens),
{
    lemma_lex_rejects_first(s);
    lemma_lex_tokens_fit(s);
    lemma_fit_is_unique(s, lex(s)->Ok_0, tokens);
}

/// The text under a number token, read on its own, is that one number token again.
pub proof fn lemma_number_lexes_alone(s: Seq<char>, k: int)
    requires
        s.len() <= usize::MAX,
        lex(s) is Ok,
        0 <= k < lex(s)->Ok_0.len(),
        lex(s)->Ok_0[k].kind is Number,
    ensures
        ({
            let t = lex(s)->Ok_0[k];
            let text = s.subrange(t.start as int, t.end as int);
            lex(text) == Ok::<Seq<Token>, LexError>(
                seq![Token { kind: TokenKind::Number, start: 0, end: text.len() as usize }],
            )
        }),
{
    lemma_lex_tokens_fit(s);
    let t = lex(s)->Ok_0[k];
    assert(token_fits(s, t));
    let text = s.subrange(t.start as int, t.end as int);
    lemma_number_alone(text, text.len());
}

proof fn lemma_number_alone(text: Seq<char>, n: nat)
    requires
        1 <= n <= text.len() <= usize::MAX,
        text[0] == '-' || is_number_char(text[0]),
        forall|j: int| 0 < j < text.len() ==> is_number_char(#[trigger] text[j]),
    ensures
        lex_prefix(text, n) == Ok::<Seq<Token>, LexError>(
            seq![Token { kind: TokenKind::Number, start: 0, end: n as usize }],
        ),
    decreases n,
{
    if n == 1 {
        assert(lex_prefix(text, 0) == Ok::<Seq<Token>, LexError>(Seq::empty()));
        assert(Seq::<Token>::empty().push(one_char(TokenKind::Number, 0)) == seq![
            Token { kind: TokenKind::Number, start: 0, end: 1 },
        ]);
    } else {
        lemma_number_alone(text, (n - 1) as nat);
        let before = seq![Token { kind: TokenKind::Number, start: 0, end: (n - 1) as usize }];
        assert(is_number_char(text[n - 1]));
        assert(continues_number(before, (n - 1) as usize));
        assert(before.update(0, Token { end: n as usize, ..before.last() }) == seq![
            Token { kind: TokenKind::Number, start: 0, end: n as usize },
        ]);
    }
}

/// Tells whether `c` can stand inside a number.
pub fn guard_integer(c: char) -> (r: bool)
    ensures
        r == is_number_char(c),
{
    ('0' <= c && c <= '9') || c == '.' || c == '_'
}

/// Reads a number character at offset `i`: lengthens the number that ends there by one
/// character and returns `None`, or, where no number ends there, leaves the tokens as they are
/// and returns the kind of the token to open.
pub fn tokenize_num(accumulator: &mut Vec<Token>, i: usize) -> (r: Option<TokenKind>)
    requires
        i < usize::MAX,
    ensures
        continues_number(old(accumulator)@, i) ==> {
            &&& r is None
            &&& final(accumulator)@ == old(accumulator)@.update(
                old(accumulator)@.len() - 1,
                Token { end: (i + 1) as usize, ..old(accumulator)@.last() },
            )
        },
        !continues_number(old(accumulator)@, i) ==> {
            &&& r == Some(TokenKind::Number)
            &&& final(accumulator)@ == old(accumulator)@
        },
{
    let n = accumulator.len();
    if n > 0 {
        let last = accumulator[n - 1];
        if let TokenKind::Number = last.kind {
            if last.end == i {
                accumulator.set(n - 1, Token::new(last.start, i + 1, TokenKind::Number));
                return None;
            }
        }
    }
    Some(TokenKind::Number)
}

/// Reads the character `c` at offset `i` into the tokens read so far.
pub fn push_char(accumulator: Vec<Token>, i: usize, c: char) -> (r: Result<Vec<Token>, LexError>)
    requires
        i < usize::MAX,
    ensures
        match r {
            Ok(tokens) => lex_step(accumulator@, i, c) == Ok::<Seq<Token>, LexError>(tokens@),
            Err(e) => lex_step(accumulator@, i, c) == Err::<Seq<Token>, LexError>(e),
        },
{
    let mut accumulator = accumulator;
    let token = if c == ' ' || c == '\n' {
        None
    } else if c == '-' {
        let n = accumulator.len();
        if n == 0 {
            Some(TokenKind::Number)
        } else {
            match accumulator[n - 1].kind {
                TokenKind::Number | TokenKind::CloseParen => Some(
                    TokenKind::Operator(Operator::Sub),
                ),
                _ => Some(TokenKind::Number),
            }
        }
    } else if let Some(op) = Operator::from_symbol(c) {
        Some(TokenKind::Operator(op))
    } else if c == '(' {
        Some(TokenKind::OpenParen)
    } else if c == ')' {
        Some(TokenKind::CloseParen)
    } else if guard_integer(c) {
        tokenize_num(&mut accumulator, i)
    } else {
        return Err(LexError { position: i, character: c });
    };
    if let Some(kind) = token {
        accumulator.push(Token::new(i, i + 1, kind));
    }
    Ok(accumulator)
}

/// Cuts `text` into tokens, or reports the first character that no token can hold.
pub fn tokenize(text: &str) -> (r: Result<Vec<Token>, LexError>)
    ensures
        match r {
            Ok(tokens) => {
                &&& lex(text@) == Ok::<Seq<Token>, LexError>(tokens@)
                &&& forall|j: int| 0 <= j < text@.len() ==> is_accepted(#[trigger] text@[j])
                &&& tokens_fit(text@, tokens@, text@.len())
            },
            Err(e) => {
                &&& lex(text@) == Err::<Seq<Token>, LexError>(e)
                &&& e.position < text@.len()
                &&& e.character == text@[e.position as int]
                &&& !is_accepted(e.character)
                &&& forall|j: int| 0 <= j < e.position ==> is_accepted(#[trigger] text@[j])
            },
        },
{
    let chars = chars_of(text);
    let n = chars.len();
    let mut tokens: Vec<Token> = Vec::new();
    let mut i: usize = 0;
    while i < n
        invariant
            n == text@.len(),
            chars@ == text@,
            i <= n,
            lex_prefix(text@, i as nat) == Ok::<Seq<Token>, LexError>(tokens@),
        decreases n - i,
    {
        let c = chars[i];
        match push_char(tokens, i, c) {
            Ok(next) => {
                tokens = next;
            },
            Err(e) => {
                proof {
                    lemma_lex_error_stays(text@, (i + 1) as nat, n as nat);
                    lemma_lex_rejects_first(text@);
                }
                return Err(e);
            },
        }
        i += 1;
    }
    proof {
        lemma_lex_rejects_first(text@);
        lemma_lex_tokens_fit(text@);
    }
    Ok(tokens)
}

} // verus!
