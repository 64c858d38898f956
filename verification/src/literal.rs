//! Number literals: from the text of a number token to an exact decimal.
//!
//! A literal is an optional minus sign, then digits with at most one decimal point among them
//! and at least one digit. Separators may stand anywhere and are dropped before anything else.

use crate::lexer::{
    is_digit, lemma_lex_tokens_fit, lemma_number_lexes_alone, lex, token_fits, LexError,
};
use crate::text::chars_of;
use crate::token::{Token, TokenKind};
use vstd::prelude::*;

verus! {

/// An exact decimal number: the digits `digits`, the last `scale` of them behind the
/// decimal point, negated where `negative` is set.
#[derive(Clone, Debug, PartialEq, Eq)]
pub struct Decimal {
    pub negative: bool,
    pub digits: Vec<u8>,
    pub scale: usize,
}

/// The mathematical content of a `Decimal`.
pub struct DecimalView {
    pub negative: bool,
    pub digits: Seq<u8>,
    pub scale: nat,
}

impl DecimalView {
    /// At least one digit, each below ten, and no more behind the point than there are.
    pub open spec fn wf(self) -> bool {
        &&& self.digits.len() >= 1
        &&& self.scale <= self.digits.len()
        &&& forall|i: int| 0 <= i < self.digits.len() ==> #[trigger] self.digits[i] <= 9
    }
}

impl View for Decimal {
    type V = DecimalView;

    open spec fn view(&self) -> DecimalView {
        DecimalView { negative: self.negative, digits: self.digits@, scale: self.scale as nat }
    }
}

/// The text without its separators.
pub open spec fn strip(w: Seq<char>) -> Seq<char> {
    w.filter(|c: char| c != '_')
}

/// The stripped text opens with a minus sign.
pub open spec fn has_sign(b: Seq<char>) -> bool {
    b.len() > 0 && b[0] == '-'
}

/// The stripped text without its sign.
pub open spec fn magnitude(b: Seq<char>) -> Seq<char> {
    if has_sign(b) {
        b.skip(1)
    } else {
        b
    }
}

/// The digits of `m`, as characters.
pub open spec fn digits_in(m: Seq<char>) -> Seq<char> {
    m.filter(|c: char| is_digit(c))
}

/// Every character of `m` is a digit or a decimal point.
pub open spec fn only_digits_and_points(m: Seq<char>) -> bool {
    forall|i: int| 0 <= i < m.len() ==> is_digit(#[trigger] m[i]) || m[i] == '.'
}

/// `m` holds at most one decimal point.
pub open spec fn at_most_one_point(m: Seq<char>) -> bool {
    forall|i: int, j: int|
        #![trigger m[i], m[j]]
        0 <= i < j < m.len() ==> !(m[i] == '.' && m[j] == '.')
}

/// `m` is made of digits and at most one decimal point, and has a digit.
pub open spec fn is_decimal(m: Seq<char>) -> bool {
    &&& only_digits_and_points(m)
    &&& at_most_one_point(m)
    &&& digits_in(m).len() >= 1
}

pub open spec fn digit_value(c: char) -> u8 {
    (c as int - '0' as int) as u8
}

/// The number of characters of `m` behind its decimal point; 0 where it has none.
pub open spec fn scale_of(m: Seq<char>) -> nat {
    if m.contains('.') {
        (m.len() - 1 - m.index_of('.')) as nat
    } else {
        0
    }
}

/// The decimal that the text `w` spells, if it spells one.
pub open spec fn decimal_of(w: Seq<char>) -> Option<DecimalView> {
    let m = magnitude(strip(w));
    if is_decimal(m) {
        Some(
            DecimalView {
                negative: has_sign(strip(w)),
                digits: digits_in(m).map_values(|c: char| digit_value(c)),
                scale: scale_of(m),
            },
        )
    } else {
        None
    }
}

/// The span of `t` lies inside a text of `len` characters.
pub open spec fn span_in(t: Token, len: nat) -> bool {
    t.start <= t.end <= len
}

/// The decimal that the span of `t` spells in `source`. A span that reaches outside the text
/// spells none.
pub open spec fn literal_at(source: Seq<char>, t: Token) -> Option<DecimalView> {
    if span_in(t, source.len()) {
        decimal_of(source.subrange(t.start as int, t.end as int))
    } else {
        None
    }
}

proof fn lemma_filter_push(s: Seq<char>, c: char, pred: spec_fn(char) -> bool)
    ensures
        s.push(c).filter(pred) == if pred(c) {
            s.filter(pred).push(c)
        } else {
            s.filter(pred)
        },
{
    reveal(Seq::filter);
    assert(s.push(c).drop_last() == s);
}

proof fn lemma_magnitude_push(b: Seq<char>, c: char)
    ensures
        has_sign(b.push(c)) == if b.len() == 0 {
            c == '-'
        } else {
            has_sign(b)
        },
        magnitude(b.push(c)) == if b.len() == 0 {
            if c == '-' {
                Seq::<char>::empty()
            } else {
                seq![c]
            }
        } else {
            magnitude(b).push(c)
        },
{
    if b.len() == 0 {
        if c == '-' {
            assert(b.push(c).skip(1) == Seq::<char>::empty());
        } else {
            assert(b.push(c) == seq![c]);
        }
    } else if has_sign(b) {
        assert(b.push(c).skip(1) == b.skip(1).push(c));
    }
}

proof fn lemma_digits_push(m: Seq<char>, c: char)
    ensures
        digits_in(m.push(c)).map_values(|c: char| digit_value(c)) == if is_digit(c) {
            digits_in(m).map_values(|c: char| digit_value(c)).push(digit_value(c))
        } else {
            digits_in(m).map_values(|c: char| digit_value(c))
        },
{
    lemma_filter_push(m, c, |c: char| is_digit(c));
    if is_digit(c) {
        assert(digits_in(m).push(c).map_values(|c: char| digit_value(c)) == digits_in(
            m,
        ).map_values(|c: char| digit_value(c)).push(digit_value(c)));
    }
}

proof fn lemma_shape_push(m: Seq<char>, c: char)
    ensures
        only_digits_and_points(m.push(c)) == (only_digits_and_points(m) && (is_digit(c) || c
            == '.')),
        at_most_one_point(m.push(c)) == (at_most_one_point(m) && !(c == '.' && m.contains('.'))),
        m.push(c).contains('.') == (m.contains('.') || c == '.'),
        at_most_one_point(m.push(c)) && m.contains('.') ==> m.push(c).index_of('.') == m.index_of(
            '.',
        ),
        !m.contains('.') && c == '.' ==> m.push(c).index_of('.') == m.len(),
{
    let p = m.push(c);
    if only_digits_and_points(p) {
        assert forall|i: int| 0 <= i < m.len() implies is_digit(#[trigger] m[i]) || m[i]
            == '.' by {
            assert(p[i] == m[i]);
        }
        assert(is_digit(p[m.len() as int]) || p[m.len() as int] == '.');
    }
    if at_most_one_point(p) {
        assert forall|i: int, j: int|
            #![trigger m[i], m[j]]
            0 <= i < j < m.len() implies !(m[i] == '.' && m[j] == '.') by {
            assert(p[i] == m[i] && p[j] == m[j]);
        }
        if c == '.' && m.contains('.') {
            let i = m.index_of('.');
            assert(p[i] == '.' && p[m.len() as int] == '.');
        }
    }
    if m.contains('.') {
        let i = m.index_of('.');
        assert(p[i] == '.');
        if at_most_one_point(p) {
            let k = p.index_of('.');
            assert(p[k] == '.');
            if k < i {
                assert(!(p[k] == '.' && p[i] == '.'));
            } else if i < k {
                assert(!(p[i] == '.' && p[k] == '.'));
            }
        }
    } else if c == '.' {
        assert(p[m.len() as int] == '.');
        let k = p.index_of('.');
        assert(p[k] == '.');
        if k < m.len() {
            assert(m[k] == '.');
        }
    }
    if p.contains('.') {
        let k = p.index_of('.');
        if k < m.len() {
            assert(m[k] == '.');
        }
    }
}

proof fn lemma_digit_count(m: Seq<char>)
    requires
        only_digits_and_points(m),
        at_most_one_point(m),
    ensures
        digits_in(m).len() == m.len() - if m.contains('.') {
            1int
        } else {
            0int
        },
    decreases m.len(),
{
    if m.len() == 0 {
        reveal(Seq::filter);
    } else {
        let h = m.drop_last();
        let c = m.last();
        assert(m == h.push(c));
        lemma_shape_push(h, c);
        lemma_filter_push(h, c, |c: char| is_digit(c));
        lemma_digit_count(h);
    }
}

/// What a text spells is a well-formed decimal.
pub proof fn lemma_decimal_wf(w: Seq<char>)
    ensures
        decimal_of(w) matches Some(d) ==> d.wf(),
{
    if let Some(d) = decimal_of(w) {
        let m = magnitude(strip(w));
        lemma_digit_count(m);
        assert forall|i: int| 0 <= i < d.digits.len() implies #[trigger] d.digits[i] <= 9 by {
            m.lemma_filter_pred(|c: char| is_digit(c), i);
        }
        if m.contains('.') {
            let p = m.index_of('.');
            assert(0 <= p < m.len());
        }
    }
}

/// Reading a number twice gives the same number: the text under a number token, cut into
/// tokens on its own, is one number token over all of it, and that token spells there the
/// decimal that the first one spells in the whole text.
pub proof fn lemma_number_reads_back(s: Seq<char>, k: int)
    requires
        s.len() <= usize::MAX,
        lex(s) is Ok,
        0 <= k < lex(s)->Ok_0.len(),
        lex(s)->Ok_0[k].kind is Number,
    ensures
        ({
            let t = lex(s)->Ok_0[k];
            let text = s.subrange(t.start as int, t.end as int);
            let alone = Token { kind: TokenKind::Number, start: 0, end: text.len() as usize };
            &&& lex(text) == Ok::<Seq<Token>, LexError>(seq![alone])
            &&& literal_at(text, alone) == literal_at(s, t)
        }),
{
    lemma_number_lexes_alone(s, k);
    lemma_lex_tokens_fit(s);
    let t = lex(s)->Ok_0[k];
    assert(token_fits(s, t));
    let text = s.subrange(t.start as int, t.end as int);
    assert(text.subrange(0, text.len() as int) == text);
}

fn digit_of(c: char) -> (d: u8)
    requires
        is_digit(c),
    ensures
        d == digit_value(c),
        d <= 9,
{
    (c as u8) - 48
}

/// Reads the number that the span of `toke` spells in `data`. Returns `None` where the span
/// reaches outside the text or spells no decimal.
pub fn to_decimal(data: &str, toke: &Token) -> (r: Option<Decimal>)
    ensures
        match r {
            Some(d) => literal_at(data@, *toke) == Some(d@) && d@.wf(),
            None => literal_at(data@, *toke) is None,
        },
{
    let chars = chars_of(data);
    decimal_in(chars.as_slice(), toke)
}

/// Reads the number that the span of `toke` spells in the characters `data`.
pub fn decimal_in(data: &[char], toke: &Token) -> (r: Option<Decimal>)
    ensures
        match r {
            Some(d) => literal_at(data@, *toke) == Some(d@) && d@.wf(),
            None => literal_at(data@, *toke) is None,
        },
{
    let len = data.len();
    if !(toke.start <= toke.end && toke.end <= len) {
        return None;
    }
    let ghost w = data@.subrange(toke.start as int, toke.end as int);
    let mut j: usize = toke.start;
    let mut seen = false;
    let mut negative = false;
    let mut point = false;
    let mut shaped = true;
    let mut digits: Vec<u8> = Vec::new();
    let mut scale: usize = 0;
    proof {
        reveal(Seq::filter);
        assert(w.take(0) == Seq::<char>::empty());
    }
    while j < toke.end
        invariant
            toke.start <= j <= toke.end <= len,
            len == data@.len(),
            w == data@.subrange(toke.start as int, toke.end as int),
            seen == (strip(w.take(j - toke.start)).len() > 0),
            negative == has_sign(strip(w.take(j - toke.start))),
            point == magnitude(strip(w.take(j - toke.start))).contains('.'),
            shaped == (only_digits_and_points(magnitude(strip(w.take(j - toke.start))))
                && at_most_one_point(magnitude(strip(w.take(j - toke.start))))),
            digits@ == digits_in(magnitude(strip(w.take(j - toke.start)))).map_values(
                |c: char| digit_value(c),
            ),
            digits@.len() <= j - toke.start,
            scale <= j - toke.start,
            shaped ==> scale == scale_of(magnitude(strip(w.take(j - toke.start)))),
        decreases toke.end - j,
    {
        let c = data[j];
        let ghost before = w.take(j - toke.start);
        let ghost b = strip(before);
        let ghost m = magnitude(b);
        proof {
            assert(w.take(j - toke.start + 1) == before.push(c));
            lemma_filter_push(before, c, |c: char| c != '_');
        }
        if c != '_' {
            proof {
                lemma_magnitude_push(b, c);
            }
            if !seen && c == '-' {
                negative = true;
            } else {
                proof {
                    if seen {
                        lemma_shape_push(m, c);
                        lemma_digits_push(m, c);
                    } else {
                        lemma_shape_push(Seq::<char>::empty(), c);
                        lemma_digits_push(Seq::<char>::empty(), c);
                        assert(Seq::<char>::empty().push(c) == seq![c]);
                    }
                }
                if '0' <= c && c <= '9' {
                    digits.push(digit_of(c));
                    if point {
                        scale += 1;
                    }
                } else if c == '.' {
                    if point {
                        shaped = false;
                    }
                    point = true;
                } else {
                    shaped = false;
                }
            }
            seen = true;
        }
        j += 1;
    }
    proof {
        assert(w.take(toke.end - toke.start) == w);
        lemma_decimal_wf(w);
    }
    if shaped && digits.len() > 0 {
        Some(Decimal { negative, digits, scale })
    } else {
        None
    }
}

} // verus!
