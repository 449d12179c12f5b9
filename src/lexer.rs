use vstd::prelude::*;

use crate::expr::{parse_decimal, ExprBinary, decimal_value, is_decimal, is_digit, is_operator_char, op_of_char, Number, Op, Value};
use crate::token::{Token, TokenInfo};
use crate::utils::{extract_digit, extract_operator, extract_whitespace, extract_next_token, lemma_ascii_byte, lemma_span_bounds, next_token, span, CharClass};

verus! {

/// The texts of the tokens of `s`, in order, up to its end or to the first
/// character that starts no token.
pub open spec fn token_texts(s: Seq<char>) -> Seq<Seq<char>>
    decreases s.len(),
    via lemma_next_token_shorter
{
    let (t, rest) = next_token(s);
    if t.len() == 0 {
        seq![]
    } else {
        seq![t] + token_texts(rest)
    }
}

#[via_fn]
proof fn lemma_next_token_shorter(s: Seq<char>) {
    lemma_next_token(s);
}

/// A token text and what follows it make up the rest of the input after
/// the spaces; a digit token is a run of digits, any other an operator.
pub proof fn lemma_next_token(s: Seq<char>)
    ensures
        next_token(s).0.len() > 0 ==> next_token(s).1.len() < s.len(),
        next_token(s).0.len() > 0 && is_digit(next_token(s).0[0]) ==> is_decimal(next_token(s).0),
        next_token(s).0.len() > 0 && !is_digit(next_token(s).0[0]) ==> next_token(s).0.len() == 1
            && is_operator_char(next_token(s).0[0]),
{
    lemma_span_bounds(s, CharClass::Space);
    let t = s.skip(span(s, CharClass::Space) as int);
    lemma_span_bounds(t, CharClass::Digit);
}

/// What the `i`-th of the token texts `texts` stands for: a number, or an
/// operator; a `-` is a negation at the start or after another operator,
/// and a subtraction after a number.
pub open spec fn info_of(texts: Seq<Seq<char>>, i: int) -> TokenInfo {
    let t = texts[i];
    if is_digit(t[0]) {
        TokenInfo::Value(Value::Number(Number(decimal_value(t) as i32)))
    } else if t[0] == '-' {
        if i == 0 || !is_digit(texts[i - 1][0]) {
            TokenInfo::Op(Op::Neg)
        } else {
            TokenInfo::Op(Op::Sub)
        }
    } else {
        TokenInfo::Op(op_of_char(t[0]))
    }
}

/// The tokens of `s`, all of priority 0.
pub open spec fn lexed(s: Seq<char>) -> Seq<Token> {
    let texts = token_texts(s);
    Seq::new(texts.len(), |i: int| Token { token_info: info_of(texts, i), priority: 0 })
}

/// Every number written in `s` fits in an `i32`.
pub open spec fn numbers_fit(s: Seq<char>) -> bool {
    let texts = token_texts(s);
    forall|i: int|
        0 <= i < texts.len() && is_digit(#[trigger] texts[i][0]) ==> decimal_value(texts[i])
            <= i32::MAX
}

/// Splits `s` into tokens: numbers, and operators, where a `-` is a
/// negation at the start or after another operator.
pub fn build_token_list(s: &str) -> (r: Vec<Token>)
    requires
        numbers_fit(s@),
    ensures
        r@ == lexed(s@),
{
    match try_build_token_list(s) {
        Some(token_list) => token_list,
        None => Vec::new(),
    }
}

/// Splits `s` into tokens as `build_token_list` does, or gives `None` where
/// a number does not fit in an `i32`.
pub fn try_build_token_list(s: &str) -> (r: Option<Vec<Token>>)
    ensures
        r is Some <==> numbers_fit(s@),
        r matches Some(token_list) ==> token_list@ == lexed(s@),
{
    let ghost texts = token_texts(s@);
    let mut token_list: Vec<Token> = Vec::new();
    let mut rest: &str = s;
    let mut done = false;
    let mut last_is_value = false;
    while !done
        invariant
            texts == token_texts(s@),
            forall|i: int|
                0 <= i < token_list@.len() && is_digit(#[trigger] texts[i][0]) ==> decimal_value(
                    texts[i],
                ) <= i32::MAX,
            done ==> token_list@.len() == texts.len(),
            !done ==> texts == texts.take(token_list@.len() as int) + token_texts(rest@),
            token_list@.len() <= texts.len(),
            token_list@.len() == 0 ==> !last_is_value,
            token_list@.len() > 0 ==> last_is_value == is_digit(texts[token_list@.len() - 1][0]),
            forall|i: int|
                0 <= i < token_list@.len() ==> #[trigger] token_list@[i] == (Token {
                    token_info: info_of(texts, i),
                    priority: 0,
                }),
        decreases rest@.len() + (if done { 0int } else { 1int }),
    {
        proof {
            lemma_next_token(rest@);
        }
        let (new, after) = extract_next_token(rest);
        let ghost k = token_list@.len() as int;
        let bytes = new.as_bytes();
        proof {
            assert(vstd::utf8::is_ascii_chars(new@));
            vstd::utf8::is_ascii_chars_encode_utf8(new@);
        }
        if bytes.len() == 0 {
            proof {
                assert(token_texts(rest@) =~= Seq::<Seq<char>>::empty());
                assert(texts =~= texts.take(k));
            }
            done = true;
        } else {
            proof {
                assert(token_texts(rest@) == seq![new@] + token_texts(after@));
                assert(texts[k] == new@);
                assert(texts.take(k + 1) + token_texts(after@) =~= texts);
            }
            let first = bytes[0];
            proof {
                lemma_ascii_byte(new@[0], first);
            }
            let token_info = if 48u8 <= first && first <= 57u8 {
                proof {
                    assert(is_digit(texts[k][0]));
                }
                match parse_decimal(new) {
                    Some(n) => TokenInfo::Value(Value::Number(Number(n))),
                    None => {
                        proof {
                            assert(is_digit(texts[k][0]) && decimal_value(texts[k]) > i32::MAX);
                        }
                        return None;
                    },
                }
            } else if first == 45u8 {
                if last_is_value {
                    TokenInfo::Op(Op::Sub)
                } else {
                    TokenInfo::Op(Op::Neg)
                }
            } else {
                TokenInfo::Op(Op::new(new))
            };
            last_is_value = 48u8 <= first && first <= 57u8;
            token_list.push(Token { token_info, priority: 0 });
            rest = after;
        }
    }
    proof {
        assert(token_list@ =~= lexed(s@));
    }
    Some(token_list)
}

/// `s` without its leading characters of `class`.
pub open spec fn skip_run(s: Seq<char>, class: CharClass) -> Seq<char> {
    s.skip(span(s, class) as int)
}

/// The leading characters of `s` in `class`.
pub open spec fn take_run(s: Seq<char>, class: CharClass) -> Seq<char> {
    s.take(span(s, class) as int)
}

/// The three parts of `s` read as `number operator number`, each after
/// optional spaces: the digits of the left operand, the operator
/// characters, and the digits of the right operand.
pub open spec fn binary_parts(s: Seq<char>) -> (Seq<char>, Seq<char>, Seq<char>) {
    let a = skip_run(s, CharClass::Space);
    let b = skip_run(skip_run(a, CharClass::Digit), CharClass::Space);
    let c = skip_run(skip_run(b, CharClass::Operator), CharClass::Space);
    (take_run(a, CharClass::Digit), take_run(b, CharClass::Operator), take_run(c, CharClass::Digit))
}

/// A number that fits in an `i32`.
pub open spec fn is_i32_literal(s: Seq<char>) -> bool {
    is_decimal(s) && decimal_value(s) <= i32::MAX
}

impl ExprBinary {
    /// Reads `number operator number`, with optional spaces around each.
    pub fn new(s: &str) -> (r: Self)
        requires
            is_i32_literal(binary_parts(s@).0),
            binary_parts(s@).1.len() == 1,
            is_operator_char(binary_parts(s@).1[0]),
            is_i32_literal(binary_parts(s@).2),
        ensures
            r == (ExprBinary {
                lhs: Value::Number(Number(decimal_value(binary_parts(s@).0) as i32)),
                rhs: Value::Number(Number(decimal_value(binary_parts(s@).2) as i32)),
                op: op_of_char(binary_parts(s@).1[0]),
            }),
    {
        let (_, s1) = extract_whitespace(s);
        let (l, s2) = extract_digit(s1);
        let (_, s3) = extract_whitespace(s2);
        let (op, s4) = extract_operator(s3);
        let (_, s5) = extract_whitespace(s4);
        let (r, _) = extract_digit(s5);
        Self {
            lhs: Value::Number(Number::new(l)),
            rhs: Value::Number(Number::new(r)),
            op: Op::new(op),
        }
    }
}

} // verus!
