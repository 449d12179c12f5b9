use vstd::prelude::*;
use vstd::utf8::{is_ascii_chars, is_ascii_chars_encode_utf8};

verus! {

/// An integer literal.
#[derive(Debug, Clone, Copy, PartialEq, Eq, Structural)]
pub struct Number(pub i32);

/// The operators of the language. `Neg` is the only unary one.
#[derive(Debug, Clone, Copy, PartialEq, Eq, Structural)]
pub enum Op {
    Add,
    Sub,
    Mul,
    Div,
    Neg,
}

/// A node of an expression tree; each node owns its children.
#[derive(Debug, PartialEq)]
pub enum Value {
    Number(Number),
    ExpressionBinary(Box<ExprBinary>),
    ExpressionUnary(Box<ExprUnary>),
}

/// A unary operation; its operator is always `Neg`.
#[derive(Debug, PartialEq)]
pub struct ExprUnary {
    pub val: Value,
    pub op: Op,
}

/// A binary operation; its operator is never `Neg`.
#[derive(Debug, PartialEq)]
pub struct ExprBinary {
    pub lhs: Value,
    pub rhs: Value,
    pub op: Op,
}

/// The ways a calculation can fail.
#[derive(Debug, Clone, Copy, PartialEq, Eq, Structural)]
pub enum CalcError {
    /// The tokens do not form an expression.
    MalformedInput,
    /// Division by zero, or a result outside the range of `i32`.
    ArithmeticFault,
}

/// Quotient of `a` by `b`, rounded toward zero.
pub open spec fn trunc_div(a: int, b: int) -> int {
    let q = abs(a) / abs(b);
    if (a < 0) == (b < 0) {
        q
    } else {
        -q
    }
}

pub open spec fn abs(a: int) -> int {
    if a < 0 {
        -a
    } else {
        a
    }
}

pub open spec fn fits_i32(n: int) -> bool {
    i32::MIN <= n <= i32::MAX
}

/// What a binary operator yields on `a` and `b` in `i32`, or `None` where
/// the operation faults (division by zero, overflow) or `op` is not binary.
pub open spec fn binary_result(op: Op, a: int, b: int) -> Option<int> {
    let r = match op {
        Op::Add => a + b,
        Op::Sub => a - b,
        Op::Mul => a * b,
        Op::Div => trunc_div(a, b),
        Op::Neg => 0,
    };
    if op == Op::Neg || (op == Op::Div && b == 0) || !fits_i32(r) {
        None
    } else {
        Some(r)
    }
}

impl Value {
    /// Every unary node carries `Neg` and no binary node does.
    pub open spec fn well_formed(self) -> bool
        decreases self,
    {
        match self {
            Value::Number(_) => true,
            Value::ExpressionBinary(e) => e.op != Op::Neg && e.lhs.well_formed()
                && e.rhs.well_formed(),
            Value::ExpressionUnary(e) => e.op == Op::Neg && e.val.well_formed(),
        }
    }

    /// The value of the tree in `i32` arithmetic, or `None` where some node
    /// faults.
    pub open spec fn eval(self) -> Option<int>
        decreases self,
    {
        match self {
            Value::Number(n) => Some(n.0 as int),
            Value::ExpressionBinary(e) => match (e.lhs.eval(), e.rhs.eval()) {
                (Some(a), Some(b)) => binary_result(e.op, a, b),
                _ => None,
            },
            Value::ExpressionUnary(e) => match e.val.eval() {
                Some(a) => if fits_i32(-a) {
                    Some(-a)
                } else {
                    None
                },
                None => None,
            },
        }
    }
}

/// Applies a binary operator in `i32`, reporting faults as `None`.
fn apply_binary(op: Op, a: i32, b: i32) -> (r: Option<i32>)
    requires
        op != Op::Neg,
    ensures
        r matches Some(n) ==> binary_result(op, a as int, b as int) == Some(n as int),
        r is None ==> binary_result(op, a as int, b as int) is None,
{
    match op {
        Op::Add => a.checked_add(b),
        Op::Sub => a.checked_sub(b),
        Op::Mul => a.checked_mul(b),
        _ => a.checked_div(b),
    }
}

pub open spec fn is_digit(c: char) -> bool {
    '0' <= c <= '9'
}

pub open spec fn digit_value(c: char) -> int {
    c as int - '0' as int
}

/// The number written in decimal by the digits `s`.
pub open spec fn decimal_value(s: Seq<char>) -> int
    decreases s.len(),
{
    if s.len() == 0 {
        0
    } else {
        decimal_value(s.drop_last()) * 10 + digit_value(s.last())
    }
}

/// `s` is a non-empty run of decimal digits.
pub open spec fn is_decimal(s: Seq<char>) -> bool {
    s.len() > 0 && forall|i: int| 0 <= i < s.len() ==> is_digit(#[trigger] s[i])
}

/// The operator that the one-character string `c` denotes.
pub open spec fn op_of_char(c: char) -> Op {
    if c == '+' {
        Op::Add
    } else if c == '-' {
        Op::Sub
    } else if c == '*' {
        Op::Mul
    } else {
        Op::Div
    }
}

pub open spec fn is_operator_char(c: char) -> bool {
    c == '+' || c == '-' || c == '*' || c == '/'
}

proof fn lemma_decimal_prefix_bounded(s: Seq<char>, i: int)
    requires
        0 <= i <= s.len(),
        forall|j: int| 0 <= j < s.len() ==> is_digit(#[trigger] s[j]),
    ensures
        0 <= decimal_value(s.take(i)) <= decimal_value(s),
    decreases s.len(),
{
    if s.len() > 0 {
        if i == s.len() {
            assert(s.take(i) =~= s);
            lemma_decimal_prefix_bounded(s.drop_last(), s.len() - 1);
            assert(s.drop_last().take(s.len() - 1) =~= s.drop_last());
        } else {
            lemma_decimal_prefix_bounded(s.drop_last(), i);
            assert(s.drop_last().take(i) =~= s.take(i));
            lemma_decimal_prefix_bounded(s.drop_last(), s.len() - 1);
            assert(s.drop_last().take(s.len() - 1) =~= s.drop_last());
        }
    }
}

/// Reads a run of decimal digits, or `None` where its value does not fit
/// in an `i32`.
pub(crate) fn parse_decimal(s: &str) -> (r: Option<i32>)
    requires
        is_decimal(s@),
    ensures
        r matches Some(n) ==> n as int == decimal_value(s@),
        r is None <==> decimal_value(s@) > i32::MAX,
{
    proof {
        assert(is_ascii_chars(s@));
        is_ascii_chars_encode_utf8(s@);
        lemma_decimal_prefix_bounded(s@, s@.len() as int);
        assert(s@.take(s@.len() as int) =~= s@);
    }
    let bytes = s.as_bytes();
    let mut acc: i32 = 0;
    let mut i: usize = 0;
    while i < bytes.len()
        invariant
            bytes@ == vstd::utf8::encode_utf8(s@),
            bytes@.len() == s@.len(),
            forall|j: int| 0 <= j < s@.len() ==> s@[j] as u8 == #[trigger] bytes@[j],
            is_decimal(s@),
            0 <= i <= bytes.len(),
            acc as int == decimal_value(s@.take(i as int)),
        decreases bytes.len() - i,
    {
        proof {
            lemma_decimal_prefix_bounded(s@, i as int + 1);
            assert(s@.take(i as int + 1).drop_last() =~= s@.take(i as int));
            assert(is_digit(s@[i as int]));
        }
        let d = (bytes[i] - 48u8) as i32;
        match acc.checked_mul(10) {
            Some(m) => match m.checked_add(d) {
                Some(next) => acc = next,
                None => return None,
            },
            None => {
                assert(decimal_value(s@.take(i as int + 1)) > i32::MAX) by (nonlinear_arith)
                    requires
                        acc * 10 > i32::MAX,
                        0 <= d,
                        decimal_value(s@.take(i as int + 1)) == acc * 10 + d,
                ;
                return None;
            },
        }
        i = i + 1;
    }
    proof {
        assert(s@.take(i as int) =~= s@);
    }
    Some(acc)
}

impl Number {
    /// Reads a run of decimal digits.
    pub fn new(s: &str) -> (r: Self)
        requires
            is_decimal(s@),
            decimal_value(s@) <= i32::MAX,
        ensures
            r.0 as int == decimal_value(s@),
    {
        match parse_decimal(s) {
            Some(n) => Number(n),
            None => Number(0),
        }
    }
}

impl Op {
    /// Reads one of `+`, `-`, `*`, `/`.
    pub fn new(s: &str) -> (r: Self)
        requires
            s@.len() == 1,
            is_operator_char(s@[0]),
        ensures
            r == op_of_char(s@[0]),
    {
        proof {
            assert(is_ascii_chars(s@));
            is_ascii_chars_encode_utf8(s@);
        }
        let c = s.as_bytes()[0];
        if c == 43u8 {
            Op::Add
        } else if c == 45u8 {
            Op::Sub
        } else if c == 42u8 {
            Op::Mul
        } else {
            Op::Div
        }
    }
}

impl Value {
    /// Evaluates a tree whose evaluation does not fault.
    pub fn as_num(val: Self) -> (r: Number)
        requires
            val.well_formed(),
            val.eval() is Some,
        ensures
            val.eval() == Some(r.0 as int),
        decreases val,
    {
        match val {
            Value::Number(num) => num,
            Value::ExpressionBinary(expr) => ExprBinary::evaluate(*expr),
            Value::ExpressionUnary(expr) => ExprUnary::evaluate(*expr),
        }
    }
}

impl ExprUnary {
    /// Negates the value of the operand.
    pub fn evaluate(expr: Self) -> (r: Number)
        requires
            Value::ExpressionUnary(Box::new(expr)).well_formed(),
            Value::ExpressionUnary(Box::new(expr)).eval() is Some,
        ensures
            Value::ExpressionUnary(Box::new(expr)).eval() == Some(r.0 as int),
        decreases expr,
    {
        let n = Value::as_num(expr.val).0;
        Number(-n)
    }
}

impl ExprBinary {
    /// Applies the operator to the values of both operands.
    pub fn evaluate(expr: Self) -> (r: Number)
        requires
            Value::ExpressionBinary(Box::new(expr)).well_formed(),
            Value::ExpressionBinary(Box::new(expr)).eval() is Some,
        ensures
            Value::ExpressionBinary(Box::new(expr)).eval() == Some(r.0 as int),
        decreases expr,
    {
        let op = expr.op;
        let lh = Value::as_num(expr.lhs).0;
        let rh = Value::as_num(expr.rhs).0;
        match apply_binary(op, lh, rh) {
            Some(n) => Number(n),
            None => Number(0),
        }
    }
}

/// Evaluates a tree, reporting a division by zero or an overflow as
/// `ArithmeticFault`.
pub fn evaluate(expr: &Value) -> (r: Result<i32, CalcError>)
    requires
        expr.well_formed(),
    ensures
        r == (match expr.eval() {
            Some(n) => Ok::<i32, CalcError>(n as i32),
            None => Err(CalcError::ArithmeticFault),
        }),
    decreases expr,
{
    match expr {
        Value::Number(num) => Ok(num.0),
        Value::ExpressionBinary(e) => {
            let a = evaluate(&e.lhs)?;
            let b = evaluate(&e.rhs)?;
            match apply_binary(e.op, a, b) {
                Some(n) => Ok(n),
                None => Err(CalcError::ArithmeticFault),
            }
        },
        Value::ExpressionUnary(e) => {
            let a = evaluate(&e.val)?;
            if a == i32::MIN {
                Err(CalcError::ArithmeticFault)
            } else {
                Ok(-a)
            }
        },
    }
}

/// The tree `lhs / rhs`.
pub open spec fn quotient(lhs: Value, rhs: Value) -> Value {
    Value::ExpressionBinary(Box::new(ExprBinary { lhs, rhs, op: Op::Div }))
}

/// Division truncates toward zero, as `i32` division does: the quotient has
/// the magnitude `|a| / |b|` rounded down, is not negative when `a` and `b`
/// have the same sign and not positive otherwise, and only `i32::MIN / -1`
/// overflows.
pub proof fn lemma_division_truncates(a: i32, b: i32)
    requires
        b != 0,
    ensures
        quotient(Value::Number(Number(a)), Value::Number(Number(b))).eval() is None <==> (a
            == i32::MIN && b == -1),
        quotient(Value::Number(Number(a)), Value::Number(Number(b))).eval() matches Some(q) ==> {
            &&& abs(q) == abs(a as int) / abs(b as int)
            &&& (a >= 0) == (b > 0) ==> q >= 0
            &&& (a >= 0) != (b > 0) ==> q <= 0
            &&& a.checked_div(b) == Some(q as i32)
        },
{
    let x = abs(a as int);
    let y = abs(b as int);
    let q = x / y;
    assert(0 <= q <= x) by (nonlinear_arith)
        requires
            y >= 1,
            x >= 0,
            q == x / y,
    ;
    assert(y >= 2 ==> q * 2 <= x) by (nonlinear_arith)
        requires
            y >= 1,
            x >= 0,
            q == x / y,
    ;
    assert(y == 1 ==> q == x);
    assert(trunc_div(a as int, b as int) == if (a < 0) == (b < 0) { q } else { -q });
    assert(Value::Number(Number(a)).eval() == Some(a as int));
    assert(Value::Number(Number(b)).eval() == Some(b as int));
    assert(quotient(Value::Number(Number(a)), Value::Number(Number(b))).eval() == binary_result(
        Op::Div,
        a as int,
        b as int,
    ));
}

/// Division by an operand that evaluates to zero faults, whatever the other
/// operand is.
pub proof fn lemma_division_by_zero_faults(lhs: Value, rhs: Value)
    requires
        rhs.eval() == Some(0int),
    ensures
        quotient(lhs, rhs).eval() is None,
{
}

} // verus!
