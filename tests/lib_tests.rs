use calculator::{calculate_priority, ExprBinary, ExprUnary, Number, Op, Token, TokenInfo, Value};

#[test]
fn lib_parse_number() {
    assert_eq!(Number::new("123"), Number(123))
}

#[test]
fn lib_parse_add_op() {
    assert_eq!(Op::new("+"), Op::Add);
}

#[test]
fn lib_parse_sub_op() {
    assert_eq!(Op::new("-"), Op::Sub);
}

#[test]
fn lib_parse_mul_op() {
    assert_eq!(Op::new("*"), Op::Mul);
}

#[test]
fn lib_parse_div_op() {
    assert_eq!(Op::new("/"), Op::Div);
}

#[test]
fn lib_parse_one_plus_two() {
    assert_eq!(
        ExprBinary::new("1 + 2"),
        ExprBinary {
            lhs: Value::Number(Number(1)),
            rhs: Value::Number(Number(2)),
            op: Op::Add,
        }
    );
}

#[test]
fn lib_evaluate_binary_simple_add() {
    let exp = ExprBinary::new("1+2");
    assert_eq!(Number(3), ExprBinary::evaluate(exp));
}

#[test]
fn lib_evaluate_binary_simple_sub() {
    let exp = ExprBinary::new("3-1");
    assert_eq!(Number(2), ExprBinary::evaluate(exp));
}

#[test]
fn lib_evaluate_binary_simple_mul() {
    let exp = ExprBinary::new("3*2");
    assert_eq!(Number(6), ExprBinary::evaluate(exp));
}

#[test]
fn lib_evaluate_binary_simple_div() {
    let exp = ExprBinary::new("12/2");
    assert_eq!(Number(6), ExprBinary::evaluate(exp));
}

#[test]
fn lib_evaluate_binary_complex() {
    // 12 * (3 + 5)
    let exp = ExprBinary {
        lhs: Value::Number(Number(12)),
        rhs: Value::ExpressionBinary(Box::new(ExprBinary {
            lhs: Value::Number(Number(3)),
            rhs: Value::Number(Number(5)),
            op: Op::Add,
        })),
        op: Op::Mul,
    };
    assert_eq!(Number(96), ExprBinary::evaluate(exp));
}

#[test]
fn lib_evaluate_unary() {
    let expr = ExprUnary {
        val: Value::Number(Number(3)),
        op: Op::Neg,
    };
    assert_eq!(Number(-3), ExprUnary::evaluate(expr))
}

#[test]
fn lib_priority_test() {
    let tokens_prio = vec![
        Token { token_info: TokenInfo::Value(Value::Number(Number(3))), priority: 2 },
        Token { token_info: TokenInfo::Op(Op::Mul), priority: 1 },
        Token { token_info: TokenInfo::Op(Op::Neg), priority: 2 },
        Token { token_info: TokenInfo::Value(Value::Number(Number(5))), priority: 3 },
        Token { token_info: TokenInfo::Op(Op::Add), priority: 0 },
        Token { token_info: TokenInfo::Value(Value::Number(Number(6))), priority: 2 },
        Token { token_info: TokenInfo::Op(Op::Add), priority: 1 },
        Token { token_info: TokenInfo::Op(Op::Neg), priority: 2 },
        Token { token_info: TokenInfo::Value(Value::Number(Number(3))), priority: 3 },
    ];
    let mut tokens = vec![
        Token { token_info: TokenInfo::Value(Value::Number(Number(3))), priority: 0 },
        Token { token_info: TokenInfo::Op(Op::Mul), priority: 0 },
        Token { token_info: TokenInfo::Op(Op::Neg), priority: 0 },
        Token { token_info: TokenInfo::Value(Value::Number(Number(5))), priority: 0 },
        Token { token_info: TokenInfo::Op(Op::Add), priority: 0 },
        Token { token_info: TokenInfo::Value(Value::Number(Number(6))), priority: 0 },
        Token { token_info: TokenInfo::Op(Op::Add), priority: 0 },
        Token { token_info: TokenInfo::Op(Op::Neg), priority: 0 },
        Token { token_info: TokenInfo::Value(Value::Number(Number(3))), priority: 0 },
    ];
    calculate_priority(&mut tokens);
    assert_eq!(tokens_prio, tokens);
}
