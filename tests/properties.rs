use calculator::old_calc::{check_right_operands, try_calculate};
use calculator::{
    build_expr_tree, build_token_list, build_tree, calculate_priority, evaluate, CalcError,
    ExprBinary, ExprUnary, Number, Op, Token, TokenInfo, Value,
};

fn num(n: i32) -> Value {
    Value::Number(Number(n))
}

fn binary(lhs: Value, op: Op, rhs: Value) -> Value {
    Value::ExpressionBinary(Box::new(ExprBinary { lhs, rhs, op }))
}

fn priorities_of(tokens: &[Token]) -> Vec<u16> {
    tokens.iter().map(|t| t.priority).collect()
}

fn flatten(v: &Value, out: &mut Vec<TokenInfo>) {
    match v {
        Value::Number(n) => out.push(TokenInfo::Value(Value::Number(Number(n.0)))),
        Value::ExpressionBinary(e) => {
            flatten(&e.lhs, out);
            out.push(TokenInfo::Op(e.op));
            flatten(&e.rhs, out);
        }
        Value::ExpressionUnary(e) => {
            out.push(TokenInfo::Op(e.op));
            flatten(&e.val, out);
        }
    }
}

fn run(s: &str) -> Result<i32, CalcError> {
    let mut tokens = build_token_list(s);
    calculate_priority(&mut tokens);
    let tree = build_tree(&tokens)?;
    evaluate(&tree)
}

#[test]
fn single_literal_evaluates_to_itself() {
    for s in ["0", "7", "42", "2147483647"] {
        let expected: i32 = s.parse().unwrap();
        assert_eq!(run(s), Ok(expected));
    }
}

#[test]
fn three_plus_two() {
    let mut tokens = build_token_list("3 + 2");
    assert_eq!(tokens.len(), 3);
    calculate_priority(&mut tokens);
    assert_eq!(priorities_of(&tokens), vec![1, 0, 1]);
    let tree = build_expr_tree(&tokens);
    assert_eq!(tree, binary(num(3), Op::Add, num(2)));
    assert_eq!(evaluate(&tree), Ok(5));
}

#[test]
fn three_times_two_plus_five() {
    let mut tokens = build_token_list("3 * 2 + 5");
    calculate_priority(&mut tokens);
    assert_eq!(priorities_of(&tokens), vec![2, 1, 2, 0, 1]);
    let tree = build_expr_tree(&tokens);
    assert_eq!(tree, binary(binary(num(3), Op::Mul, num(2)), Op::Add, num(5)));
    assert_eq!(evaluate(&tree), Ok(11));
}

#[test]
fn negation_binds_tightest() {
    assert_eq!(run("-5 * 3 + -2"), Ok(-17));
}

#[test]
fn prebuilt_tree_evaluates() {
    let tree = binary(num(12), Op::Mul, binary(num(3), Op::Add, num(5)));
    assert_eq!(evaluate(&tree), Ok(96));
    assert_eq!(Value::as_num(tree), Number(96));
}

#[test]
fn division_truncates_toward_zero() {
    assert_eq!(evaluate(&binary(num(7), Op::Div, num(2))), Ok(3));
    assert_eq!(evaluate(&binary(num(-7), Op::Div, num(2))), Ok(-3));
    assert_eq!(evaluate(&binary(num(7), Op::Div, num(-2))), Ok(-3));
    assert_eq!(evaluate(&binary(num(-7), Op::Div, num(-2))), Ok(3));
    let exp = ExprBinary { lhs: num(-7), rhs: num(2), op: Op::Div };
    assert_eq!(ExprBinary::evaluate(exp), Number(-3));
}

#[test]
fn tree_reads_back_as_the_tokens() {
    for s in ["3 + 2", "3 * 2 + 5", "-5 * 3 + -2", "4*5-6+-2", "1 - 2 - 3", "8 / 2 / 2"] {
        let mut tokens = build_token_list(s);
        calculate_priority(&mut tokens);
        let tree = build_tree(&tokens).unwrap();
        let mut flat = Vec::new();
        flatten(&tree, &mut flat);
        let kinds: Vec<&TokenInfo> = tokens.iter().map(|t| &t.token_info).collect();
        assert_eq!(flat.iter().collect::<Vec<_>>(), kinds);
    }
}

#[test]
fn division_by_zero_faults() {
    for n in [0, 1, -1, 7, i32::MAX, i32::MIN] {
        assert_eq!(
            evaluate(&binary(num(n), Op::Div, num(0))),
            Err(CalcError::ArithmeticFault)
        );
    }
    let zero = binary(num(3), Op::Sub, num(3));
    assert_eq!(
        evaluate(&binary(num(5), Op::Div, zero)),
        Err(CalcError::ArithmeticFault)
    );
    assert_eq!(run("5 / 0"), Err(CalcError::ArithmeticFault));
}

#[test]
fn overflow_faults() {
    assert_eq!(
        evaluate(&binary(num(i32::MAX), Op::Add, num(1))),
        Err(CalcError::ArithmeticFault)
    );
    assert_eq!(
        evaluate(&binary(num(i32::MIN), Op::Div, num(-1))),
        Err(CalcError::ArithmeticFault)
    );
    let neg = Value::ExpressionUnary(Box::new(ExprUnary { val: num(i32::MIN), op: Op::Neg }));
    assert_eq!(evaluate(&neg), Err(CalcError::ArithmeticFault));
}

#[test]
fn malformed_token_lists_are_rejected() {
    assert_eq!(build_tree(&[]), Err(CalcError::MalformedInput));
    let two_numbers = vec![
        Token { token_info: TokenInfo::Value(num(1)), priority: 0 },
        Token { token_info: TokenInfo::Value(num(2)), priority: 0 },
    ];
    assert_eq!(build_tree(&two_numbers), Err(CalcError::MalformedInput));
    let mut dangling = build_token_list("1 +");
    calculate_priority(&mut dangling);
    assert_eq!(build_tree(&dangling), Err(CalcError::MalformedInput));
}

#[test]
fn minus_after_operator_is_negation() {
    let tokens = build_token_list("1--2");
    let kinds: Vec<&TokenInfo> = tokens.iter().map(|t| &t.token_info).collect();
    assert_eq!(
        kinds,
        vec![
            &TokenInfo::Value(num(1)),
            &TokenInfo::Op(Op::Sub),
            &TokenInfo::Op(Op::Neg),
            &TokenInfo::Value(num(2)),
        ]
    );
    assert_eq!(run("1--2"), Ok(3));
}

#[test]
fn tokenizer_stops_at_unknown_character() {
    let tokens = build_token_list("12 + x 3");
    assert_eq!(tokens.len(), 2);
    assert!(build_token_list("").is_empty());
}

#[test]
fn ties_go_to_the_first_token() {
    let tokens = vec![
        Token { token_info: TokenInfo::Value(num(8)), priority: 1 },
        Token { token_info: TokenInfo::Op(Op::Sub), priority: 0 },
        Token { token_info: TokenInfo::Value(num(3)), priority: 1 },
        Token { token_info: TokenInfo::Op(Op::Sub), priority: 0 },
        Token { token_info: TokenInfo::Value(num(2)), priority: 1 },
    ];
    let tree = build_expr_tree(&tokens);
    assert_eq!(tree, binary(num(8), Op::Sub, binary(num(3), Op::Sub, num(2))));
}

#[test]
fn oversized_literal_is_refused_by_the_checked_tokenizer() {
    assert!(calculator::try_build_token_list("2147483648 + 1").is_none());
    let tokens = calculator::try_build_token_list("2147483647 + 1").unwrap();
    assert_eq!(tokens.len(), 3);
    assert_eq!(tokens[0].token_info, TokenInfo::Value(num(i32::MAX)));
}

#[test]
fn operand_check_finds_missing_neighbours() {
    assert!(calculator::check_operands(&build_token_list("1 * 2")));
    assert!(!calculator::check_operands(&build_token_list("1 *")));
    assert!(!calculator::check_operands(&build_token_list("* 2")));
    assert!(calculator::check_operands(&build_token_list("3 +")));
}

#[test]
fn checked_calculation_reports_each_fault() {
    assert_eq!(try_calculate("- 5 * 8 / 2* -3  + 5   "), Ok(65));
    assert_eq!(try_calculate("4*5-6+-2"), Ok(12));
    assert_eq!(try_calculate("7 / (0)"), Err(CalcError::MalformedInput));
    assert_eq!(try_calculate("7 / 0"), Err(CalcError::ArithmeticFault));
    assert_eq!(try_calculate("2147483647 + 1"), Err(CalcError::ArithmeticFault));
    assert_eq!(try_calculate("99999999999"), Err(CalcError::MalformedInput));
    assert_eq!(try_calculate("1 *"), Err(CalcError::MalformedInput));
    assert_eq!(try_calculate(""), Err(CalcError::MalformedInput));
    assert_eq!(try_calculate("1 +"), Err(CalcError::MalformedInput));
    assert!(check_right_operands(&build_token_list("* 2")));
    assert!(!check_right_operands(&build_token_list("2 *")));
}

#[test]
fn the_two_rule_sets_differ_on_chained_products() {
    assert_eq!(run("- 5 * 8 / 2* -3  + 5"), Ok(10));
    assert_eq!(calculator::old_calc::calculate("- 5 * 8 / 2* -3  + 5"), 65);
}
