use vstd::prelude::*;

use crate::expr::{CalcError, ExprBinary, ExprUnary, Number, Op, Value};
use crate::token::{kinds, op_of, Token, TokenInfo};

verus! {

/// Index of the first token of lowest priority in `s` (0 when `s` is empty).
pub open spec fn root_index(s: Seq<Token>) -> int
    decreases s.len(),
{
    if s.len() <= 1 {
        0
    } else {
        let m = root_index(s.drop_last());
        if s.last().priority < s[m].priority {
            s.len() - 1
        } else {
            m
        }
    }
}

/// The tokens `s` form an expression: at the lowest priority stands either
/// the only token, a literal; or a negation at the front, followed by an
/// expression; or a binary operator between two expressions.
pub open spec fn buildable(s: Seq<Token>) -> bool
    decreases s.len(),
{
    let m = root_index(s);
    if s.len() == 0 || !(0 <= m < s.len()) {
        false
    } else {
        match s[m].token_info {
            TokenInfo::Value(v) => s.len() == 1 && v is Number,
            TokenInfo::Op(op) => if op == Op::Neg {
                m == 0 && buildable(s.subrange(1, s.len() as int))
            } else {
                buildable(s.subrange(0, m)) && buildable(s.subrange(m + 1, s.len() as int))
            },
        }
    }
}

/// The tree of the tokens `s`, split at their lowest priority.
pub open spec fn tree_of(s: Seq<Token>) -> Value
    decreases s.len(),
{
    let m = root_index(s);
    if s.len() == 0 || !(0 <= m < s.len()) {
        Value::Number(Number(0))
    } else {
        match s[m].token_info {
            TokenInfo::Value(v) => v,
            TokenInfo::Op(op) => if op == Op::Neg {
                Value::ExpressionUnary(
                    Box::new(ExprUnary { val: tree_of(s.subrange(m + 1, s.len() as int)), op }),
                )
            } else {
                Value::ExpressionBinary(
                    Box::new(
                        ExprBinary {
                            lhs: tree_of(s.subrange(0, m)),
                            rhs: tree_of(s.subrange(m + 1, s.len() as int)),
                            op,
                        },
                    ),
                )
            },
        }
    }
}

/// The tree read back in infix order, as tokens.
pub open spec fn flatten(v: Value) -> Seq<TokenInfo>
    decreases v,
{
    match v {
        Value::Number(n) => seq![TokenInfo::Value(Value::Number(n))],
        Value::ExpressionBinary(e) => flatten(e.lhs) + seq![TokenInfo::Op(e.op)] + flatten(e.rhs),
        Value::ExpressionUnary(e) => seq![TokenInfo::Op(e.op)] + flatten(e.val),
    }
}

proof fn lemma_root_index(s: Seq<Token>)
    requires
        s.len() > 0,
    ensures
        0 <= root_index(s) < s.len(),
        forall|j: int| 0 <= j < s.len() ==> s[root_index(s)].priority <= #[trigger] s[j].priority,
        forall|j: int| 0 <= j < root_index(s) ==> s[root_index(s)].priority < #[trigger] s[j].priority,
    decreases s.len(),
{
    if s.len() > 1 {
        let t = s.drop_last();
        lemma_root_index(t);
        assert forall|j: int| 0 <= j < t.len() implies #[trigger] t[j] == s[j] by {}
        let m = root_index(t);
        assert(t[m] == s[m]);
        assert forall|j: int| 0 <= j < s.len() implies s[root_index(s)].priority <= #[trigger] s[j].priority by {
            if j < t.len() {
                assert(t[j] == s[j]);
            }
        }
        assert forall|j: int| 0 <= j < root_index(s) implies s[root_index(s)].priority < #[trigger] s[j].priority by {
            assert(t[j] == s[j]);
        }
    }
}

/// Finds the first token of lowest priority.
fn find_root(token_list: &[Token]) -> (m: usize)
    requires
        token_list@.len() > 0,
    ensures
        m == root_index(token_list@),
        m < token_list@.len(),
{
    let n = token_list.len();
    let mut min = token_list[0].priority;
    let mut min_idx: usize = 0;
    let mut idx: usize = 1;
    proof {
        assert(token_list@.take(1).len() == 1);
    }
    while idx < n
        invariant
            n == token_list@.len(),
            1 <= idx <= n,
            min_idx < idx,
            min_idx == root_index(token_list@.take(idx as int)),
            min == token_list@[min_idx as int].priority,
        decreases n - idx,
    {
        proof {
            assert(token_list@.take(idx as int + 1).drop_last() =~= token_list@.take(idx as int));
        }
        if token_list[idx].priority < min {
            min_idx = idx;
            min = token_list[idx].priority;
        }
        idx = idx + 1;
    }
    proof {
        assert(token_list@.take(n as int) =~= token_list@);
        lemma_root_index(token_list@);
    }
    min_idx
}

/// Builds the expression tree of tokens whose priorities are assigned:
/// the token of lowest priority (the first, on a tie) becomes the root, and
/// the tokens on either side of it become its operands.
pub fn build_expr_tree(token_list: &[Token]) -> (r: Value)
    requires
        buildable(token_list@),
    ensures
        r == tree_of(token_list@),
    decreases token_list@.len(),
{
    let n = token_list.len();
    let m = find_root(token_list);
    match op_of(&token_list[m]) {
        Some(Op::Neg) => {
            let val = build_expr_tree(&token_list[m + 1..n]);
            Value::ExpressionUnary(Box::new(ExprUnary { val, op: Op::Neg }))
        },
        Some(op) => {
            let lhs = build_expr_tree(&token_list[0..m]);
            let rhs = build_expr_tree(&token_list[m + 1..n]);
            Value::ExpressionBinary(Box::new(ExprBinary { lhs, rhs, op }))
        },
        None => match &token_list[m].token_info {
            TokenInfo::Value(Value::Number(num)) => Value::Number(*num),
            _ => Value::Number(Number(0)),
        },
    }
}

/// Decides whether the tokens form an expression.
fn can_build(token_list: &[Token]) -> (r: bool)
    ensures
        r == buildable(token_list@),
    decreases token_list@.len(),
{
    let n = token_list.len();
    if n == 0 {
        return false;
    }
    let m = find_root(token_list);
    match op_of(&token_list[m]) {
        Some(Op::Neg) => m == 0 && can_build(&token_list[1..n]),
        Some(_) => can_build(&token_list[0..m]) && can_build(&token_list[m + 1..n]),
        None => n == 1 && match &token_list[m].token_info {
            TokenInfo::Value(Value::Number(_)) => true,
            _ => false,
        },
    }
}

/// Builds the expression tree of the tokens, or reports `MalformedInput`
/// where they do not form an expression.
pub fn build_tree(token_list: &[Token]) -> (r: Result<Value, CalcError>)
    ensures
        buildable(token_list@) ==> r == Ok::<Value, CalcError>(tree_of(token_list@)),
        !buildable(token_list@) ==> r == Err::<Value, CalcError>(CalcError::MalformedInput),
{
    if can_build(token_list) {
        Ok(build_expr_tree(token_list))
    } else {
        Err(CalcError::MalformedInput)
    }
}

/// A tree built from tokens is well formed: its unary nodes are negations
/// and its binary nodes are not.
pub proof fn lemma_tree_well_formed(s: Seq<Token>)
    requires
        buildable(s),
    ensures
        tree_of(s).well_formed(),
    decreases s.len(),
{
    let m = root_index(s);
    if let TokenInfo::Op(op) = s[m].token_info {
        if op == Op::Neg {
            lemma_tree_well_formed(s.subrange(1, s.len() as int));
        } else {
            lemma_tree_well_formed(s.subrange(0, m));
            lemma_tree_well_formed(s.subrange(m + 1, s.len() as int));
        }
    }
}

/// Reading the tree built from tokens back in infix order gives the tokens
/// again, without their priorities.
pub proof fn lemma_flatten_tree(s: Seq<Token>)
    requires
        buildable(s),
    ensures
        flatten(tree_of(s)) == kinds(s),
    decreases s.len(),
{
    let m = root_index(s);
    let n = s.len() as int;
    match s[m].token_info {
        TokenInfo::Value(v) => {
            assert(flatten(tree_of(s)) =~= kinds(s));
        },
        TokenInfo::Op(op) => {
            if op == Op::Neg {
                let right = s.subrange(1, n);
                lemma_flatten_tree(right);
                assert(kinds(s) =~= seq![TokenInfo::Op(op)] + kinds(right));
            } else {
                let left = s.subrange(0, m);
                let right = s.subrange(m + 1, n);
                lemma_flatten_tree(left);
                lemma_flatten_tree(right);
                assert(kinds(s) =~= kinds(left) + seq![TokenInfo::Op(op)] + kinds(right));
            }
        },
    }
}

/// A single literal forms an expression, whose tree evaluates to the
/// literal itself.
pub proof fn lemma_single_literal(s: Seq<Token>, n: i32)
    requires
        s.len() == 1,
        s[0].token_info == TokenInfo::Value(Value::Number(Number(n))),
    ensures
        buildable(s),
        tree_of(s) == Value::Number(Number(n)),
        tree_of(s).eval() == Some(n as int),
{
}

} // verus!
