//! A second rule set for the priority pass, and the calculation that runs
//! on it: here a multiplication or division reaches left back to the
//! previous additive operator, and an addition or subtraction reaches right
//! up to the next one.

use vstd::prelude::*;

use crate::expr::{evaluate, CalcError};
use crate::lexer::{lexed, numbers_fit, try_build_token_list};
use crate::token::{
    is_additive, is_additive_token, is_multiplicative, is_op, kinds, lemma_run_start, op_of,
    priorities, priorities_have_room, raise, run_start, set_priority,
};
use crate::tree::{build_tree, buildable, lemma_tree_well_formed, tree_of};

pub use crate::expr::{ExprBinary, ExprUnary, Number, Op, Value};
pub use crate::lexer::build_token_list;
pub use crate::token::{Token, TokenInfo};
pub use crate::tree::build_expr_tree;

verus! {

/// Index of the nearest additive operator right of `i`, or the length.
pub open spec fn run_end(s: Seq<Token>, i: int) -> int
    decreases s.len() - i,
{
    if i + 1 >= s.len() {
        s.len() as int
    } else if is_additive(s[i + 1]) {
        i + 1
    } else {
        run_end(s, i + 1)
    }
}

/// Every negation, multiplication and division has an operand after it.
pub open spec fn has_right_operands(s: Seq<Token>) -> bool {
    forall|i: int|
        0 <= i < s.len() ==> (is_op(#[trigger] s[i], Op::Neg) || is_multiplicative(s[i])) ==> i
            + 1 < s.len()
}

/// The rule of the operator at `i` in this rule set: a negation puts its
/// operand one level below itself; a multiplication or division pushes down
/// its right neighbour and everything to its left back to the previous
/// additive operator; an addition or subtraction pushes down everything to
/// its left and everything to its right up to the next additive operator.
pub open spec fn priority_step(s: Seq<Token>, p: Seq<int>, i: int) -> Seq<int> {
    if is_op(s[i], Op::Neg) {
        p.update(i + 1, p[i] + 1)
    } else if is_multiplicative(s[i]) {
        Seq::new(
            p.len(),
            |j: int|
                if run_start(s, i) <= j < i || j == i + 1 {
                    p[j] + 1
                } else {
                    p[j]
                },
        )
    } else if is_additive(s[i]) {
        Seq::new(
            p.len(),
            |j: int|
                if j < i || i < j < run_end(s, i) {
                    p[j] + 1
                } else {
                    p[j]
                },
        )
    } else {
        p
    }
}

/// The priorities after the rules of the first `k` tokens, left to right.
pub open spec fn priority_pass(s: Seq<Token>, p: Seq<int>, k: int) -> Seq<int>
    decreases k,
{
    if k <= 0 {
        p
    } else {
        priority_step(s, priority_pass(s, p, k - 1), k - 1)
    }
}

/// The priorities that a full pass of this rule set gives the tokens `s`.
pub open spec fn assigned_priorities(s: Seq<Token>) -> Seq<int> {
    priority_pass(s, priorities(s), s.len() as int)
}

proof fn lemma_run_end(s: Seq<Token>, i: int, j: int)
    requires
        0 <= i < j <= s.len(),
        j == s.len() || is_additive(s[j]),
        forall|k: int| i < k < j ==> !is_additive(#[trigger] s[k]),
    ensures
        run_end(s, i) == j,
    decreases j - i,
{
    if i + 1 < j {
        lemma_run_end(s, i + 1, j);
    }
}

/// Assigns each token its priority under this rule set, in place, in one
/// pass from left to right (see `priority_step`).
pub fn calculate_priority(token_list: &mut Vec<Token>)
    requires
        has_right_operands(old(token_list)@),
        priorities_have_room(old(token_list)@),
    ensures
        final(token_list).len() == old(token_list).len(),
        kinds(final(token_list)@) == kinds(old(token_list)@),
        priorities(final(token_list)@) == assigned_priorities(old(token_list)@),
{
    let ghost s = token_list@;
    let n = token_list.len();
    let mut idx: usize = 0;
    while idx < n
        invariant
            token_list.len() == n == s.len(),
            has_right_operands(s),
            priorities_have_room(s),
            idx <= n,
            kinds(token_list@) == kinds(s),
            priorities(token_list@) == priority_pass(s, priorities(s), idx as int),
            forall|j: int| 0 <= j < n ==> #[trigger] priorities(token_list@)[j] <= u16::MAX - n + idx,
        decreases n - idx,
    {
        let ghost p0 = priorities(token_list@);
        proof {
            assert(kinds(token_list@)[idx as int] == kinds(s)[idx as int]);
        }
        match op_of(&token_list[idx]) {
            Some(Op::Neg) => {
                assert(priorities(token_list@)[idx as int] <= u16::MAX - n + idx);
                let v = token_list[idx].priority + 1;
                set_priority(token_list, idx + 1, v);
            },
            Some(Op::Mul) | Some(Op::Div) => {
                assert(p0[idx + 1] <= u16::MAX - n + idx);
                raise(token_list, idx + 1);
                let mut j: usize = idx;
                let mut stop = false;
                while j > 0 && !stop
                    invariant
                        token_list.len() == n == s.len(),
                        idx + 1 < n,
                        j <= idx,
                        kinds(token_list@) == kinds(s),
                        stop ==> j > 0 && is_additive(s[j - 1]),
                        forall|k: int| j <= k < idx ==> !is_additive(#[trigger] s[k]),
                        forall|k: int| 0 <= k < n ==> #[trigger] p0[k] <= u16::MAX - n + idx,
                        p0.len() == n,
                        priorities(token_list@) == Seq::new(
                            n as nat,
                            |k: int|
                                if j <= k < idx || k == idx + 1 {
                                    p0[k] + 1
                                } else {
                                    p0[k]
                                },
                        ),
                    decreases j + (if stop { 0int } else { 1int }),
                {
                    proof {
                        assert(kinds(token_list@)[j - 1] == kinds(s)[j - 1]);
                    }
                    if is_additive_token(&token_list[j - 1]) {
                        stop = true;
                    } else {
                        assert(priorities(token_list@)[j - 1] == p0[j - 1]);
                        raise(token_list, j - 1);
                        j = j - 1;
                        proof {
                            assert(priorities(token_list@) =~= Seq::new(
                                n as nat,
                                |k: int|
                                    if j <= k < idx || k == idx + 1 {
                                        p0[k] + 1
                                    } else {
                                        p0[k]
                                    },
                            ));
                        }
                    }
                }
                proof {
                    lemma_run_start(s, idx as int, j as int);
                }
            },
            Some(_) => {
                let mut k: usize = 0;
                while k < idx
                    invariant
                        token_list.len() == n == s.len(),
                        k <= idx < n,
                        kinds(token_list@) == kinds(s),
                        forall|m: int| 0 <= m < n ==> #[trigger] p0[m] <= u16::MAX - n + idx,
                        p0.len() == n,
                        priorities(token_list@) == Seq::new(
                            n as nat,
                            |m: int|
                                if m < k {
                                    p0[m] + 1
                                } else {
                                    p0[m]
                                },
                        ),
                    decreases idx - k,
                {
                    assert(priorities(token_list@)[k as int] == p0[k as int]);
                    raise(token_list, k);
                    k = k + 1;
                    proof {
                        assert(priorities(token_list@) =~= Seq::new(
                            n as nat,
                            |m: int|
                                if m < k {
                                    p0[m] + 1
                                } else {
                                    p0[m]
                                },
                        ));
                    }
                }
                let mut j: usize = idx + 1;
                let mut stop = false;
                while j < n && !stop
                    invariant
                        token_list.len() == n == s.len(),
                        idx < j <= n,
                        kinds(token_list@) == kinds(s),
                        stop ==> j < n && is_additive(s[j as int]),
                        forall|m: int| idx < m < j ==> !is_additive(#[trigger] s[m]),
                        forall|m: int| 0 <= m < n ==> #[trigger] p0[m] <= u16::MAX - n + idx,
                        p0.len() == n,
                        priorities(token_list@) == Seq::new(
                            n as nat,
                            |m: int|
                                if m < idx || idx < m < j {
                                    p0[m] + 1
                                } else {
                                    p0[m]
                                },
                        ),
                    decreases n - j + (if stop { 0int } else { 1int }),
                {
                    proof {
                        assert(kinds(token_list@)[j as int] == kinds(s)[j as int]);
                    }
                    if is_additive_token(&token_list[j]) {
                        stop = true;
                    } else {
                        assert(priorities(token_list@)[j as int] == p0[j as int]);
                        raise(token_list, j);
                        j = j + 1;
                        proof {
                            assert(priorities(token_list@) =~= Seq::new(
                                n as nat,
                                |m: int|
                                    if m < idx || idx < m < j {
                                        p0[m] + 1
                                    } else {
                                        p0[m]
                                    },
                            ));
                        }
                    }
                }
                proof {
                    lemma_run_end(s, idx as int, j as int);
                }
            },
            None => {},
        }
        proof {
            assert(priorities(token_list@) =~= priority_step(s, p0, idx as int));
        }
        idx = idx + 1;
    }
}

/// The tokens of `s` with the priorities that this rule set assigns.
pub open spec fn prioritised(s: Seq<char>) -> Seq<Token> {
    let t = lexed(s);
    let p = assigned_priorities(t);
    Seq::new(t.len(), |j: int| Token { token_info: t[j].token_info, priority: p[j] as u16 })
}

/// `s` is an expression that this rule set reads: its numbers fit in
/// `i32`, its operators have their operands, and its prioritised tokens form
/// a tree.
pub open spec fn readable(s: Seq<char>) -> bool {
    &&& numbers_fit(s)
    &&& has_right_operands(lexed(s))
    &&& priorities_have_room(lexed(s))
    &&& buildable(prioritised(s))
}

/// `s` is an expression that this rule set reads and whose tree evaluates
/// without fault.
pub open spec fn calculable(s: Seq<char>) -> bool {
    readable(s) && tree_of(prioritised(s)).eval() is Some
}

/// The value of the expression `s`: its tokens, their priorities, the tree
/// they form, and its value.
pub fn calculate(s: &str) -> (r: i32)
    requires
        calculable(s@),
    ensures
        tree_of(prioritised(s@)).eval() == Some(r as int),
{
    let mut list = build_token_list(s);
    calculate_priority(&mut list);
    proof {
        lemma_prioritised(s@, list@);
        lemma_tree_well_formed(list@);
    }
    let expr = build_expr_tree(list.as_slice());
    let res = Value::as_num(expr);
    res.0
}

proof fn lemma_prioritised(s: Seq<char>, list: Seq<Token>)
    requires
        list.len() == lexed(s).len(),
        kinds(list) == kinds(lexed(s)),
        priorities(list) == assigned_priorities(lexed(s)),
    ensures
        list == prioritised(s),
{
    let t = lexed(s);
    assert forall|j: int| 0 <= j < list.len() implies #[trigger] list[j] == prioritised(s)[j] by {
        assert(kinds(list)[j] == kinds(t)[j]);
        assert(priorities(list)[j] == assigned_priorities(t)[j]);
    }
    assert(list =~= prioritised(s));
}

/// Decides whether every negation, multiplication and division has an
/// operand after it.
pub fn check_right_operands(tokens: &[Token]) -> (r: bool)
    ensures
        r == has_right_operands(tokens@),
{
    let n = tokens.len();
    let mut i: usize = 0;
    while i < n
        invariant
            n == tokens@.len(),
            i <= n,
            forall|j: int|
                0 <= j < i ==> (is_op(#[trigger] tokens@[j], Op::Neg) || is_multiplicative(
                    tokens@[j],
                )) ==> j + 1 < n,
        decreases n - i,
    {
        match op_of(&tokens[i]) {
            Some(Op::Neg) | Some(Op::Mul) | Some(Op::Div) => {
                if i + 1 >= n {
                    assert(is_op(tokens@[i as int], Op::Neg) || is_multiplicative(tokens@[i as int]));
                    return false;
                }
            },
            _ => {},
        }
        i = i + 1;
    }
    true
}

/// The value of the expression `s`, or `MalformedInput` where this rule set
/// cannot read it, or `ArithmeticFault` where its tree divides by zero or
/// overflows.
pub fn try_calculate(s: &str) -> (r: Result<i32, CalcError>)
    ensures
        r matches Ok(n) ==> calculable(s@) && tree_of(prioritised(s@)).eval() == Some(n as int),
        calculable(s@) ==> r is Ok,
        r == Err::<i32, CalcError>(CalcError::ArithmeticFault) <==> readable(s@) && tree_of(
            prioritised(s@),
        ).eval() is None,
        r == Err::<i32, CalcError>(CalcError::MalformedInput) <==> !readable(s@),
{
    let mut list = match try_build_token_list(s) {
        Some(list) => list,
        None => return Err(CalcError::MalformedInput),
    };
    if list.len() > 65535 {
        proof {
            assert(lexed(s@)[0].priority == 0);
        }
        return Err(CalcError::MalformedInput);
    }
    if !check_right_operands(&list) {
        return Err(CalcError::MalformedInput);
    }
    calculate_priority(&mut list);
    proof {
        lemma_prioritised(s@, list@);
    }
    let tree = build_tree(list.as_slice())?;
    proof {
        lemma_tree_well_formed(list@);
    }
    evaluate(&tree)
}

} // verus!
