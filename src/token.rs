use vstd::prelude::*;

use crate::expr::{Op, Value};

verus! {

/// What a token stands for: a literal or an operator.
#[derive(Debug, PartialEq)]
pub enum TokenInfo {
    Value(Value),
    Op(Op),
}

/// A token and its priority, its distance from the root of the tree.
#[derive(Debug, PartialEq)]
pub struct Token {
    pub token_info: TokenInfo,
    pub priority: u16,
}

pub open spec fn is_op(t: Token, op: Op) -> bool {
    t.token_info == TokenInfo::Op(op)
}

pub open spec fn is_additive(t: Token) -> bool {
    is_op(t, Op::Add) || is_op(t, Op::Sub)
}

pub open spec fn is_multiplicative(t: Token) -> bool {
    is_op(t, Op::Mul) || is_op(t, Op::Div)
}

/// The priorities of `s`, as integers.
pub open spec fn priorities(s: Seq<Token>) -> Seq<int> {
    Seq::new(s.len(), |j: int| s[j].priority as int)
}

/// What the tokens of `s` stand for, without their priorities.
pub open spec fn kinds(s: Seq<Token>) -> Seq<TokenInfo> {
    Seq::new(s.len(), |j: int| s[j].token_info)
}

/// No priority of `s` can overflow during a pass: each token is raised at
/// most once per operator.
pub open spec fn priorities_have_room(s: Seq<Token>) -> bool {
    forall|j: int| 0 <= j < s.len() ==> s[j].priority + s.len() <= u16::MAX
}

/// Index just after the nearest additive operator left of `i`, or 0.
pub open spec fn run_start(s: Seq<Token>, i: int) -> int
    decreases i,
{
    if i <= 0 {
        0
    } else if is_additive(s[i - 1]) {
        i
    } else {
        run_start(s, i - 1)
    }
}

/// Every operator has the neighbours that its rule writes to: the operand
/// after a negation, and both operands of a multiplication or division.
pub open spec fn has_operands(s: Seq<Token>) -> bool {
    forall|i: int|
        0 <= i < s.len() ==> {
            &&& is_op(#[trigger] s[i], Op::Neg) ==> i + 1 < s.len()
            &&& is_multiplicative(s[i]) ==> 1 <= i && i + 1 < s.len()
        }
}

/// The rule of the operator at `i`, applied to the priorities `p`:
/// a negation puts its operand one level below itself; a multiplication or
/// division pushes its two neighbours one level down; an addition or
/// subtraction pushes down everything to its right and everything to its
/// left back to the previous additive operator.
pub open spec fn priority_step(s: Seq<Token>, p: Seq<int>, i: int) -> Seq<int> {
    if is_op(s[i], Op::Neg) {
        p.update(i + 1, p[i] + 1)
    } else if is_multiplicative(s[i]) {
        p.update(i - 1, p[i - 1] + 1).update(i + 1, p[i + 1] + 1)
    } else if is_additive(s[i]) {
        Seq::new(
            p.len(),
            |j: int|
                if run_start(s, i) <= j < i || i < j {
                    p[j] + 1
                } else {
                    p[j]
                },
        )
    } else {
        p
    }
}

/// The priorities after the rules of the first `k` tokens, left to right.
pub open spec fn priority_pass(s: Seq<Token>, p: Seq<int>, k: int) -> Seq<int>
    decreases k,
{
    if k <= 0 {
        p
    } else {
        priority_step(s, priority_pass(s, p, k - 1), k - 1)
    }
}

/// The priorities that a full pass gives the tokens `s`.
pub open spec fn assigned_priorities(s: Seq<Token>) -> Seq<int> {
    priority_pass(s, priorities(s), s.len() as int)
}

pub(crate) proof fn lemma_run_start(s: Seq<Token>, i: int, j: int)
    requires
        0 <= j <= i <= s.len(),
        j == 0 || is_additive(s[j - 1]),
        forall|k: int| j <= k < i ==> !is_additive(#[trigger] s[k]),
    ensures
        run_start(s, i) == j,
    decreases i,
{
    if i > j {
        lemma_run_start(s, i - 1, j);
    }
}

pub(crate) fn op_of(t: &Token) -> (r: Option<Op>)
    ensures
        r matches Some(op) ==> t.token_info == TokenInfo::Op(op),
        r is None ==> t.token_info is Value,
{
    match &t.token_info {
        TokenInfo::Op(op) => Some(*op),
        TokenInfo::Value(_) => None,
    }
}

pub(crate) fn is_additive_token(t: &Token) -> (r: bool)
    ensures
        r == is_additive(*t),
{
    match op_of(t) {
        Some(Op::Add) | Some(Op::Sub) => true,
        _ => false,
    }
}

/// Decides whether every operator has the neighbours that its rule writes
/// to (see `has_operands`).
pub fn check_operands(tokens: &[Token]) -> (r: bool)
    ensures
        r == has_operands(tokens@),
{
    let n = tokens.len();
    let mut i: usize = 0;
    while i < n
        invariant
            n == tokens@.len(),
            i <= n,
            forall|j: int|
                0 <= j < i ==> {
                    &&& is_op(#[trigger] tokens@[j], Op::Neg) ==> j + 1 < n
                    &&& is_multiplicative(tokens@[j]) ==> 1 <= j && j + 1 < n
                },
        decreases n - i,
    {
        match op_of(&tokens[i]) {
            Some(Op::Neg) => {
                if i + 1 >= n {
                    assert(is_op(tokens@[i as int], Op::Neg));
                    return false;
                }
            },
            Some(Op::Mul) | Some(Op::Div) => {
                if i == 0 || i + 1 >= n {
                    assert(is_multiplicative(tokens@[i as int]));
                    return false;
                }
            },
            _ => {},
        }
        i = i + 1;
    }
    true
}

/// Sets the priority of the token at `j` to `v`.
pub(crate) fn set_priority(token_list: &mut Vec<Token>, j: usize, v: u16)
    requires
        j < old(token_list).len(),
    ensures
        final(token_list).len() == old(token_list).len(),
        kinds(final(token_list)@) == kinds(old(token_list)@),
        priorities(final(token_list)@) == priorities(old(token_list)@).update(j as int, v as int),
{
    token_list[j].priority = v;
    proof {
        assert(kinds(token_list@) =~= kinds(old(token_list)@));
        assert(priorities(token_list@) =~= priorities(old(token_list)@).update(j as int, v as int));
    }
}

/// Raises the priority of the token at `j` by one.
pub(crate) fn raise(token_list: &mut Vec<Token>, j: usize)
    requires
        j < old(token_list).len(),
        old(token_list)[j as int].priority < u16::MAX,
    ensures
        final(token_list).len() == old(token_list).len(),
        kinds(final(token_list)@) == kinds(old(token_list)@),
        priorities(final(token_list)@) == priorities(old(token_list)@).update(
            j as int,
            priorities(old(token_list)@)[j as int] + 1,
        ),
{
    let p = token_list[j].priority;
    set_priority(token_list, j, p + 1);
}

/// Assigns each token its priority, in place: one pass from left to right
/// applies the rule of each operator (see `priority_step`), so that the
/// lowest priority of any range marks the root of the tree built from it.
pub fn calculate_priority(token_list: &mut Vec<Token>)
    requires
        has_operands(old(token_list)@),
        priorities_have_room(old(token_list)@),
    ensures
        final(token_list).len() == old(token_list).len(),
        kinds(final(token_list)@) == kinds(old(token_list)@),
        priorities(final(token_list)@) == assigned_priorities(old(token_list)@),
{
    let ghost s = token_list@;
    let n = token_list.len();
    let mut idx: usize = 0;
    while idx < n
        invariant
            token_list.len() == n == s.len(),
            has_operands(s),
            priorities_have_room(s),
            idx <= n,
            kinds(token_list@) == kinds(s),
            priorities(token_list@) == priority_pass(s, priorities(s), idx as int),
            forall|j: int| 0 <= j < n ==> #[trigger] priorities(token_list@)[j] <= u16::MAX - n + idx,
        decreases n - idx,
    {
        let ghost p0 = priorities(token_list@);
        proof {
            assert(kinds(token_list@)[idx as int] == kinds(s)[idx as int]);
        }
        match op_of(&token_list[idx]) {
            Some(Op::Neg) => {
                assert(priorities(token_list@)[idx as int] <= u16::MAX - n + idx);
                let v = token_list[idx].priority + 1;
                set_priority(token_list, idx + 1, v);
            },
            Some(Op::Mul) | Some(Op::Div) => {
                assert(p0[idx - 1] <= u16::MAX - n + idx);
                raise(token_list, idx - 1);
                assert(priorities(token_list@)[idx + 1] == p0[idx + 1]);
                raise(token_list, idx + 1);
            },
            Some(_) => {
                let mut j: usize = idx;
                let mut stop = false;
                while j > 0 && !stop
                    invariant
                        token_list.len() == n == s.len(),
                        idx < n,
                        j <= idx,
                        kinds(token_list@) == kinds(s),
                        stop ==> j > 0 && is_additive(s[j - 1]),
                        forall|k: int| j <= k < idx ==> !is_additive(#[trigger] s[k]),
                        forall|k: int| 0 <= k < n ==> #[trigger] p0[k] <= u16::MAX - n + idx,
                        p0.len() == n,
                        priorities(token_list@) == Seq::new(
                            n as nat,
                            |k: int|
                                if j <= k < idx {
                                    p0[k] + 1
                                } else {
                                    p0[k]
                                },
                        ),
                    decreases j + (if stop { 0int } else { 1int }),
                {
                    proof {
                        assert(kinds(token_list@)[j - 1] == kinds(s)[j - 1]);
                    }
                    if is_additive_token(&token_list[j - 1]) {
                        stop = true;
                    } else {
                        assert(priorities(token_list@)[j - 1] == p0[j - 1]);
                        raise(token_list, j - 1);
                        j = j - 1;
                        proof {
                            assert(priorities(token_list@) =~= Seq::new(
                                n as nat,
                                |k: int|
                                    if j <= k < idx {
                                        p0[k] + 1
                                    } else {
                                        p0[k]
                                    },
                            ));
                        }
                    }
                }
                proof {
                    lemma_run_start(s, idx as int, j as int);
                }
                let mut k: usize = idx + 1;
                while k < n
                    invariant
                        token_list.len() == n == s.len(),
                        idx < k <= n,
                        j <= idx,
                        kinds(token_list@) == kinds(s),
                        forall|m: int| 0 <= m < n ==> #[trigger] p0[m] <= u16::MAX - n + idx,
                        p0.len() == n,
                        priorities(token_list@) == Seq::new(
                            n as nat,
                            |m: int|
                                if (j <= m < idx) || (idx < m < k) {
                                    p0[m] + 1
                                } else {
                                    p0[m]
                                },
                        ),
                    decreases n - k,
                {
                    assert(priorities(token_list@)[k as int] == p0[k as int]);
                    raise(token_list, k);
                    k = k + 1;
                    proof {
                        assert(priorities(token_list@) =~= Seq::new(
                            n as nat,
                            |m: int|
                                if (j <= m < idx) || (idx < m < k) {
                                    p0[m] + 1
                                } else {
                                    p0[m]
                                },
                        ));
                    }
                }
            },
            None => {},
        }
        proof {
            assert(priorities(token_list@) =~= priority_step(s, p0, idx as int));
        }
        idx = idx + 1;
    }
}

} // verus!
