//! Reduction of a token sequence to a single integer.

use vstd::prelude::*;

use crate::tokenizer::{OperationType, Token};

verus! {

/// The exact result of one checked binary operation on `i64` operands.
pub open spec fn spec_checked_op(op: OperationType, a: int, b: int) -> Option<i64> {
    let v = match op {
        OperationType::Addition => a + b,
        OperationType::Subtraction => a - b,
    };
    if i64::MIN <= v && v <= i64::MAX {
        Some(v as i64)
    } else {
        None
    }
}

/// The value a token carries, read only at positions that hold values.
pub open spec fn val_of(t: Token) -> i64 {
    match t {
        Token::Value(v) => v,
        Token::Operator(_) => 0,
    }
}

/// Whether a token is an operator.
pub open spec fn is_operator(t: Token) -> bool {
    t is Operator
}

/// The position of the first operator token of `s`, or `s.len()` when
/// there is none. Every earlier position holds a value token.
pub open spec fn first_op_index(s: Seq<Token>) -> int
    decreases s.len(),
{
    if s.len() == 0 {
        0
    } else if is_operator(s[0]) {
        0
    } else {
        1 + first_op_index(s.drop_first())
    }
}

/// The operator kinds of `s`, in their original order.
pub open spec fn ops_of(s: Seq<Token>) -> Seq<OperationType>
    decreases s.len(),
{
    if s.len() == 0 {
        Seq::empty()
    } else {
        match s.last() {
            Token::Operator(op) => ops_of(s.drop_last()).push(op),
            Token::Value(_) => ops_of(s.drop_last()),
        }
    }
}

/// The values that stand before the first operator of `s`, in order.
pub open spec fn value_prefix(s: Seq<Token>) -> Seq<i64> {
    Seq::new(first_op_index(s) as nat, |i: int| val_of(s[i]))
}

/// The result of folding the operators `ops[k..]` over the value prefix
/// `vs`, with running result `acc`. Operator `k` consumes `vs[k + 1]`;
/// a missing value slot or an `i64` overflow fails the whole fold.
pub open spec fn reduce_from(vs: Seq<i64>, ops: Seq<OperationType>, k: int, acc: i64) -> Option<
    i64,
>
    decreases ops.len() - k,
{
    if k >= ops.len() {
        Some(acc)
    } else if k + 1 >= vs.len() {
        None
    } else {
        match spec_checked_op(ops[k], acc as int, vs[k + 1] as int) {
            Some(r) => reduce_from(vs, ops, k + 1, r),
            None => None,
        }
    }
}

/// The result of evaluating a token sequence: 0 for the empty sequence;
/// failure when there are tokens but no operator, or when fewer than two
/// values stand before the first operator; otherwise the left fold of the
/// operators over the value prefix, seeded with its first value.
pub open spec fn eval_tokens(s: Seq<Token>) -> Option<i64> {
    if s.len() == 0 {
        Some(0)
    } else if ops_of(s).len() == 0 {
        None
    } else if first_op_index(s) < 2 {
        None
    } else {
        reduce_from(value_prefix(s), ops_of(s), 0, value_prefix(s)[0])
    }
}

/// The operators of a concatenation are the operators of each part,
/// concatenated.
proof fn lemma_ops_of_concat(a: Seq<Token>, b: Seq<Token>)
    ensures
        ops_of(a + b) == ops_of(a) + ops_of(b),
    decreases b.len(),
{
    if b.len() == 0 {
        assert(a + b =~= a);
        assert(ops_of(a) + ops_of(b) =~= ops_of(a));
    } else {
        assert((a + b).drop_last() =~= a + b.drop_last());
        assert((a + b).last() == b.last());
        lemma_ops_of_concat(a, b.drop_last());
        match b.last() {
            Token::Operator(op) => {
                assert(ops_of(b) == ops_of(b.drop_last()).push(op));
                assert((ops_of(a) + ops_of(b.drop_last())).push(op) =~= ops_of(a) + ops_of(
                    b.drop_last(),
                ).push(op));
            },
            Token::Value(_) => {},
        }
    }
}

/// The operators of a one-token sequence.
proof fn lemma_ops_of_single(t: Token)
    ensures
        ops_of(seq![t]) == (match t {
            Token::Operator(op) => seq![op],
            Token::Value(_) => Seq::<OperationType>::empty(),
        }),
{
    reveal_with_fuel(ops_of, 2);
    assert(seq![t].drop_last() =~= Seq::<Token>::empty());
    assert(seq![t].last() == t);
    match t {
        Token::Operator(op) => {
            assert(Seq::<OperationType>::empty().push(op) =~= seq![op]);
        },
        Token::Value(_) => {},
    }
}

/// A sequence has no operator token exactly when its operator list is
/// empty.
proof fn lemma_ops_of_empty(s: Seq<Token>)
    ensures
        ops_of(s).len() == 0 <==> (forall|i: int| 0 <= i < s.len() ==> !is_operator(s[i])),
    decreases s.len(),
{
    if s.len() > 0 {
        lemma_ops_of_empty(s.drop_last());
        assert(forall|i: int|
            0 <= i < s.len() - 1 ==> s.drop_last()[i] == s[i]);
        if ops_of(s).len() == 0 {
            assert(!is_operator(s.last()));
            assert(forall|i: int| 0 <= i < s.len() ==> !is_operator(s[i]));
        }
    }
}

/// The first operator of `s` stands at `t` when everything before `t` is
/// a value and `t` is an operator or the end of the sequence.
proof fn lemma_first_op_index_at(s: Seq<Token>, t: int)
    requires
        0 <= t <= s.len(),
        forall|i: int| 0 <= i < t ==> !is_operator(s[i]),
        t < s.len() ==> is_operator(s[t]),
    ensures
        first_op_index(s) == t,
    decreases t,
{
    if t == 0 {
        if s.len() > 0 {
            assert(is_operator(s[0]));
        }
    } else {
        assert(!is_operator(s[0]));
        assert(forall|i: int|
            0 <= i < t - 1 ==> s.drop_first()[i] == s[i + 1]);
        lemma_first_op_index_at(s.drop_first(), t - 1);
    }
}

/// Applies one operator with overflow detection: the exact sum or
/// difference when it fits in `i64`, and `None` otherwise.
pub fn process_operation(operator: &OperationType, value_a: i64, value_b: i64) -> (r: Option<
    i64,
>)
    ensures
        r == spec_checked_op(*operator, value_a as int, value_b as int),
{
    match operator {
        OperationType::Addition => value_a.checked_add(value_b),
        OperationType::Subtraction => value_a.checked_sub(value_b),
    }
}

/// Whether a token is a value token, decided at run time.
fn token_is_value(t: &Token) -> (r: bool)
    ensures
        r == !is_operator(*t),
{
    match t {
        Token::Value(_) => true,
        Token::Operator(_) => false,
    }
}

/// Reduces a token sequence to `Some` result or `None` on a malformed
/// sequence or an overflow, exactly as `eval_tokens` states: the empty
/// sequence gives 0; a non-empty sequence without an operator, or with
/// fewer than two values before its first operator, fails; otherwise the
/// operators are folded left to right over the value prefix, each
/// consuming the next value slot, with checked arithmetic.
pub fn process_token_list(tokens: &[Token]) -> (r: Option<i64>)
    ensures
        r == eval_tokens(tokens@),
{
    let ghost s = tokens@;
    let n = tokens.len();
    if n == 0 {
        return Some(0);
    }
    let mut t: usize = 0;
    while t < n && token_is_value(&tokens[t])
        invariant
            s == tokens@,
            n == s.len(),
            t <= n,
            forall|i: int| 0 <= i < t ==> !is_operator(s[i]),
        decreases n - t,
    {
        t += 1;
    }
    proof {
        lemma_first_op_index_at(s, t as int);
    }
    if t == n {
        proof {
            lemma_ops_of_empty(s);
        }
        return None;
    }
    if t < 2 {
        return None;
    }
    proof {
        lemma_ops_of_empty(s);
        assert(is_operator(s[t as int]));
        assert(ops_of(s).len() > 0);
    }
    let mut acc: i64;
    match tokens[0] {
        Token::Value(v) => {
            acc = v;
        },
        Token::Operator(_) => {
            proof {
                assert(!is_operator(s[0]));
                assert(false);
            }
            acc = 0;
        },
    }
    let mut j: usize = t;
    let mut k: usize = 0;
    proof {
        lemma_ops_of_empty(s.take(t as int));
        assert(forall|i: int| 0 <= i < t ==> s.take(t as int)[i] == s[i]);
        assert(ops_of(s.take(t as int)) =~= ops_of(s).take(0));
        assert(acc == value_prefix(s)[0]);
    }
    while j < n
        invariant
            s == tokens@,
            n == s.len(),
            2 <= t <= j <= n,
            t < n,
            t == first_op_index(s),
            is_operator(s[t as int]),
            ops_of(s).len() > 0,
            forall|i: int| 0 <= i < t ==> !is_operator(s[i]),
            k <= j,
            k <= ops_of(s).len(),
            k == ops_of(s.take(j as int)).len(),
            ops_of(s.take(j as int)) == ops_of(s).take(k as int),
            reduce_from(value_prefix(s), ops_of(s), 0, value_prefix(s)[0]) == reduce_from(
                value_prefix(s),
                ops_of(s),
                k as int,
                acc,
            ),
        decreases n - j,
    {
        let tok = tokens[j];
        proof {
            assert(s.take(j as int + 1) =~= s.take(j as int) + seq![s[j as int]]);
            lemma_ops_of_concat(s.take(j as int), seq![s[j as int]]);
            lemma_ops_of_single(s[j as int]);
            lemma_ops_of_concat(s.take(j as int + 1), s.skip(j as int + 1));
            assert(s.take(j as int + 1) + s.skip(j as int + 1) =~= s);
        }
        match tok {
            Token::Operator(op) => {
                proof {
                    assert(ops_of(seq![s[j as int]]) =~= seq![op]);
                    assert(ops_of(s.take(j as int + 1)) =~= ops_of(s).take(k as int).push(op));
                    assert(ops_of(s).len() >= k + 1);
                    assert(ops_of(s)[k as int] == op);
                    assert(ops_of(s.take(j as int + 1)) =~= ops_of(s).take(k as int + 1));
                    assert(value_prefix(s).len() == t);
                }
                if k + 1 < t {
                    let b: i64;
                    match tokens[k + 1] {
                        Token::Value(v) => {
                            b = v;
                        },
                        Token::Operator(_) => {
                            proof {
                                assert(!is_operator(s[k as int + 1]));
                                assert(false);
                            }
                            b = 0;
                        },
                    }
                    proof {
                        assert(b == value_prefix(s)[k as int + 1]);
                    }
                    match process_operation(&op, acc, b) {
                        Some(r2) => {
                            acc = r2;
                            k += 1;
                        },
                        None => {
                            return None;
                        },
                    }
                } else {
                    return None;
                }
            },
            Token::Value(_) => {
                proof {
                    assert(ops_of(seq![s[j as int]]) =~= Seq::<OperationType>::empty());
                    assert(ops_of(s.take(j as int + 1)) =~= ops_of(s).take(k as int));
                }
            },
        }
        j += 1;
    }
    proof {
        assert(s.take(n as int) =~= s);
        assert(k == ops_of(s).len());
    }
    Some(acc)
}

} // verus!
