//! Lexical scanning of arithmetic expressions.
//!
//! The scanner walks the input left to right: `+` and `-` become operator
//! tokens, maximal digit runs become value tokens, and every other
//! character is skipped. A digit run whose value does not fit in `u32`
//! aborts tokenization. After scanning, the token list is stably
//! partitioned so that all values come before all operators, each group
//! keeping its original order; the evaluator consumes that canonical form.

use vstd::prelude::*;

verus! {

/// The operator carried by an operator token.
#[derive(Debug, PartialEq, Eq, Structural, Clone, Copy)]
pub enum OperationType {
    Addition,
    Subtraction,
}

/// One lexical unit: a non-negative numeric value or an operator.
#[derive(Debug, PartialEq, Eq, Structural, Clone, Copy)]
pub enum Token {
    Value(i64),
    Operator(OperationType),
}

impl Token {
    /// Returns the carried integer of a value token, and `None` for an
    /// operator token.
    pub fn get_opt_value(&self) -> (r: Option<i64>)
        ensures
            r == spec_opt_value(*self),
    {
        match self {
            Token::Value(value) => Some(*value),
            _ => None,
        }
    }
}

/// The integer a value token carries; `None` for an operator token.
pub open spec fn spec_opt_value(t: Token) -> Option<i64> {
    match t {
        Token::Value(value) => Some(value),
        Token::Operator(_) => None,
    }
}

/// The numeric value of a decimal digit character.
pub open spec fn char_val(c: char) -> int {
    c as u32 - 48
}

/// Whether `c` is a decimal digit.
pub open spec fn is_digit_char(c: char) -> bool {
    48 <= c as u32 && c as u32 <= 57
}

/// Whether `c` starts or extends a token: a digit, `+`, or `-`.
/// Every other character is skipped by the scanner.
pub open spec fn is_token_char(c: char) -> bool {
    is_digit_char(c) || c == '+' || c == '-'
}

/// The digit accumulator after one more digit: `None` stands for "no run
/// in progress", which acts as an accumulator of zero.
pub open spec fn acc_step(cur: Option<int>, c: char) -> int {
    (match cur {
        Option::None => 0,
        Option::Some(n) => n,
    }) * 10 + char_val(c)
}

/// The token emitted when a digit run ends: nothing if no run was in
/// progress, else one value token.
pub open spec fn flush(cur: Option<int>) -> Seq<Token> {
    match cur {
        Option::None => Seq::empty(),
        Option::Some(n) => seq![Token::Value(n as i64)],
    }
}

/// The tokens scanned from `s` when a digit run with accumulator `cur`
/// is in progress. The scanner is greedy: a digit extends the run, any
/// other character (or the end of input) ends it.
pub open spec fn scan_from(s: Seq<char>, cur: Option<int>) -> Seq<Token>
    decreases s.len(),
{
    if s.len() == 0 {
        flush(cur)
    } else if is_digit_char(s[0]) {
        scan_from(s.drop_first(), Some(acc_step(cur, s[0])))
    } else if s[0] == '+' {
        flush(cur) + seq![Token::Operator(OperationType::Addition)]
            + scan_from(s.drop_first(), None)
    } else if s[0] == '-' {
        flush(cur) + seq![Token::Operator(OperationType::Subtraction)]
            + scan_from(s.drop_first(), None)
    } else {
        flush(cur) + scan_from(s.drop_first(), None)
    }
}

/// The tokens of `s` in source order, before canonicalization.
pub open spec fn scan(s: Seq<char>) -> Seq<Token> {
    scan_from(s, None)
}

/// Whether every digit run of `s`, continued from accumulator `cur`,
/// stays within `u32` when complete.
pub open spec fn scan_ok_from(s: Seq<char>, cur: Option<int>) -> bool
    decreases s.len(),
{
    if s.len() == 0 {
        cur_ok(cur)
    } else if is_digit_char(s[0]) {
        scan_ok_from(s.drop_first(), Some(acc_step(cur, s[0])))
    } else {
        cur_ok(cur) && scan_ok_from(s.drop_first(), None)
    }
}

/// Whether a finished digit accumulator fits in `u32`.
pub open spec fn cur_ok(cur: Option<int>) -> bool {
    match cur {
        Option::None => true,
        Option::Some(n) => n <= u32::MAX,
    }
}

/// Whether tokenization of `s` succeeds: every digit run fits in `u32`.
pub open spec fn scan_ok(s: Seq<char>) -> bool {
    scan_ok_from(s, None)
}

/// The value tokens of `s`, in their original order.
pub open spec fn values_of(s: Seq<Token>) -> Seq<Token>
    decreases s.len(),
{
    if s.len() == 0 {
        Seq::empty()
    } else if s.last() is Value {
        values_of(s.drop_last()).push(s.last())
    } else {
        values_of(s.drop_last())
    }
}

/// The operator tokens of `s`, in their original order.
pub open spec fn operators_of(s: Seq<Token>) -> Seq<Token>
    decreases s.len(),
{
    if s.len() == 0 {
        Seq::empty()
    } else if s.last() is Operator {
        operators_of(s.drop_last()).push(s.last())
    } else {
        operators_of(s.drop_last())
    }
}

/// The canonical form of a token sequence: the stable partition that
/// places every value before every operator.
pub open spec fn canonical(s: Seq<Token>) -> Seq<Token> {
    values_of(s) + operators_of(s)
}

/// Dropping the first element of a suffix advances the suffix by one.
proof fn lemma_skip_step(s: Seq<char>, i: int)
    requires
        0 <= i < s.len(),
    ensures
        s.skip(i).len() == s.len() - i,
        s.skip(i)[0] == s[i],
        s.skip(i).drop_first() == s.skip(i + 1),
{
    assert(s.skip(i).drop_first() =~= s.skip(i + 1));
}

/// Ending a digit run at a non-digit boundary emits one value token and
/// leaves the rest of the scan unchanged.
proof fn lemma_flush_boundary(x: Seq<char>, n: int)
    requires
        x.len() == 0 || !is_digit_char(x[0]),
    ensures
        scan_from(x, Some(n)) == seq![Token::Value(n as i64)] + scan_from(x, None),
        scan_ok_from(x, Some(n)) == (n <= u32::MAX && scan_ok_from(x, None)),
{
    if x.len() == 0 {
        assert(scan_from(x, Some(n)) =~= seq![Token::Value(n as i64)] + scan_from(x, None));
    } else if x[0] == '+' {
        assert(flush(Some(n)) + seq![Token::Operator(OperationType::Addition)] + scan_from(
            x.drop_first(),
            None,
        ) =~= seq![Token::Value(n as i64)] + (flush(None) + seq![
            Token::Operator(OperationType::Addition),
        ] + scan_from(x.drop_first(), None)));
    } else if x[0] == '-' {
        assert(flush(Some(n)) + seq![Token::Operator(OperationType::Subtraction)] + scan_from(
            x.drop_first(),
            None,
        ) =~= seq![Token::Value(n as i64)] + (flush(None) + seq![
            Token::Operator(OperationType::Subtraction),
        ] + scan_from(x.drop_first(), None)));
    } else {
        assert(flush(Some(n)) + scan_from(x.drop_first(), None) =~= seq![
            Token::Value(n as i64),
        ] + (flush(None) + scan_from(x.drop_first(), None)));
    }
}

/// A digit accumulator that has already outgrown `u32` can never recover:
/// the run it belongs to fails tokenization.
proof fn lemma_overflow_aborts(x: Seq<char>, n: int)
    requires
        n > u32::MAX,
    ensures
        !scan_ok_from(x, Some(n)),
    decreases x.len(),
{
    if x.len() == 0 {
    } else if is_digit_char(x[0]) {
        assert(acc_step(Some(n), x[0]) == n * 10 + char_val(x[0]));
        assert(char_val(x[0]) >= 0);
        lemma_overflow_aborts(x.drop_first(), acc_step(Some(n), x[0]));
    } else {
    }
}

/// The digit character for one decimal digit.
pub open spec fn digit_char(d: int) -> char {
    if d == 0 {
        '0'
    } else if d == 1 {
        '1'
    } else if d == 2 {
        '2'
    } else if d == 3 {
        '3'
    } else if d == 4 {
        '4'
    } else if d == 5 {
        '5'
    } else if d == 6 {
        '6'
    } else if d == 7 {
        '7'
    } else if d == 8 {
        '8'
    } else {
        '9'
    }
}

/// The decimal digit characters of a non-negative integer, most
/// significant first, with no leading zero except for 0 itself.
pub open spec fn dec_digits(n: int) -> Seq<char>
    decreases n,
{
    if n < 10 {
        seq![digit_char(n)]
    } else {
        dec_digits(n / 10).push(digit_char(n % 10))
    }
}

/// The literal textual form of one token.
pub open spec fn token_text(t: Token) -> Seq<char> {
    match t {
        Token::Value(v) => dec_digits(v as int),
        Token::Operator(OperationType::Addition) => seq!['+'],
        Token::Operator(OperationType::Subtraction) => seq!['-'],
    }
}

/// A token sequence written back out as text: each token in its literal
/// textual form, preceded by a blank so that neighbouring values stay
/// separate.
pub open spec fn render(ts: Seq<Token>) -> Seq<char>
    decreases ts.len(),
{
    if ts.len() == 0 {
        Seq::empty()
    } else {
        seq![' '] + token_text(ts[0]) + render(ts.drop_first())
    }
}

/// The accumulator after reading the digit characters of `d`, left to
/// right, starting from `a`.
pub open spec fn acc_val(a: int, d: Seq<char>) -> int
    decreases d.len(),
{
    if d.len() == 0 {
        a
    } else {
        acc_val(a * 10 + char_val(d[0]), d.drop_first())
    }
}

/// Whether every character of `d` is a decimal digit.
pub open spec fn all_digits(d: Seq<char>) -> bool {
    forall|i: int| 0 <= i < d.len() ==> is_digit_char(d[i])
}

/// Whether every value token of `ts` carries an integer that the
/// tokenizer itself could produce.
pub open spec fn values_in_range(ts: Seq<Token>) -> bool {
    forall|i: int|
        0 <= i < ts.len() ==> (#[trigger] ts[i] matches Token::Value(v) ==> 0 <= v && v
            <= u32::MAX)
}

/// Reading one more digit multiplies the accumulator by ten and adds it.
proof fn lemma_acc_val_push(a: int, d: Seq<char>, c: char)
    ensures
        acc_val(a, d.push(c)) == acc_val(a, d) * 10 + char_val(c),
    decreases d.len(),
{
    if d.len() == 0 {
        reveal_with_fuel(acc_val, 2);
        assert(d.push(c)[0] == c);
        assert(d.push(c).drop_first() =~= Seq::<char>::empty());
    } else {
        assert(d.push(c)[0] == d[0]);
        assert(d.push(c).drop_first() =~= d.drop_first().push(c));
        lemma_acc_val_push(a * 10 + char_val(d[0]), d.drop_first(), c);
    }
}

/// The decimal digits of a non-negative integer read back to the same
/// integer, are all digits, and are never empty.
proof fn lemma_dec_digits(n: int)
    requires
        n >= 0,
    ensures
        all_digits(dec_digits(n)),
        dec_digits(n).len() >= 1,
        acc_val(0, dec_digits(n)) == n,
    decreases n,
{
    if n < 10 {
        reveal_with_fuel(acc_val, 2);
        assert(is_digit_char(digit_char(n)));
        assert(char_val(digit_char(n)) == n);
        assert(seq![digit_char(n)].drop_first() =~= Seq::<char>::empty());
    } else {
        lemma_dec_digits(n / 10);
        lemma_acc_val_push(0, dec_digits(n / 10), digit_char(n % 10));
        assert(char_val(digit_char(n % 10)) == n % 10);
        assert(forall|i: int|
            0 <= i < dec_digits(n / 10).len() ==> #[trigger] dec_digits(n / 10).push(
                digit_char(n % 10),
            )[i] == dec_digits(n / 10)[i]);
    }
}

/// Scanning a digit sequence accumulates its value into the run.
proof fn lemma_digits_accumulate(d: Seq<char>, r: Seq<char>, a: int)
    requires
        all_digits(d),
    ensures
        scan_from(d + r, Some(a)) == scan_from(r, Some(acc_val(a, d))),
        scan_ok_from(d + r, Some(a)) == scan_ok_from(r, Some(acc_val(a, d))),
    decreases d.len(),
{
    if d.len() == 0 {
        assert(d + r =~= r);
    } else {
        assert((d + r)[0] == d[0]);
        assert((d + r).drop_first() =~= d.drop_first() + r);
        lemma_digits_accumulate(d.drop_first(), r, a * 10 + char_val(d[0]));
    }
}

/// Scanning the rendered text of a token sequence gives back exactly
/// that sequence, and always succeeds, provided every value is one the
/// tokenizer could produce.
pub proof fn lemma_scan_render(ts: Seq<Token>)
    requires
        values_in_range(ts),
    ensures
        scan_ok(render(ts)),
        scan(render(ts)) == ts,
    decreases ts.len(),
{
    if ts.len() == 0 {
    } else {
        let t0 = ts[0];
        let rest = ts.drop_first();
        let rr = render(rest);
        assert(forall|i: int| 0 <= i < rest.len() ==> rest[i] == ts[i + 1]);
        lemma_scan_render(rest);
        let body = token_text(t0) + rr;
        assert(render(ts) == seq![' '] + token_text(t0) + rr);
        assert(render(ts)[0] == ' ');
        assert(render(ts).drop_first() =~= body);
        assert(scan_from(render(ts), None) == flush(None) + scan_from(body, None));
        if rest.len() > 0 {
            assert(rr[0] == ' ');
            assert(!is_digit_char(' '));
        }
        match t0 {
            Token::Value(v) => {
                assert(0 <= v && v <= u32::MAX);
                let d = dec_digits(v as int);
                lemma_dec_digits(v as int);
                assert(body[0] == d[0]);
                assert(body.drop_first() =~= d.drop_first() + rr);
                assert(scan_from(body, None) == scan_from(
                    d.drop_first() + rr,
                    Some(acc_step(None, d[0])),
                ));
                assert(scan_ok_from(body, None) == scan_ok_from(
                    d.drop_first() + rr,
                    Some(acc_step(None, d[0])),
                ));
                assert(acc_step(None, d[0]) == char_val(d[0]));
                lemma_digits_accumulate(d.drop_first(), rr, char_val(d[0]));
                assert(acc_val(0, d) == acc_val(char_val(d[0]), d.drop_first()));
                lemma_flush_boundary(rr, v as int);
                assert(scan_from(body, None) == seq![t0] + scan_from(rr, None));
                assert(flush(None) + (seq![t0] + ts.drop_first()) =~= ts);
                assert(scan_ok_from(body, None) == scan_ok_from(rr, Some(v as int)));
                assert(scan_ok_from(rr, Some(v as int)));
            },
            Token::Operator(op) => {
                assert(body[0] == (match op {
                    OperationType::Addition => '+',
                    OperationType::Subtraction => '-',
                }));
                assert(body.drop_first() =~= rr);
                assert(scan_ok_from(body, None) == scan_ok_from(rr, None));
                assert(flush(None) + (flush(None) + seq![t0] + scan_from(rr, None)) =~= ts);
            },
        }
        assert(scan_ok_from(render(ts), None) == scan_ok_from(body, None));
    }
}

/// The value tokens of a concatenation are the value tokens of each
/// part, concatenated; likewise for the operator tokens.
proof fn lemma_partition_concat(a: Seq<Token>, b: Seq<Token>)
    ensures
        values_of(a + b) == values_of(a) + values_of(b),
        operators_of(a + b) == operators_of(a) + operators_of(b),
    decreases b.len(),
{
    if b.len() == 0 {
        assert(a + b =~= a);
        assert(values_of(a) + values_of(b) =~= values_of(a));
        assert(operators_of(a) + operators_of(b) =~= operators_of(a));
    } else {
        assert((a + b).drop_last() =~= a + b.drop_last());
        assert((a + b).last() == b.last());
        lemma_partition_concat(a, b.drop_last());
        if b.last() is Value {
            assert((values_of(a) + values_of(b.drop_last())).push(b.last()) =~= values_of(a)
                + values_of(b.drop_last()).push(b.last()));
        } else {
            assert((operators_of(a) + operators_of(b.drop_last())).push(b.last())
                =~= operators_of(a) + operators_of(b.drop_last()).push(b.last()));
        }
    }
}

/// Every token of `values_of(s)` is a value and every token of
/// `operators_of(s)` is an operator.
proof fn lemma_partition_kinds(s: Seq<Token>)
    ensures
        forall|i: int| 0 <= i < values_of(s).len() ==> #[trigger] values_of(s)[i] is Value,
        forall|i: int|
            0 <= i < operators_of(s).len() ==> #[trigger] operators_of(s)[i] is Operator,
    decreases s.len(),
{
    if s.len() > 0 {
        lemma_partition_kinds(s.drop_last());
    }
}

/// On a sequence of values alone, the partition is the identity; dually
/// for a sequence of operators alone.
proof fn lemma_partition_homogeneous(s: Seq<Token>)
    ensures
        (forall|i: int| 0 <= i < s.len() ==> #[trigger] s[i] is Value) ==> values_of(s) == s
            && operators_of(s) == Seq::<Token>::empty(),
        (forall|i: int| 0 <= i < s.len() ==> #[trigger] s[i] is Operator) ==> operators_of(s)
            == s && values_of(s) == Seq::<Token>::empty(),
    decreases s.len(),
{
    if s.len() == 0 {
    } else {
        lemma_partition_homogeneous(s.drop_last());
        assert(forall|i: int| 0 <= i < s.len() - 1 ==> #[trigger] s.drop_last()[i] == s[i]);
        if forall|i: int| 0 <= i < s.len() ==> #[trigger] s[i] is Value {
            assert(s.drop_last().push(s.last()) =~= s);
        }
        if forall|i: int| 0 <= i < s.len() ==> #[trigger] s[i] is Operator {
            assert(s.drop_last().push(s.last()) =~= s);
        }
    }
}

/// Canonicalizing is idempotent: a canonical sequence is left as it is.
pub proof fn lemma_canonical_idempotent(s: Seq<Token>)
    ensures
        canonical(canonical(s)) == canonical(s),
{
    let vs = values_of(s);
    let os = operators_of(s);
    lemma_partition_concat(vs, os);
    lemma_partition_kinds(s);
    lemma_partition_homogeneous(vs);
    lemma_partition_homogeneous(os);
    assert(values_of(canonical(s)) =~= vs);
    assert(operators_of(canonical(s)) =~= os);
}

/// Range claims survive concatenation.
proof fn lemma_range_concat(a: Seq<Token>, b: Seq<Token>)
    requires
        values_in_range(a),
        values_in_range(b),
    ensures
        values_in_range(a + b),
{
    assert forall|i: int| 0 <= i < (a + b).len() implies (#[trigger] (a + b)[i] matches
        Token::Value(v) ==> 0 <= v && v <= u32::MAX) by {
        if i < a.len() {
            assert((a + b)[i] == a[i]);
        } else {
            assert((a + b)[i] == b[i - a.len()]);
        }
    }
}

/// Range claims survive the stable partition.
proof fn lemma_range_partition(s: Seq<Token>)
    requires
        values_in_range(s),
    ensures
        values_in_range(values_of(s)),
        values_in_range(operators_of(s)),
    decreases s.len(),
{
    if s.len() > 0 {
        assert(forall|i: int| 0 <= i < s.len() - 1 ==> #[trigger] s.drop_last()[i] == s[i]);
        lemma_range_partition(s.drop_last());
        if s.last() is Value {
            lemma_range_concat(values_of(s.drop_last()), seq![s.last()]);
            assert(values_of(s.drop_last()) + seq![s.last()] =~= values_of(s.drop_last()).push(
                s.last(),
            ));
        } else {
            lemma_range_concat(operators_of(s.drop_last()), seq![s.last()]);
            assert(operators_of(s.drop_last()) + seq![s.last()] =~= operators_of(
                s.drop_last(),
            ).push(s.last()));
        }
    }
}

/// Every value token that a successful scan produces carries an integer
/// in `[0, u32::MAX]`.
proof fn lemma_scan_values_in_range_from(s: Seq<char>, cur: Option<int>)
    requires
        scan_ok_from(s, cur),
        cur matches Some(n) ==> n >= 0,
    ensures
        values_in_range(scan_from(s, cur)),
    decreases s.len(),
{
    if s.len() == 0 {
        match cur {
            Option::None => {},
            Option::Some(n) => {
                assert(flush(cur) == seq![Token::Value(n as i64)]);
            },
        }
    } else if is_digit_char(s[0]) {
        assert(char_val(s[0]) >= 0);
        lemma_scan_values_in_range_from(s.drop_first(), Some(acc_step(cur, s[0])));
    } else {
        lemma_scan_values_in_range_from(s.drop_first(), None);
        match cur {
            Option::None => {},
            Option::Some(n) => {
                assert(flush(cur) == seq![Token::Value(n as i64)]);
            },
        }
        assert(values_in_range(flush(cur)));
        if s[0] == '+' {
            lemma_range_concat(flush(cur), seq![Token::Operator(OperationType::Addition)]);
            lemma_range_concat(
                flush(cur) + seq![Token::Operator(OperationType::Addition)],
                scan_from(s.drop_first(), None),
            );
        } else if s[0] == '-' {
            lemma_range_concat(flush(cur), seq![Token::Operator(OperationType::Subtraction)]);
            lemma_range_concat(
                flush(cur) + seq![Token::Operator(OperationType::Subtraction)],
                scan_from(s.drop_first(), None),
            );
        } else {
            lemma_range_concat(flush(cur), scan_from(s.drop_first(), None));
        }
    }
}

/// Tokenizing text and rendering the canonical result back to its
/// literal textual form loses nothing: tokenizing that text again gives
/// the same canonical token sequence.
pub proof fn lemma_retokenize_canonical(s: Seq<char>)
    requires
        scan_ok(s),
    ensures
        scan_ok(render(canonical(scan(s)))),
        scan(render(canonical(scan(s)))) == canonical(scan(s)),
        canonical(scan(render(canonical(scan(s))))) == canonical(scan(s)),
{
    lemma_scan_values_in_range_from(s, None);
    lemma_range_partition(scan(s));
    lemma_range_concat(values_of(scan(s)), operators_of(scan(s)));
    lemma_scan_render(canonical(scan(s)));
    lemma_canonical_idempotent(scan(s));
}

/// Helper for `lemma_unrecognized_char_skipped`, generalized over a run
/// in progress: the character before the deleted one decides whether a
/// run could be split, and with no character before it the accumulator
/// does.
proof fn lemma_unrecognized_char_skipped_from(u: Seq<char>, c: char, v: Seq<char>, cur: Option<
    int,
>)
    requires
        !is_token_char(c),
        !((if u.len() > 0 {
            is_digit_char(u.last())
        } else {
            cur is Some
        }) && v.len() > 0 && is_digit_char(v[0])),
    ensures
        scan_from(u + seq![c] + v, cur) == scan_from(u + v, cur),
        scan_ok_from(u + seq![c] + v, cur) == scan_ok_from(u + v, cur),
    decreases u.len(),
{
    if u.len() == 0 {
        assert((u + seq![c] + v)[0] == c);
        assert((u + seq![c] + v).drop_first() =~= v);
        assert(u + v =~= v);
        match cur {
            Option::None => {
                assert(flush(None) + scan_from(v, None) =~= scan_from(v, None));
            },
            Option::Some(nv) => {
                lemma_flush_boundary(v, nv);
                assert(flush(Some(nv)) + scan_from(v, None) =~= seq![
                    Token::Value(nv as i64),
                ] + scan_from(v, None));
            },
        }
    } else {
        let a = u + seq![c] + v;
        let b = u + v;
        assert(a[0] == u[0]);
        assert(b[0] == u[0]);
        assert(a.drop_first() =~= u.drop_first() + seq![c] + v);
        assert(b.drop_first() =~= u.drop_first() + v);
        if u.len() > 1 {
            assert(u.drop_first().last() == u.last());
        }
        if is_digit_char(u[0]) {
            lemma_unrecognized_char_skipped_from(
                u.drop_first(),
                c,
                v,
                Some(acc_step(cur, u[0])),
            );
        } else {
            lemma_unrecognized_char_skipped_from(u.drop_first(), c, v, None);
        }
    }
}

/// Characters that are neither digits nor operators are ignored by the
/// scanner: deleting one from anywhere in the input leaves the token
/// sequence and the success of tokenization unchanged, as long as it
/// does not stand between two digits (there it separates two values
/// that would otherwise merge into one).
pub proof fn lemma_unrecognized_char_skipped(u: Seq<char>, c: char, v: Seq<char>)
    requires
        !is_token_char(c),
        !(u.len() > 0 && is_digit_char(u.last()) && v.len() > 0 && is_digit_char(v[0])),
    ensures
        scan(u + seq![c] + v) == scan(u + v),
        scan_ok(u + seq![c] + v) == scan_ok(u + v),
{
    lemma_unrecognized_char_skipped_from(u, c, v, None);
}

/// Consumes the maximal digit run of `s` that starts at `start`,
/// accumulating its decimal value. Returns the value token and the
/// position after the run, or `None` when the run's value does not fit
/// in `u32`, which fails tokenization of the whole input.
fn parse_int_token(s: &str, start: usize) -> (res: (Option<Token>, usize))
    requires
        start < s@.len(),
        is_digit_char(s@[start as int]),
    ensures
        start < res.1 <= s@.len(),
        match res.0 {
            Some(tk) => {
                &&& scan_from(s@.skip(start as int), None) == seq![tk] + scan_from(
                    s@.skip(res.1 as int),
                    None,
                )
                &&& scan_ok_from(s@.skip(start as int), None) == scan_ok_from(
                    s@.skip(res.1 as int),
                    None,
                )
                &&& tk is Value
            },
            None => !scan_ok_from(s@.skip(start as int), None),
        },
{
    let ghost sv = s@;
    let len = s.unicode_len();
    let c0 = s.get_char(start);
    let d0: u32 = (c0 as u32) - 48;
    let mut num: u64 = d0 as u64;
    let mut j: usize = start + 1;
    proof {
        lemma_skip_step(sv, start as int);
        assert(acc_step(None, sv[start as int]) == d0 as int);
    }
    loop
        invariant_except_break
            sv == s@,
            len == sv.len(),
            start < j <= len,
            num <= u32::MAX as u64,
            scan_from(sv.skip(start as int), None) == scan_from(
                sv.skip(j as int),
                Some(num as int),
            ),
            scan_ok_from(sv.skip(start as int), None) == scan_ok_from(
                sv.skip(j as int),
                Some(num as int),
            ),
        ensures
            sv == s@,
            len == sv.len(),
            start < j <= len,
            num <= u32::MAX as u64,
            j == len || !is_digit_char(sv[j as int]),
            scan_from(sv.skip(start as int), None) == scan_from(
                sv.skip(j as int),
                Some(num as int),
            ),
            scan_ok_from(sv.skip(start as int), None) == scan_ok_from(
                sv.skip(j as int),
                Some(num as int),
            ),
        decreases len - j,
    {
        if j == len {
            break ;
        }
        let c = s.get_char(j);
        let code: u32 = c as u32;
        if code < 48 || code > 57 {
            break ;
        }
        proof {
            lemma_skip_step(sv, j as int);
            assert(acc_step(Some(num as int), sv[j as int]) == num * 10 + (code - 48));
        }
        num = num * 10 + ((code - 48) as u64);
        j += 1;
        if num > u32::MAX as u64 {
            proof {
                lemma_overflow_aborts(sv.skip(j as int), num as int);
            }
            return (None, len);
        }
    }
    proof {
        if j < len {
            lemma_skip_step(sv, j as int);
        }
        lemma_flush_boundary(sv.skip(j as int), num as int);
    }
    (Some(Token::Value(num as i64)), j)
}

/// Scans `expression` left to right into tokens and canonicalizes the
/// result: `+` and `-` become operators, maximal digit runs become
/// values, and every other character is skipped. Returns `None` exactly
/// when some digit run's value does not fit in `u32`; otherwise the
/// canonical token sequence, every value first and every operator after,
/// each group in source order.
pub fn tokenize_expression(expression: &str) -> (r: Option<Vec<Token>>)
    ensures
        match r {
            Some(toks) => scan_ok(expression@) && toks@ == canonical(scan(expression@)),
            None => !scan_ok(expression@),
        },
{
    let ghost sv = expression@;
    let n = expression.unicode_len();
    let mut found: Vec<Token> = Vec::new();
    let mut i: usize = 0;
    proof {
        assert(sv.skip(0) =~= sv);
    }
    while i < n
        invariant
            sv == expression@,
            n == sv.len(),
            i <= n,
            scan_from(sv, None) == found@ + scan_from(sv.skip(i as int), None),
            scan_ok_from(sv, None) == scan_ok_from(sv.skip(i as int), None),
        decreases n - i,
    {
        let c = expression.get_char(i);
        proof {
            lemma_skip_step(sv, i as int);
        }
        let code: u32 = c as u32;
        if 48 <= code && code <= 57 {
            let (opt, end) = parse_int_token(expression, i);
            match opt {
                Some(tk) => {
                    proof {
                        let y = scan_from(sv.skip(end as int), None);
                        assert(found@.push(tk) =~= found@ + seq![tk]);
                        assert((found@ + seq![tk]) + y =~= found@ + (seq![tk] + y));
                    }
                    found.push(tk);
                    i = end;
                },
                None => {
                    return None;
                },
            }
        } else if c == '+' {
            proof {
                let y = scan_from(sv.skip(i as int + 1), None);
                let tk = Token::Operator(OperationType::Addition);
                assert(flush(None) + seq![tk] + y =~= seq![tk] + y);
                assert(found@.push(tk) =~= found@ + seq![tk]);
                assert((found@ + seq![tk]) + y =~= found@ + (seq![tk] + y));
            }
            found.push(Token::Operator(OperationType::Addition));
            i += 1;
        } else if c == '-' {
            proof {
                let y = scan_from(sv.skip(i as int + 1), None);
                let tk = Token::Operator(OperationType::Subtraction);
                assert(flush(None) + seq![tk] + y =~= seq![tk] + y);
                assert(found@.push(tk) =~= found@ + seq![tk]);
                assert((found@ + seq![tk]) + y =~= found@ + (seq![tk] + y));
            }
            found.push(Token::Operator(OperationType::Subtraction));
            i += 1;
        } else {
            proof {
                let y = scan_from(sv.skip(i as int + 1), None);
                assert(flush(None) + y =~= y);
            }
            i += 1;
        }
    }
    proof {
        assert(sv.skip(n as int) =~= Seq::<char>::empty());
        assert(found@ + scan_from(Seq::<char>::empty(), None) =~= found@);
    }
    Some(sort_token_list(found))
}

/// Stably partitions a token list into its canonical form: every value
/// token first, then every operator token, each group in the order it
/// had in the input.
pub fn sort_token_list(token_list: Vec<Token>) -> (r: Vec<Token>)
    ensures
        r@ == canonical(token_list@),
{
    let ghost tl = token_list@;
    let mut vals: Vec<Token> = Vec::new();
    let mut ops: Vec<Token> = Vec::new();
    let n = token_list.len();
    let mut i: usize = 0;
    while i < n
        invariant
            tl == token_list@,
            n == tl.len(),
            i <= n,
            vals@ == values_of(tl.take(i as int)),
            ops@ == operators_of(tl.take(i as int)),
        decreases n - i,
    {
        let t = token_list[i];
        proof {
            assert(tl.take(i as int + 1).drop_last() =~= tl.take(i as int));
            assert(tl.take(i as int + 1).last() == tl[i as int]);
        }
        match t {
            Token::Value(_) => vals.push(t),
            Token::Operator(_) => ops.push(t),
        }
        i += 1;
    }
    proof {
        assert(tl.take(n as int) =~= tl);
    }
    let mut result = vals;
    result.append(&mut ops);
    result
}

} // verus!
