//! Laws that relate the tokenizer and the evaluator.

use vstd::prelude::*;

use crate::evaluate::eval_tokens;
use crate::tokenizer::canonical;
use crate::tokenizer::is_token_char;
use crate::tokenizer::operators_of;
use crate::tokenizer::scan;
use crate::tokenizer::scan_from;
use crate::tokenizer::scan_ok;
use crate::tokenizer::scan_ok_from;
use crate::tokenizer::values_of;
use crate::tokenizer::Token;

verus! {

/// An input without a single digit or operator character scans to no
/// tokens at all.
proof fn lemma_scan_no_token_chars(s: Seq<char>)
    requires
        forall|i: int| 0 <= i < s.len() ==> !is_token_char(#[trigger] s[i]),
    ensures
        scan_ok(s),
        scan(s) == Seq::<Token>::empty(),
    decreases s.len(),
{
    if s.len() > 0 {
        assert(forall|i: int|
            0 <= i < s.len() - 1 ==> #[trigger] s.drop_first()[i] == s[i + 1]);
        lemma_scan_no_token_chars(s.drop_first());
        assert(!is_token_char(s[0]));
        assert(scan_from(s, None) =~= scan_from(s.drop_first(), None));
        assert(scan_ok_from(s, None) == scan_ok_from(s.drop_first(), None));
    }
}

/// An expression that holds no numeric token and no operator — in
/// particular the empty expression — tokenizes successfully and
/// evaluates to 0.
pub proof fn lemma_no_token_chars_evaluate_to_zero(s: Seq<char>)
    requires
        forall|i: int| 0 <= i < s.len() ==> !is_token_char(#[trigger] s[i]),
    ensures
        scan_ok(s),
        scan(s) == Seq::<Token>::empty(),
        eval_tokens(canonical(scan(s))) == Some(0i64),
{
    lemma_scan_no_token_chars(s);
    assert(values_of(Seq::<Token>::empty()) == Seq::<Token>::empty());
    assert(operators_of(Seq::<Token>::empty()) == Seq::<Token>::empty());
    assert(canonical(Seq::<Token>::empty()) =~= Seq::<Token>::empty());
}

} // verus!
