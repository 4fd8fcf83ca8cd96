//! Properties of the notation that hold of every input.

use vstd::prelude::*;

use crate::cursor::Parser;
use crate::grammar::{
    closes, expression_at, is_digit, lemma_number_stop, is_opener, number_at, number_stop, opener_kind, program_at,
    skip_space,
};
use crate::syntax::ExpressionKind;

verus! {

/// A delimited group that parses starts with an opening delimiter and ends
/// with the closing delimiter that matches it: mismatched delimiters never
/// yield a closed tree.
pub proof fn lemma_group_closes_its_opener(s: Seq<char>, pos: nat)
    requires
        expression_at(s, pos) is Ok,
        expression_at(s, pos)->Ok_0.0.kind != ExpressionKind::Null,
    ensures
        ({
            let q = skip_space(s, pos);
            let (e, end) = expression_at(s, pos)->Ok_0;
            &&& q < s.len()
            &&& is_opener(s[q as int])
            &&& e.kind == opener_kind(s[q as int])
            &&& 0 < end <= s.len()
            &&& closes(e.kind, s[end - 1])
        }),
{
}

/// The digits and points of a run scanned from `i`; with `point` set, no
/// further point is taken.
proof fn lemma_number_run(s: Seq<char>, i: nat, point: bool)
    ensures
        forall|k: int|
            i <= k < number_stop(s, i, point) ==> is_digit(s[k]) || s[k] == '.',
        point ==> forall|k: int| i <= k < number_stop(s, i, point) ==> s[k] != '.',
        forall|a: int, b: int|
            i <= a < b < number_stop(s, i, point) ==> !(s[a] == '.' && s[b] == '.'),
    decreases s.len() - i,
{
    if i < s.len() && (is_digit(s[i as int]) || (!point && s[i as int] == '.')) {
        lemma_number_run(s, i + 1, point || s[i as int] == '.');
    }
}

/// A number literal is made of ASCII digits and holds at most one point: a
/// second point ends it.
pub proof fn lemma_number_has_one_point(s: Seq<char>, p: nat)
    requires
        p <= s.len(),
    ensures
        ({
            let t = number_at(s, p).0->Number_0;
            &&& number_at(s, p).0 is Number
            &&& forall|k: int| 0 <= k < t.len() ==> is_digit(t[k]) || t[k] == '.'
            &&& forall|a: int, b: int| 0 <= a < b < t.len() ==> !(t[a] == '.' && t[b] == '.')
        }),
{
    lemma_number_run(s, p, false);
    lemma_number_stop(s, p, false);
    let t = number_at(s, p).0->Number_0;
    assert forall|k: int| 0 <= k < t.len() implies is_digit(t[k]) || t[k] == '.' by {
        assert(t[k] == s[p + k]);
    }
    assert forall|a: int, b: int| 0 <= a < b < t.len() implies !(t[a] == '.' && t[b] == '.') by {
        assert(t[a] == s[p + a]);
        assert(t[b] == s[p + b]);
    }
}

/// Parsing depends on the characters alone: two cursors over the same input
/// at the same position yield the same program, whatever else they have
/// counted, so parsing one input twice gives identical trees.
pub proof fn lemma_parse_is_deterministic(a: Parser, b: Parser)
    requires
        a.wf(),
        b.wf(),
        a.input() == b.input(),
        a.position() == b.position(),
    ensures
        program_at(a.input(), a.position()) == program_at(b.input(), b.position()),
{
}

} // verus!
