//! The notation, defined as spec functions over the input characters.
//!
//! Each `*_at` function reads from a position of `s` and says what the
//! parser produces there and the position just past what it consumed.

use vstd::prelude::*;

use crate::syntax::{ExpressionKind, ExpressionView, ParseError, PhraseView};

verus! {

/// Whether `char::is_whitespace` holds of `c` (the Unicode `White_Space`
/// property).
pub uninterp spec fn whitespace(c: char) -> bool;

pub open spec fn is_digit(c: char) -> bool {
    '0' <= c && c <= '9'
}

pub open spec fn is_alpha(c: char) -> bool {
    ('a' <= c && c <= 'z') || ('A' <= c && c <= 'Z')
}

/// A character that may continue an identifier.
pub open spec fn is_word(c: char) -> bool {
    is_digit(c) || is_alpha(c) || c == '_'
}

pub open spec fn is_opener(c: char) -> bool {
    c == '(' || c == '[' || c == '{'
}

/// The kind of group that an opening delimiter starts.
pub open spec fn opener_kind(c: char) -> ExpressionKind {
    if c == '[' {
        ExpressionKind::List
    } else if c == '{' {
        ExpressionKind::Block
    } else {
        ExpressionKind::Item
    }
}

/// Whether `c` is the closing delimiter that a group of `kind` requires.
pub open spec fn closes(kind: ExpressionKind, c: char) -> bool {
    match kind {
        ExpressionKind::List => c == ']',
        ExpressionKind::Block => c == '}',
        ExpressionKind::Item => c == ')',
        ExpressionKind::Null => false,
    }
}

/// The first position at or after `i` that does not hold whitespace.
pub open spec fn skip_space(s: Seq<char>, i: nat) -> nat
    decreases s.len() - i,
{
    if i < s.len() && whitespace(s[i as int]) {
        skip_space(s, i + 1)
    } else {
        i
    }
}

/// The position just past a terminator found at `stop`, or the end of input
/// when there was none.
pub open spec fn past(s: Seq<char>, stop: nat) -> nat {
    if stop < s.len() {
        stop + 1
    } else {
        stop
    }
}

/// The position of the quote that ends a text body starting at `i`, or the
/// end of input. A backslash takes the next character with it, whatever it is.
pub open spec fn text_stop(s: Seq<char>, i: nat) -> nat
    decreases s.len() - i,
{
    if i >= s.len() {
        s.len()
    } else if s[i as int] == '"' {
        i
    } else if s[i as int] == '\\' {
        if i + 1 < s.len() {
            text_stop(s, i + 2)
        } else {
            s.len()
        }
    } else {
        text_stop(s, i + 1)
    }
}

/// The position of the line break that ends a comment body starting at `i`,
/// or the end of input.
pub open spec fn comment_stop(s: Seq<char>, i: nat) -> nat
    decreases s.len() - i,
{
    if i >= s.len() {
        s.len()
    } else if s[i as int] == '\n' {
        i
    } else {
        comment_stop(s, i + 1)
    }
}

/// The end of the longest run from `i` of digits and at most one point;
/// `point` tells whether the run has already taken its point.
pub open spec fn number_stop(s: Seq<char>, i: nat, point: bool) -> nat
    decreases s.len() - i,
{
    if i < s.len() && (is_digit(s[i as int]) || (!point && s[i as int] == '.')) {
        number_stop(s, i + 1, point || s[i as int] == '.')
    } else {
        i
    }
}

/// The end of the longest run from `i` of identifier characters.
pub open spec fn word_stop(s: Seq<char>, i: nat) -> nat
    decreases s.len() - i,
{
    if i < s.len() && is_word(s[i as int]) {
        word_stop(s, i + 1)
    } else {
        i
    }
}

/// Quoted text whose opening quote is at `p`: its raw body, escapes kept.
pub open spec fn text_at(s: Seq<char>, p: nat) -> (PhraseView, nat) {
    let stop = text_stop(s, p + 1);
    (PhraseView::Text(s.subrange(p + 1 as int, stop as int)), past(s, stop))
}

/// A comment whose `;` is at `p`: its body up to the line break, which is
/// consumed too.
pub open spec fn comment_at(s: Seq<char>, p: nat) -> (PhraseView, nat) {
    let stop = comment_stop(s, p + 1);
    (PhraseView::Comment(s.subrange(p + 1 as int, stop as int)), past(s, stop))
}

pub open spec fn number_at(s: Seq<char>, p: nat) -> (PhraseView, nat) {
    let stop = number_stop(s, p, false);
    (PhraseView::Number(s.subrange(p as int, stop as int)), stop)
}

pub open spec fn identifier_at(s: Seq<char>, p: nat) -> (PhraseView, nat) {
    let stop = word_stop(s, p);
    (PhraseView::Identifier(s.subrange(p as int, stop as int)), stop)
}

/// One phrase after optional whitespace, chosen by its first character.
pub open spec fn phrase_at(s: Seq<char>, pos: nat) -> Result<(PhraseView, nat), ParseError>
    decreases s.len() - pos, 1int,
{
    let q = skip_space(s, pos);
    proof {
        lemma_skip_space(s, pos);
    }
    if q >= s.len() {
        Err(ParseError::Unexpected)
    } else {
        let c = s[q as int];
        if is_opener(c) {
            match expression_at(s, q) {
                Ok((e, end)) => Ok((PhraseView::Expression(e), end)),
                Err(err) => Err(err),
            }
        } else if c == '"' {
            Ok(text_at(s, q))
        } else if c == ';' {
            Ok(comment_at(s, q))
        } else if is_digit(c) {
            Ok(number_at(s, q))
        } else if is_alpha(c) {
            Ok(identifier_at(s, q))
        } else {
            Err(ParseError::Unexpected)
        }
    }
}

/// The children of a group, from `pos` on: phrases until none starts. A
/// nested group that fails is an error of the whole list.
pub open spec fn children_at(s: Seq<char>, pos: nat) -> Result<(Seq<PhraseView>, nat), ParseError>
    decreases s.len() - pos, 2int,
{
    match phrase_at(s, pos) {
        Ok((p, end)) => {
            // Every phrase consumes at least its first character.
            if pos < end <= s.len() {
                match children_at(s, end) {
                    Ok((rest, r)) => Ok((seq![p] + rest, r)),
                    Err(err) => Err(err),
                }
            } else {
                Ok((Seq::empty(), pos))
            }
        },
        Err(ParseError::Unexpected) => Ok((Seq::empty(), skip_space(s, pos))),
        Err(err) => Err(err),
    }
}

/// A group after optional whitespace: a bare comment wrapped as `Null`, or an
/// opening delimiter, the children, and the matching closing delimiter.
pub open spec fn expression_at(s: Seq<char>, pos: nat) -> Result<(ExpressionView, nat), ParseError>
    decreases s.len() - pos, 0int,
{
    let q = skip_space(s, pos);
    proof {
        lemma_skip_space(s, pos);
    }
    if q >= s.len() {
        Err(ParseError::Unexpected)
    } else if s[q as int] == ';' {
        let (c, end) = comment_at(s, q);
        Ok((ExpressionView { kind: ExpressionKind::Null, values: seq![c] }, end))
    } else if !is_opener(s[q as int]) {
        Err(ParseError::Unexpected)
    } else {
        let kind = opener_kind(s[q as int]);
        match children_at(s, q + 1) {
            Ok((values, r)) => {
                if r < s.len() && closes(kind, s[r as int]) {
                    Ok((ExpressionView { kind, values }, r + 1))
                } else {
                    Err(ParseError::Mismatched)
                }
            },
            Err(err) => Err(err),
        }
    }
}

/// The groups of a program from `pos` on, separated by whitespace.
pub open spec fn program_at(s: Seq<char>, pos: nat) -> Result<Seq<ExpressionView>, ParseError>
    decreases s.len() - pos,
{
    let q = skip_space(s, pos);
    if q >= s.len() {
        Ok(Seq::empty())
    } else {
        match expression_at(s, q) {
            Ok((e, end)) => {
                proof {
                    lemma_skip_space(s, pos);
                    lemma_expression_advances(s, q);
                }
                match program_at(s, end) {
                    Ok(rest) => Ok(seq![e] + rest),
                    Err(err) => Err(err),
                }
            },
            Err(err) => Err(err),
        }
    }
}

/// The whole input read as a program.
pub open spec fn parse(s: Seq<char>) -> Result<Seq<ExpressionView>, ParseError> {
    program_at(s, 0)
}

pub proof fn lemma_skip_space(s: Seq<char>, i: nat)
    ensures
        i <= skip_space(s, i),
        i <= s.len() ==> skip_space(s, i) <= s.len(),
        skip_space(s, i) < s.len() ==> !whitespace(s[skip_space(s, i) as int]),
    decreases s.len() - i,
{
    if i < s.len() && whitespace(s[i as int]) {
        lemma_skip_space(s, i + 1);
    }
}

pub proof fn lemma_text_stop(s: Seq<char>, i: nat)
    requires
        i <= s.len(),
    ensures
        i <= text_stop(s, i) <= s.len(),
    decreases s.len() - i,
{
    if i < s.len() && s[i as int] != '"' {
        if s[i as int] == '\\' {
            if i + 1 < s.len() {
                lemma_text_stop(s, i + 2);
            }
        } else {
            lemma_text_stop(s, i + 1);
        }
    }
}

pub proof fn lemma_comment_stop(s: Seq<char>, i: nat)
    requires
        i <= s.len(),
    ensures
        i <= comment_stop(s, i) <= s.len(),
    decreases s.len() - i,
{
    if i < s.len() && s[i as int] != '\n' {
        lemma_comment_stop(s, i + 1);
    }
}

pub proof fn lemma_number_stop(s: Seq<char>, i: nat, point: bool)
    requires
        i <= s.len(),
    ensures
        i <= number_stop(s, i, point) <= s.len(),
    decreases s.len() - i,
{
    if i < s.len() && (is_digit(s[i as int]) || (!point && s[i as int] == '.')) {
        lemma_number_stop(s, i + 1, point || s[i as int] == '.');
    }
}

pub proof fn lemma_word_stop(s: Seq<char>, i: nat)
    requires
        i <= s.len(),
    ensures
        i <= word_stop(s, i) <= s.len(),
    decreases s.len() - i,
{
    if i < s.len() && is_word(s[i as int]) {
        lemma_word_stop(s, i + 1);
    }
}

/// The children of a group end between their start and the end of input.
pub proof fn lemma_children_bounds(s: Seq<char>, pos: nat)
    requires
        pos <= s.len(),
    ensures
        children_at(s, pos) is Ok ==> pos <= children_at(s, pos)->Ok_0.1 <= s.len(),
    decreases s.len() - pos,
{
    lemma_skip_space(s, pos);
    match phrase_at(s, pos) {
        Ok((p, end)) => {
            if pos < end <= s.len() {
                lemma_children_bounds(s, end);
            }
        },
        _ => {},
    }
}

/// A group that parses consumes at least one character past its leading
/// whitespace, and no more than the input holds.
pub proof fn lemma_expression_advances(s: Seq<char>, pos: nat)
    requires
        pos <= s.len(),
    ensures
        expression_at(s, pos) is Ok ==> skip_space(s, pos) < expression_at(s, pos)->Ok_0.1
            <= s.len(),
{
    let q = skip_space(s, pos);
    lemma_skip_space(s, pos);
    if q < s.len() {
        if s[q as int] == ';' {
            lemma_comment_stop(s, q + 1);
        } else if is_opener(s[q as int]) {
            lemma_children_bounds(s, q + 1);
        }
    }
}

} // verus!
