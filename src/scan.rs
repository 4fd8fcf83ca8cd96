//! The parser proper: leaf scanners, the phrase dispatcher, and the group
//! and program parsers, each proved to compute its counterpart in
//! [`crate::grammar`].

use vstd::prelude::*;

use crate::cursor::{parse_whitespace, Parser};
use crate::grammar::{
    children_at, comment_at, comment_stop, expression_at, identifier_at, is_alpha, is_digit,
    is_word, lemma_comment_stop, lemma_number_stop, lemma_text_stop, lemma_word_stop, number_at,
    number_stop, past, phrase_at, lemma_skip_space, lemma_expression_advances, is_opener, opener_kind, closes, program_at, skip_space, text_at, text_stop, word_stop,
};
use crate::syntax::{
    expression_views, phrase_views, Expression, ExpressionKind, ExpressionView, ParseError,
    Phrase, PhraseView,
};

verus! {

/// Relies on `String::push`: appends `c` to the end of `text`.
#[verifier::external_body]
fn push_char(text: &mut String, c: char)
    ensures
        final(text)@ == old(text)@.push(c),
{
    text.push(c);
}

fn digit(c: char) -> (r: bool)
    ensures
        r == is_digit(c),
{
    '0' <= c && c <= '9'
}

fn alpha(c: char) -> (r: bool)
    ensures
        r == is_alpha(c),
{
    ('a' <= c && c <= 'z') || ('A' <= c && c <= 'Z')
}

fn word(c: char) -> (r: bool)
    ensures
        r == is_word(c),
{
    digit(c) || alpha(c) || c == '_'
}

/// Scans quoted text whose opening quote is the next character. The body
/// runs to the next unescaped quote, which is consumed, or to the end of
/// input; escapes are kept as written.
pub fn parse_string(s: &mut Parser) -> (r: Phrase)
    requires
        old(s).wf(),
        old(s).position() < old(s).input().len(),
        old(s).input()[old(s).position() as int] == '"',
    ensures
        final(s).wf(),
        final(s).input() == old(s).input(),
        (r@, final(s).position()) == text_at(old(s).input(), old(s).position()),
{
    let ghost input = s.input();
    let ghost start = s.position() + 1;
    s.next();
    proof {
        lemma_text_stop(input, start);
    }
    let mut text = String::new();
    loop
        invariant_except_break
            start <= s.position() <= input.len(),
            text@ == input.subrange(start as int, s.position() as int),
            text_stop(input, s.position()) == text_stop(input, start),
        invariant
            s.wf(),
            s.input() == input,
        ensures
            s.wf(),
            s.input() == input,
            text@ == input.subrange(start as int, text_stop(input, start) as int),
            s.position() == past(input, text_stop(input, start)),
        decreases input.len() - s.position(),
    {
        proof {
            s.lemma_wf();
        }
        match s.next() {
            None => break,
            Some(c) => {
                if c == '"' {
                    break;
                }
                push_char(&mut text, c);
                if c == '\\' {
                    match s.next() {
                        Some(d) => push_char(&mut text, d),
                        None => break,
                    }
                }
                assert(text@ =~= input.subrange(start as int, s.position() as int));
            },
        }
    }
    Phrase::Text(text)
}

/// Scans a comment whose `;` is the next character. The body runs to the
/// next line break, which is consumed but not kept, or to the end of input.
pub fn parse_comment(s: &mut Parser) -> (r: Phrase)
    requires
        old(s).wf(),
        old(s).position() < old(s).input().len(),
        old(s).input()[old(s).position() as int] == ';',
    ensures
        final(s).wf(),
        final(s).input() == old(s).input(),
        (r@, final(s).position()) == comment_at(old(s).input(), old(s).position()),
{
    let ghost input = s.input();
    let ghost start = s.position() + 1;
    s.next();
    proof {
        lemma_comment_stop(input, start);
    }
    let mut text = String::new();
    loop
        invariant_except_break
            start <= s.position() <= input.len(),
            text@ == input.subrange(start as int, s.position() as int),
            comment_stop(input, s.position()) == comment_stop(input, start),
        invariant
            s.wf(),
            s.input() == input,
        ensures
            s.wf(),
            s.input() == input,
            text@ == input.subrange(start as int, comment_stop(input, start) as int),
            s.position() == past(input, comment_stop(input, start)),
        decreases input.len() - s.position(),
    {
        proof {
            s.lemma_wf();
        }
        match s.next() {
            None => break,
            Some(c) => {
                if c == '\n' {
                    break;
                }
                push_char(&mut text, c);
                assert(text@ =~= input.subrange(start as int, s.position() as int));
            },
        }
    }
    Phrase::Comment(text)
}

/// Scans the longest run of ASCII digits holding at most one `.`; a second
/// point is left for whatever comes next.
pub fn parse_number(s: &mut Parser) -> (r: Phrase)
    requires
        old(s).wf(),
    ensures
        final(s).wf(),
        final(s).input() == old(s).input(),
        (r@, final(s).position()) == number_at(old(s).input(), old(s).position()),
{
    let ghost input = s.input();
    let ghost start = s.position();
    proof {
        s.lemma_wf();
        lemma_number_stop(input, start, false);
    }
    let mut point = false;
    let mut text = String::new();
    loop
        invariant
            s.wf(),
            s.input() == input,
            start <= s.position() <= input.len(),
            text@ == input.subrange(start as int, s.position() as int),
            number_stop(input, s.position(), point) == number_stop(input, start, false),
        ensures
            s.wf(),
            s.input() == input,
            text@ == input.subrange(start as int, number_stop(input, start, false) as int),
            s.position() == number_stop(input, start, false),
        decreases input.len() - s.position(),
    {
        proof {
            s.lemma_wf();
        }
        match s.peek() {
            Some(c) => {
                if !(digit(c) || (!point && c == '.')) {
                    break;
                }
                point = point || c == '.';
                s.next();
                push_char(&mut text, c);
                assert(text@ =~= input.subrange(start as int, s.position() as int));
            },
            None => break,
        }
    }
    Phrase::Number(text)
}

/// Scans the longest run of ASCII letters, digits and underscores.
pub fn parse_identifier(s: &mut Parser) -> (r: Phrase)
    requires
        old(s).wf(),
    ensures
        final(s).wf(),
        final(s).input() == old(s).input(),
        (r@, final(s).position()) == identifier_at(old(s).input(), old(s).position()),
{
    let ghost input = s.input();
    let ghost start = s.position();
    proof {
        s.lemma_wf();
        lemma_word_stop(input, start);
    }
    let mut text = String::new();
    loop
        invariant
            s.wf(),
            s.input() == input,
            start <= s.position() <= input.len(),
            text@ == input.subrange(start as int, s.position() as int),
            word_stop(input, s.position()) == word_stop(input, start),
        ensures
            s.wf(),
            s.input() == input,
            text@ == input.subrange(start as int, word_stop(input, start) as int),
            s.position() == word_stop(input, start),
        decreases input.len() - s.position(),
    {
        proof {
            s.lemma_wf();
        }
        match s.peek() {
            Some(c) => {
                if !word(c) {
                    break;
                }
                s.next();
                push_char(&mut text, c);
                assert(text@ =~= input.subrange(start as int, s.position() as int));
            },
            None => break,
        }
    }
    Phrase::Identifier(text)
}

/// What a phrase parse returned, in the form [`phrase_at`] gives it.
pub open spec fn phrase_outcome(r: Result<Phrase, ParseError>, end: nat) -> Result<
    (PhraseView, nat),
    ParseError,
> {
    match r {
        Ok(p) => Ok((p@, end)),
        Err(e) => Err(e),
    }
}

/// What a group parse returned, in the form [`expression_at`] gives it.
pub open spec fn expression_outcome(r: Result<Expression, ParseError>, end: nat) -> Result<
    (ExpressionView, nat),
    ParseError,
> {
    match r {
        Ok(e) => Ok((e@, end)),
        Err(e) => Err(e),
    }
}

/// `rest` with `done` put before the phrases it holds.
pub open spec fn children_after(
    done: Seq<PhraseView>,
    rest: Result<(Seq<PhraseView>, nat), ParseError>,
) -> Result<(Seq<PhraseView>, nat), ParseError> {
    match rest {
        Ok((v, r)) => Ok((done + v, r)),
        Err(e) => Err(e),
    }
}

/// `rest` with `done` put before the groups it holds.
pub open spec fn program_after(
    done: Seq<ExpressionView>,
    rest: Result<Seq<ExpressionView>, ParseError>,
) -> Result<Seq<ExpressionView>, ParseError> {
    match rest {
        Ok(v) => Ok(done + v),
        Err(e) => Err(e),
    }
}

/// Parses one phrase after optional whitespace, chosen by its first
/// character. Fails with `Unexpected`, having consumed only the whitespace,
/// where no phrase starts; a nested group that fails passes its error on.
pub fn parse_phrase(s: &mut Parser) -> (r: Result<Phrase, ParseError>)
    requires
        old(s).wf(),
    ensures
        final(s).wf(),
        final(s).input() == old(s).input(),
        phrase_outcome(r, final(s).position()) == phrase_at(old(s).input(), old(s).position()),
        r is Ok ==> old(s).position() < final(s).position(),
        r == Err::<Phrase, ParseError>(ParseError::Unexpected) ==> final(s).position()
            == skip_space(old(s).input(), old(s).position()),
    decreases old(s).input().len() - old(s).position(), 1int,
{
    let ghost input = s.input();
    let ghost start = s.position();
    proof {
        s.lemma_wf();
        lemma_skip_space(input, start);
    }
    parse_whitespace(s);
    let c = match s.peek() {
        Some(c) => c,
        None => return Err(ParseError::Unexpected),
    };
    if c == '(' || c == '[' || c == '{' {
        proof {
            lemma_skip_space(input, s.position());
            lemma_expression_advances(input, s.position());
        }
        match parse_expression(s) {
            Ok(e) => Ok(Phrase::Expression(e)),
            Err(err) => {
                proof {
                    lemma_skip_space(input, skip_space(input, start));
                }
                Err(err)
            },
        }
    } else if c == '"' {
        proof {
            lemma_text_stop(input, s.position() + 1);
        }
        Ok(parse_string(s))
    } else if c == ';' {
        proof {
            lemma_comment_stop(input, s.position() + 1);
        }
        Ok(parse_comment(s))
    } else if digit(c) {
        proof {
            lemma_number_stop(input, s.position() + 1, false);
        }
        Ok(parse_number(s))
    } else if alpha(c) {
        proof {
            lemma_word_stop(input, s.position() + 1);
        }
        Ok(parse_identifier(s))
    } else {
        Err(ParseError::Unexpected)
    }
}

/// Parses one group after optional whitespace: a bare comment, wrapped as a
/// `Null` group, or an opening delimiter, the phrases that follow it up to
/// the first that does not parse, and the closing delimiter that matches the
/// opener. Fails with `Unexpected`, having consumed only the whitespace, where
/// neither starts, and with `Mismatched` where the closing delimiter is wrong
/// or missing.
pub fn parse_expression(s: &mut Parser) -> (r: Result<Expression, ParseError>)
    requires
        old(s).wf(),
    ensures
        final(s).wf(),
        final(s).input() == old(s).input(),
        expression_outcome(r, final(s).position()) == expression_at(
            old(s).input(),
            old(s).position(),
        ),
        r == Err::<Expression, ParseError>(ParseError::Unexpected) ==> final(s).position()
            == skip_space(old(s).input(), old(s).position()),
    decreases old(s).input().len() - old(s).position(), 0int,
{
    let ghost input = s.input();
    let ghost start = s.position();
    proof {
        s.lemma_wf();
        lemma_skip_space(input, start);
    }
    parse_whitespace(s);
    let ghost q = s.position();
    let c = match s.peek() {
        Some(c) => c,
        None => return Err(ParseError::Unexpected),
    };
    if c == ';' {
        let comment = parse_comment(s);
        let e = Expression::null(comment);
        assert(e@.values =~= seq![comment@]);
        return Ok(e);
    }
    let kind = if c == '[' {
        ExpressionKind::List
    } else if c == '{' {
        ExpressionKind::Block
    } else if c == '(' {
        ExpressionKind::Item
    } else {
        return Err(ParseError::Unexpected);
    };
    assert(kind == opener_kind(c));
    s.next();
    let mut values: Vec<Phrase> = Vec::new();
    assert(children_after(phrase_views(values@), children_at(input, q + 1)) =~= children_at(
        input,
        q + 1,
    )) by {
        match children_at(input, q + 1) {
            Ok((v, r)) => assert(phrase_views(values@) + v =~= v),
            Err(_) => {},
        }
    }
    loop
        invariant_except_break
            children_at(input, q + 1) == children_after(
                phrase_views(values@),
                children_at(input, s.position()),
            ),
        invariant
            s.wf(),
            s.input() == input,
            input == old(s).input(),
            start == old(s).position(),
            start <= q < s.position() <= input.len(),
            q == skip_space(input, start),
            is_opener(input[q as int]),
            kind == opener_kind(input[q as int]),
        ensures
            s.wf(),
            s.input() == input,
            children_at(input, q + 1) == Ok::<(Seq<PhraseView>, nat), ParseError>(
                (phrase_views(values@), s.position()),
            ),
        decreases input.len() - s.position(),
    {
        let ghost before = s.position();
        let ghost done = phrase_views(values@);
        proof {
            lemma_skip_space(input, before);
        }
        match parse_phrase(s) {
            Ok(p) => {
                proof {
                    s.lemma_wf();
                    match children_at(input, s.position()) {
                        Ok((v, r)) => {
                            assert(done + (seq![p@] + v) =~= done.push(p@) + v);
                        },
                        Err(_) => {},
                    }
                }
                values.push(p);
                assert(phrase_views(values@) =~= done.push(p@));
            },
            Err(ParseError::Unexpected) => {
                assert(done + Seq::empty() =~= done);
                break;
            },
            Err(err) => {
                return Err(err);
            },
        }
    }
    let ghost r = s.position();
    let closing = s.next();
    let closed = match closing {
        Some(d) => match kind {
            ExpressionKind::List => d == ']',
            ExpressionKind::Block => d == '}',
            ExpressionKind::Item => d == ')',
            ExpressionKind::Null => false,
        },
        None => false,
    };
    if !closed {
        return Err(ParseError::Mismatched);
    }
    let e = Expression { kind, values };
    assert(e@.values =~= phrase_views(values@));
    Ok(e)
}

/// Parses a whole program: groups separated by whitespace, up to the end of
/// input. The first group that fails fails the program.
pub fn parse_program(s: &mut Parser) -> (r: Result<Vec<Expression>, ParseError>)
    requires
        old(s).wf(),
    ensures
        final(s).wf(),
        final(s).input() == old(s).input(),
        program_at(old(s).input(), old(s).position()) == match r {
            Ok(v) => Ok(expression_views(v@)),
            Err(e) => Err::<Seq<ExpressionView>, ParseError>(e),
        },
        r is Ok ==> final(s).position() == final(s).input().len(),
{
    let ghost input = s.input();
    let ghost start = s.position();
    let mut program: Vec<Expression> = Vec::new();
    assert(program_after(expression_views(program@), program_at(input, start)) =~= program_at(
        input,
        start,
    )) by {
        match program_at(input, start) {
            Ok(v) => assert(expression_views(program@) + v =~= v),
            Err(_) => {},
        }
    }
    loop
        invariant
            s.wf(),
            s.input() == input,
            input == old(s).input(),
            start == old(s).position(),
            program_at(input, start) == program_after(
                expression_views(program@),
                program_at(input, s.position()),
            ),
        ensures
            s.wf(),
            s.input() == input,
            s.position() == input.len(),
            program_at(input, start) == Ok::<Seq<ExpressionView>, ParseError>(
                expression_views(program@),
            ),
        decreases input.len() - s.position(),
    {
        let ghost before = s.position();
        let ghost done = expression_views(program@);
        proof {
            s.lemma_wf();
            lemma_skip_space(input, before);
        }
        parse_whitespace(s);
        if s.peek().is_none() {
            assert(done + Seq::empty() =~= done);
            break;
        }
        proof {
            lemma_expression_advances(input, s.position());
            lemma_skip_space(input, s.position());
        }
        match parse_expression(s) {
            Ok(e) => {
                proof {
                    s.lemma_wf();
                    match program_at(input, s.position()) {
                        Ok(v) => {
                            assert(done + (seq![e@] + v) =~= done.push(e@) + v);
                        },
                        Err(_) => {},
                    }
                }
                program.push(e);
                assert(expression_views(program@) =~= done.push(e@));
            },
            Err(err) => {
                return Err(err);
            },
        }
    }
    Ok(program)
}

} // verus!
