use bracket_parser::cursor::{parse_whitespace, Parser};
use bracket_parser::scan::{
    parse_comment, parse_expression, parse_identifier, parse_number, parse_phrase, parse_program,
    parse_string,
};
use bracket_parser::syntax::{Expression, ExpressionKind, ParseError, Phrase};

fn cursor(text: &str) -> Parser {
    Parser::new(text.chars().collect())
}

fn program(text: &str) -> Result<Vec<Expression>, ParseError> {
    parse_program(&mut cursor(text))
}

/// A leaf phrase as its variant's name and its text.
fn leaf(p: &Phrase) -> (&'static str, String) {
    match p {
        Phrase::Expression(_) => ("Expression", String::new()),
        Phrase::Identifier(t) => ("Identifier", t.clone()),
        Phrase::Text(t) => ("Text", t.clone()),
        Phrase::Number(t) => ("Number", t.clone()),
        Phrase::Comment(t) => ("Comment", t.clone()),
    }
}

fn leaves(e: &Expression) -> Vec<(&'static str, String)> {
    e.values.iter().map(leaf).collect()
}

fn group(p: &Phrase) -> &Expression {
    match p {
        Phrase::Expression(e) => e,
        other => panic!("expected a group, found {:?}", other),
    }
}

fn pair(kind: &'static str, text: &str) -> (&'static str, String) {
    (kind, text.to_string())
}

#[test]
fn item_with_two_identifiers() {
    let p = program("(a b)").unwrap();
    assert_eq!(p.len(), 1);
    assert_eq!(p[0].kind, ExpressionKind::Item);
    assert_eq!(leaves(&p[0]), vec![pair("Identifier", "a"), pair("Identifier", "b")]);
}

#[test]
fn list_of_numbers() {
    let p = program("[1 2]").unwrap();
    assert_eq!(p.len(), 1);
    assert_eq!(p[0].kind, ExpressionKind::List);
    assert_eq!(leaves(&p[0]), vec![pair("Number", "1"), pair("Number", "2")]);
}

#[test]
fn block_with_one_identifier() {
    let p = program("{x}").unwrap();
    assert_eq!(p.len(), 1);
    assert_eq!(p[0].kind, ExpressionKind::Block);
    assert_eq!(leaves(&p[0]), vec![pair("Identifier", "x")]);
}

#[test]
fn mismatched_delimiters_fail() {
    assert_eq!(program("(a]").unwrap_err(), ParseError::Mismatched);
    assert_eq!(program("[a}").unwrap_err(), ParseError::Mismatched);
    assert_eq!(program("{a)").unwrap_err(), ParseError::Mismatched);
}

#[test]
fn mismatch_inside_a_group_is_not_swallowed() {
    assert_eq!(program("((a])").unwrap_err(), ParseError::Mismatched);
    assert_eq!(program("[x (y} z]").unwrap_err(), ParseError::Mismatched);
}

#[test]
fn unclosed_group_fails() {
    assert_eq!(program("(a b").unwrap_err(), ParseError::Mismatched);
    assert_eq!(program("[").unwrap_err(), ParseError::Mismatched);
}

#[test]
fn text_keeps_escapes() {
    let source = "\"a\\\"b\"";
    let mut s = cursor(source);
    let p = parse_string(&mut s);
    assert_eq!(leaf(&p), pair("Text", "a\\\"b"));
    assert_eq!(leaf(&p).1.chars().count(), 4);
    assert_eq!(s.column(), 6);
    assert_eq!(s.peek(), None);
}

#[test]
fn text_inside_a_group() {
    let p = program("(\"a\\\"b\" \"c d\")").unwrap();
    assert_eq!(leaves(&p[0]), vec![pair("Text", "a\\\"b"), pair("Text", "c d")]);
}

#[test]
fn unterminated_text_runs_to_the_end() {
    let mut s = cursor("\"abc");
    assert_eq!(leaf(&parse_string(&mut s)), pair("Text", "abc"));
    assert_eq!(s.peek(), None);
    let mut s = cursor("\"ab\\");
    assert_eq!(leaf(&parse_string(&mut s)), pair("Text", "ab\\"));
    assert_eq!(s.peek(), None);
}

#[test]
fn comment_then_identifier_as_phrases() {
    let mut s = cursor("; hello\nfoo");
    let first = parse_phrase(&mut s).unwrap();
    let second = parse_phrase(&mut s).unwrap();
    assert_eq!(leaf(&first), pair("Comment", " hello"));
    assert_eq!(leaf(&second), pair("Identifier", "foo"));
    assert_eq!(parse_phrase(&mut s).unwrap_err(), ParseError::Unexpected);
}

#[test]
fn top_level_comment_is_a_null_group() {
    let p = program("; hello\n(foo)").unwrap();
    assert_eq!(p.len(), 2);
    assert_eq!(p[0].kind, ExpressionKind::Null);
    assert_eq!(leaves(&p[0]), vec![pair("Comment", " hello")]);
    assert_eq!(p[1].kind, ExpressionKind::Item);
    assert_eq!(leaves(&p[1]), vec![pair("Identifier", "foo")]);
}

#[test]
fn top_level_bare_word_fails() {
    assert_eq!(program("; hello\nfoo").unwrap_err(), ParseError::Unexpected);
    assert_eq!(program("abc").unwrap_err(), ParseError::Unexpected);
}

#[test]
fn comment_inside_a_group() {
    let p = program("(a ; note\n b)").unwrap();
    assert_eq!(
        leaves(&p[0]),
        vec![pair("Identifier", "a"), pair("Comment", " note"), pair("Identifier", "b")]
    );
}

#[test]
fn comment_consumes_its_line_break() {
    let mut s = cursor(";x\ny");
    assert_eq!(leaf(&parse_comment(&mut s)), pair("Comment", "x"));
    assert_eq!(s.peek(), Some('y'));
    assert_eq!(s.row(), 1);
}

#[test]
fn number_takes_one_point() {
    let mut s = cursor("1.2.3");
    assert_eq!(leaf(&parse_number(&mut s)), pair("Number", "1.2"));
    assert_eq!(s.peek(), Some('.'));
    assert_eq!(parse_phrase(&mut s).unwrap_err(), ParseError::Unexpected);
    assert_eq!(s.peek(), Some('.'));
}

#[test]
fn second_point_breaks_a_group() {
    assert_eq!(program("(1.2.3)").unwrap_err(), ParseError::Mismatched);
    let p = program("(1.25 3)").unwrap();
    assert_eq!(leaves(&p[0]), vec![pair("Number", "1.25"), pair("Number", "3")]);
}

#[test]
fn identifier_run() {
    let mut s = cursor("ab_1c-d");
    assert_eq!(leaf(&parse_identifier(&mut s)), pair("Identifier", "ab_1c"));
    assert_eq!(s.peek(), Some('-'));
}

#[test]
fn empty_input_gives_empty_program() {
    assert_eq!(program("").unwrap().len(), 0);
    assert_eq!(program(" \n\t ").unwrap().len(), 0);
}

#[test]
fn reparsing_gives_identical_trees() {
    let source = "(a [1 2.5] {\"t\\\"x\" ; c\n}) ; end";
    let first = program(source).unwrap();
    let second = program(source).unwrap();
    assert_eq!(format!("{:?}", first), format!("{:?}", second));
    assert_eq!(first.len(), 2);
}

#[test]
fn nested_groups() {
    let p = program("[(a) {b c}]").unwrap();
    assert_eq!(p.len(), 1);
    assert_eq!(p[0].kind, ExpressionKind::List);
    let inner: Vec<&Expression> = p[0].values.iter().map(group).collect();
    assert_eq!(inner.len(), 2);
    assert_eq!(inner[0].kind, ExpressionKind::Item);
    assert_eq!(leaves(inner[0]), vec![pair("Identifier", "a")]);
    assert_eq!(inner[1].kind, ExpressionKind::Block);
    assert_eq!(leaves(inner[1]), vec![pair("Identifier", "b"), pair("Identifier", "c")]);
}

#[test]
fn several_top_level_groups() {
    let p = program("  (a)\n[b]  {c} ").unwrap();
    let kinds: Vec<ExpressionKind> = p.iter().map(|e| e.kind).collect();
    assert_eq!(kinds, vec![ExpressionKind::Item, ExpressionKind::List, ExpressionKind::Block]);
}

#[test]
fn unicode_whitespace_separates_phrases() {
    let p = program("(a\u{3000}b\tc\r\nd\u{a0}e)").unwrap();
    assert_eq!(
        leaves(&p[0]),
        vec![
            pair("Identifier", "a"),
            pair("Identifier", "b"),
            pair("Identifier", "c"),
            pair("Identifier", "d"),
            pair("Identifier", "e"),
        ]
    );
}

#[test]
fn whitespace_skipper_stops_at_other_characters() {
    let mut s = cursor(" \t\n x ");
    parse_whitespace(&mut s);
    assert_eq!(s.peek(), Some('x'));
    assert_eq!(s.column(), 4);
    assert_eq!(s.row(), 1);
}

#[test]
fn unexpected_character_ends_children() {
    let mut s = cursor("(a # b)");
    assert_eq!(parse_expression(&mut s).unwrap_err(), ParseError::Mismatched);
    let mut s = cursor("  #");
    assert_eq!(parse_phrase(&mut s).unwrap_err(), ParseError::Unexpected);
    assert_eq!(s.column(), 2);
}

#[test]
fn empty_group() {
    let p = program("()").unwrap();
    assert_eq!(p[0].kind, ExpressionKind::Item);
    assert!(p[0].values.is_empty());
}

#[test]
fn null_wraps_one_phrase() {
    let e = Expression::null(Phrase::Comment("c".to_string()));
    assert_eq!(e.kind, ExpressionKind::Null);
    assert_eq!(leaves(&e), vec![pair("Comment", "c")]);
}

#[test]
fn cursor_counts_columns_and_lines() {
    let mut s = cursor("(a\nb)");
    assert_eq!(s.peek(), Some('('));
    assert_eq!(s.column(), 0);
    let e = parse_expression(&mut s).unwrap();
    assert_eq!(leaves(&e), vec![pair("Identifier", "a"), pair("Identifier", "b")]);
    assert_eq!(s.column(), 5);
    assert_eq!(s.row(), 1);
    assert_eq!(s.next(), None);
    assert_eq!(s.column(), 5);
}
