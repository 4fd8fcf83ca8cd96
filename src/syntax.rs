//! The tree produced by the parser, and its mathematical view.

use vstd::prelude::*;

verus! {

/// The kind of a delimited group, fixed by its opening delimiter.
#[derive(Clone, Copy, Debug, PartialEq, Eq, Structural)]
pub enum ExpressionKind {
    /// `{ .. }`
    Block,
    /// `[ .. ]`
    List,
    /// `( .. )`
    Item,
    /// A bare comment standing where a group was expected; its only child is
    /// that comment.
    Null,
}

/// The ways a parse can fail.
#[derive(Clone, Copy, Debug, PartialEq, Eq, Structural)]
pub enum ParseError {
    /// No phrase starts at the next character (or the input has ended).
    Unexpected,
    /// A group is not closed by the delimiter that matches its opener.
    Mismatched,
}

/// One syntactic unit: a nested group or a leaf token holding its raw text.
#[derive(Debug)]
pub enum Phrase {
    Expression(Expression),
    Identifier(String),
    Text(String),
    Number(String),
    Comment(String),
}

/// A delimited group and its children, in source order.
#[derive(Debug)]
pub struct Expression {
    pub kind: ExpressionKind,
    pub values: Vec<Phrase>,
}

/// The mathematical form of a [`Phrase`].
pub enum PhraseView {
    Expression(ExpressionView),
    Identifier(Seq<char>),
    Text(Seq<char>),
    Number(Seq<char>),
    Comment(Seq<char>),
}

/// The mathematical form of an [`Expression`].
pub struct ExpressionView {
    pub kind: ExpressionKind,
    pub values: Seq<PhraseView>,
}

/// The views of a sequence of phrases.
pub open spec fn phrase_views(v: Seq<Phrase>) -> Seq<PhraseView> {
    v.map_values(|p: Phrase| p@)
}

/// The views of a sequence of groups.
pub open spec fn expression_views(v: Seq<Expression>) -> Seq<ExpressionView> {
    v.map_values(|e: Expression| e@)
}

impl Phrase {
    pub open spec fn view(&self) -> PhraseView
        decreases self, 0int,
    {
        match self {
            Phrase::Expression(e) => PhraseView::Expression(e.view()),
            Phrase::Identifier(t) => PhraseView::Identifier(t@),
            Phrase::Text(t) => PhraseView::Text(t@),
            Phrase::Number(t) => PhraseView::Number(t@),
            Phrase::Comment(t) => PhraseView::Comment(t@),
        }
    }
}

impl Expression {
    pub open spec fn view(&self) -> ExpressionView
        decreases self, 1int,
    {
        ExpressionView {
            kind: self.kind,
            values: Seq::new(
                self.values.len() as nat,
                |i: int|
                    if 0 <= i < self.values.len() {
                        self.values[i].view()
                    } else {
                        PhraseView::Number(Seq::empty())
                    },
            ),
        }
    }

    /// Wraps a phrase (a comment, where the parser makes one) as a `Null`
    /// group with that single child.
    pub fn null(value: Phrase) -> (r: Expression)
        ensures
            r.kind == ExpressionKind::Null,
            r.values@.len() == 1,
            r.values@[0]@ == value@,
    {
        Expression { kind: ExpressionKind::Null, values: vec![value] }
    }
}

} // verus!
