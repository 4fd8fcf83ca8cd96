//! The cursor over the input characters: one character of lookahead, and
//! the bookkeeping of how far it has read.

use vstd::prelude::*;

use crate::grammar::{skip_space, whitespace};

verus! {

/// The number of line breaks in `s`.
pub open spec fn line_breaks(s: Seq<char>) -> nat
    decreases s.len(),
{
    if s.len() == 0 {
        0
    } else {
        line_breaks(s.drop_last()) + if s.last() == '\n' {
            1nat
        } else {
            0nat
        }
    }
}

pub proof fn lemma_line_breaks_bound(s: Seq<char>)
    ensures
        line_breaks(s) <= s.len(),
    decreases s.len(),
{
    if s.len() > 0 {
        lemma_line_breaks_bound(s.drop_last());
    }
}

/// Relies on `char::is_whitespace`: whether `c` has the Unicode `White_Space`
/// property.
#[verifier::external_body]
fn is_whitespace(c: char) -> (r: bool)
    ensures
        r == whitespace(c),
{
    c.is_whitespace()
}

/// A read position in a sequence of characters.
///
/// The column counts every character consumed so far and is the index of
/// the next one; the line counts the line breaks among them.
pub struct Parser {
    chars: Vec<char>,
    col: usize,
    row: usize,
}

impl Parser {
    /// The characters being read.
    pub closed spec fn input(&self) -> Seq<char> {
        self.chars@
    }

    /// How many characters have been consumed.
    pub closed spec fn position(&self) -> nat {
        self.col as nat
    }

    /// How many line breaks have been consumed.
    pub closed spec fn line(&self) -> nat {
        self.row as nat
    }

    pub closed spec fn wf(&self) -> bool {
        &&& self.col <= self.chars.len()
        &&& self.row == line_breaks(self.chars@.take(self.col as int))
    }

    pub proof fn lemma_wf(&self)
        requires
            self.wf(),
        ensures
            self.position() <= self.input().len(),
            self.line() == line_breaks(self.input().take(self.position() as int)),
    {
    }

    pub fn new(stream: Vec<char>) -> (r: Parser)
        ensures
            r.wf(),
            r.input() == stream@,
            r.position() == 0,
            r.line() == 0,
    {
        let r = Parser { chars: stream, col: 0, row: 0 };
        assert(r.chars@.take(0).len() == 0);
        r
    }

    /// The next character, without consuming it.
    pub fn peek(&self) -> (r: Option<char>)
        requires
            self.wf(),
        ensures
            r == if self.position() < self.input().len() {
                Some(self.input()[self.position() as int])
            } else {
                None::<char>
            },
    {
        if self.col < self.chars.len() {
            Some(self.chars[self.col])
        } else {
            None
        }
    }

    /// Consumes and returns the next character.
    pub fn next(&mut self) -> (r: Option<char>)
        requires
            old(self).wf(),
        ensures
            final(self).wf(),
            final(self).input() == old(self).input(),
            r == if old(self).position() < old(self).input().len() {
                Some(old(self).input()[old(self).position() as int])
            } else {
                None::<char>
            },
            final(self).position() == if old(self).position() < old(self).input().len() {
                old(self).position() + 1
            } else {
                old(self).position()
            },
    {
        if self.col < self.chars.len() {
            let c = self.chars[self.col];
            proof {
                let s = self.chars@;
                let k = self.col as int;
                assert(s.take(k + 1).drop_last() =~= s.take(k));
                lemma_line_breaks_bound(s.take(k));
            }
            if c == '\n' {
                self.row = self.row + 1;
            }
            self.col = self.col + 1;
            Some(c)
        } else {
            None
        }
    }

    /// How many characters have been consumed.
    pub fn column(&self) -> (r: usize)
        ensures
            r == self.position(),
    {
        self.col
    }

    /// How many line breaks have been consumed.
    pub fn row(&self) -> (r: usize)
        ensures
            r == self.line(),
    {
        self.row
    }
}

/// Consumes whitespace up to the next other character or the end of input.
pub fn parse_whitespace(s: &mut Parser)
    requires
        old(s).wf(),
    ensures
        final(s).wf(),
        final(s).input() == old(s).input(),
        final(s).position() == skip_space(old(s).input(), old(s).position()),
{
    proof {
        s.lemma_wf();
    }
    loop
        invariant
            s.wf(),
            s.input() == old(s).input(),
            skip_space(s.input(), s.position()) == skip_space(old(s).input(), old(s).position()),
        ensures
            s.wf(),
            s.input() == old(s).input(),
            s.position() == skip_space(old(s).input(), old(s).position()),
        decreases s.input().len() - s.position(),
    {
        proof {
            s.lemma_wf();
        }
        match s.peek() {
            Some(c) => {
                if !is_whitespace(c) {
                    break;
                }
            },
            None => break,
        }
        s.next();
    }
}

} // verus!
