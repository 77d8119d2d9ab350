//! Regular-expression patterns as trees, written out with parentheses only
//! where the precedence of the operators asks for them.

use vstd::prelude::*;
use vstd::string::StringExecFns;

pub mod grammar;

verus! {

/// `String::push` of the standard library: appends one character to the end
/// of the string and leaves what was there untouched.
pub assume_specification[ String::push ](s: &mut String, ch: char)
    ensures
        final(s)@ == old(s)@.push(ch),
;

/// A pattern: nothing, one character, one pattern after another, one of two
/// patterns, or a pattern any number of times.
#[derive(Debug, PartialEq, Eq)]
pub enum Pattern {
    Empty,
    Literal { character: char },
    Concatenate { first: Box<Pattern>, second: Box<Pattern> },
    Choose { first: Box<Pattern>, second: Box<Pattern> },
    Repeat { pattern: Box<Pattern> },
}

impl Pattern {
    /// How tightly the pattern's operator binds: a choice least, then a
    /// sequence, then a repetition; a character and the empty pattern stand
    /// alone and bind tightest.
    pub open spec fn rank(self) -> nat {
        match self {
            Pattern::Empty => 3,
            Pattern::Literal { .. } => 3,
            Pattern::Concatenate { .. } => 1,
            Pattern::Choose { .. } => 0,
            Pattern::Repeat { .. } => 2,
        }
    }

    /// The pattern written out. Each part of a composite pattern is written
    /// as a phrase that binds at least as tightly as the composite.
    pub open spec fn rendering(self) -> Seq<char>
        decreases self, 0nat,
    {
        match self {
            Pattern::Empty => Seq::empty(),
            Pattern::Literal { character } => seq![character],
            Pattern::Concatenate { first, second } => first.bracketed(1) + second.bracketed(1),
            Pattern::Choose { first, second } => first.bracketed(0) + seq!['|'] + second.bracketed(0),
            Pattern::Repeat { pattern } => pattern.bracketed(2) + seq!['*'],
        }
    }

    /// The pattern written out as a phrase that binds at least as tightly
    /// as `outer`: as it is where it binds that tightly, else in
    /// parentheses.
    pub open spec fn bracketed(self, outer: nat) -> Seq<char>
        decreases self, 1nat,
    {
        if self.rank() < outer {
            seq!['('] + self.rendering() + seq![')']
        } else {
            self.rendering()
        }
    }

    /// How tightly the pattern's operator binds.
    pub fn precedence(&self) -> (p: usize)
        ensures
            p == self.rank(),
    {
        match self {
            Pattern::Empty => 3,
            Pattern::Literal { .. } => 3,
            Pattern::Concatenate { .. } => 1,
            Pattern::Choose { .. } => 0,
            Pattern::Repeat { .. } => 2,
        }
    }

    /// Writes the pattern out for a place that wants a phrase of precedence
    /// `outer_precedence` or more.
    pub fn bracket(&self, outer_precedence: usize) -> (s: String)
        ensures
            s@ == self.bracketed(outer_precedence as nat),
        decreases self, 1nat,
    {
        if self.precedence() < outer_precedence {
            let mut s = String::new();
            s.push('(');
            s.append(self.render().as_str());
            s.push(')');
            s
        } else {
            self.render()
        }
    }

    /// Writes the pattern out.
    pub fn render(&self) -> (s: String)
        ensures
            s@ == self.rendering(),
        decreases self, 0nat,
    {
        match self {
            Pattern::Empty => String::new(),
            Pattern::Literal { character } => {
                let mut s = String::new();
                s.push(*character);
                s
            },
            Pattern::Concatenate { first, second } => {
                let mut s = first.bracket(1);
                s.append(second.bracket(1).as_str());
                s
            },
            Pattern::Choose { first, second } => {
                let mut s = first.bracket(0);
                s.push('|');
                s.append(second.bracket(0).as_str());
                s
            },
            Pattern::Repeat { pattern } => {
                let mut s = pattern.bracket(2);
                s.push('*');
                s
            },
        }
    }

    /// Writes the pattern out between two slashes.
    pub fn inspect(&self) -> (s: String)
        ensures
            s@ == seq!['/'] + self.rendering() + seq!['/'],
    {
        let mut s = String::new();
        s.push('/');
        s.append(self.render().as_str());
        s.push('/');
        s
    }
}

} // verus!
