//! The failures of a run.

use vstd::prelude::*;

verus! {

/// The ways in which running a program can fail.
#[derive(Debug, PartialEq, Eq, PartialOrd, Ord, Structural)]
pub enum BrainLuckError {
    /// The instruction pointer reached a character that is neither an
    /// instruction nor white space.
    UnexpectedCharInCode(char),
    /// A `,` was executed after the whole input had been consumed.
    UnexpectedEndOfInput,
    /// A jump was to be taken from a bracket that has no partner.
    UnbalancedBrackets,
}

impl BrainLuckError {
    /// The text that describes the error to a reader.
    pub open spec fn message_text(self) -> Seq<char> {
        match self {
            BrainLuckError::UnexpectedCharInCode(c) => "unexpected char "@.push(c)
                + " occured in code."@,
            BrainLuckError::UnexpectedEndOfInput => "unexpected end of input."@,
            BrainLuckError::UnbalancedBrackets => "unbalanced brackets."@,
        }
    }

    /// Describes the error in one sentence.
    pub fn message(&self) -> (text: String)
        ensures
            text@ == self.message_text(),
    {
        match self {
            BrainLuckError::UnexpectedCharInCode(c) => {
                let mut text = String::from_str("unexpected char ");
                text.push(*c);
                text.append(" occured in code.");
                text
            },
            BrainLuckError::UnexpectedEndOfInput => String::from_str("unexpected end of input."),
            BrainLuckError::UnbalancedBrackets => String::from_str("unbalanced brackets."),
        }
    }
}

} // verus!
