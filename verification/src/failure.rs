//! Why a scan stops early.
use vstd::prelude::*;

verus! {

/// The mathematical content of a failure.
pub enum Failure {
    /// Something other than `=` or a space stood where the equals sign was due.
    UnexpectedCharacter { position: nat, found: char },
    /// A value held a character that is neither a digit, a blank nor `;`.
    UnsupportedValueSyntax { position: nat, found: char },
    /// The digits of a value do not denote an unsigned 64-bit integer.
    NumericOverflowOrFormat { text: Seq<char> },
    /// The source could not be read.
    SourceReadFailure,
}

/// Why a scan stopped. Positions count characters from the start of the source.
#[derive(Debug, Clone, PartialEq, Eq)]
pub enum ParseFailure {
    /// Something other than `=` or a space stood where the equals sign was due.
    UnexpectedCharacter(usize, char),
    /// A value held a character that is neither a digit, a blank nor `;`.
    UnsupportedValueSyntax(usize, char),
    /// The digits of a value do not denote an unsigned 64-bit integer.
    NumericOverflowOrFormat(String),
    /// The source could not be read. The scanner never reports this itself: it
    /// is for the caller that reads the source on the scanner's behalf.
    SourceReadFailure,
}

impl View for ParseFailure {
    type V = Failure;

    open spec fn view(&self) -> Failure {
        match self {
            ParseFailure::UnexpectedCharacter(position, found) => Failure::UnexpectedCharacter {
                position: *position as nat,
                found: *found,
            },
            ParseFailure::UnsupportedValueSyntax(position, found) => {
                Failure::UnsupportedValueSyntax { position: *position as nat, found: *found }
            },
            ParseFailure::NumericOverflowOrFormat(text) => Failure::NumericOverflowOrFormat {
                text: text@,
            },
            ParseFailure::SourceReadFailure => Failure::SourceReadFailure,
        }
    }
}

} // verus!
