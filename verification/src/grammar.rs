//! The scanner as mathematics: its phases, what one character does to it, and
//! what a whole source yields.
use vstd::prelude::*;
use crate::failure::Failure;
use crate::number::{is_digit, uint_of};
use crate::value::{Binding, Value};

verus! {

/// The phase the scanner is in.
#[derive(Debug, Clone, Copy, PartialEq, Eq, Structural)]
pub enum ParserState {
    /// Collecting the letters of the keyword.
    Let,
    /// Collecting the identifier.
    Var,
    /// Waiting for the equals sign.
    Equal,
    /// Reading the value.
    Assignment,
}

/// The scanner between two characters: its phase and the characters it has
/// collected for that phase.
pub struct Scan {
    pub phase: ParserState,
    pub pending: Seq<char>,
}

/// What one character leads to.
pub enum Step {
    /// The scan goes on from `next`, having recorded `emitted` if there is one.
    Advance { next: Scan, emitted: Option<Binding> },
    /// The scan stops.
    Halt { failure: Failure },
}

/// What a scan yields: the bindings recorded, in source order, and the failure
/// that stopped it, if one did.
pub struct Outcome {
    pub bindings: Seq<Binding>,
    pub failure: Option<Failure>,
}

/// The keyword that opens a statement.
pub open spec fn keyword() -> Seq<char> {
    seq!['l', 'e', 't']
}

/// The letters that the keyword is made of.
pub open spec fn is_keyword_letter(c: char) -> bool {
    c == 'l' || c == 'e' || c == 't'
}

/// The characters that may stand between the digits of a value.
pub open spec fn is_blank(c: char) -> bool {
    c == ' ' || c == '\n'
}

/// The characters a value is made of: digits and blanks.
pub open spec fn is_value_char(c: char) -> bool {
    is_digit(c) || is_blank(c)
}

/// The predicate that keeps the digits of a value.
pub open spec fn digits_only() -> spec_fn(char) -> bool {
    |c: char| is_digit(c)
}

/// How the scanner starts: waiting for the keyword, with nothing collected.
pub open spec fn initial() -> Scan {
    Scan { phase: ParserState::Let, pending: Seq::empty() }
}

/// Where the value that starts at `from` ends: the first position at or after
/// `from` that holds neither a digit nor a blank, or the length of the source
/// if there is none.
pub open spec fn value_end(src: Seq<char>, from: int) -> int
    decreases src.len() - from,
{
    if 0 <= from < src.len() && is_value_char(src[from]) {
        value_end(src, from + 1)
    } else {
        from
    }
}

/// The digits of the value that starts at `from`, blanks left out.
pub open spec fn value_digits(src: Seq<char>, from: int) -> Seq<char> {
    src.subrange(from, value_end(src, from)).filter(digits_only())
}

/// One character in the keyword phase. The letters `l`, `e` and `t` are
/// collected and everything else is passed over; once the collected letters
/// spell the keyword, the identifier is due.
pub open spec fn step_keyword(pending: Seq<char>, c: char) -> Step {
    let collected = if is_keyword_letter(c) {
        pending.push(c)
    } else {
        pending
    };
    if collected == keyword() {
        Step::Advance {
            next: Scan { phase: ParserState::Var, pending: Seq::empty() },
            emitted: None,
        }
    } else {
        Step::Advance { next: Scan { phase: ParserState::Let, pending: collected }, emitted: None }
    }
}

/// One character in the identifier phase. Every character but the space joins
/// the identifier; a space ends a non-empty identifier and is passed over
/// before the identifier has begun.
pub open spec fn step_identifier(pending: Seq<char>, c: char) -> Step {
    if c != ' ' {
        Step::Advance {
            next: Scan { phase: ParserState::Var, pending: pending.push(c) },
            emitted: None,
        }
    } else if pending.len() > 0 {
        Step::Advance { next: Scan { phase: ParserState::Equal, pending }, emitted: None }
    } else {
        Step::Advance { next: Scan { phase: ParserState::Var, pending }, emitted: None }
    }
}

/// One character in the equals phase, at position `at`. Spaces are passed
/// over, `=` opens the value, and anything else stops the scan.
pub open spec fn step_equals(pending: Seq<char>, at: int, c: char) -> Step {
    if c == '=' {
        Step::Advance { next: Scan { phase: ParserState::Assignment, pending }, emitted: None }
    } else if c == ' ' {
        Step::Advance { next: Scan { phase: ParserState::Equal, pending }, emitted: None }
    } else {
        Step::Halt { failure: Failure::UnexpectedCharacter { position: at as nat, found: c } }
    }
}

/// The value phase at position `at`. The value runs from `at` to the next
/// character that is neither digit nor blank.
///
/// - With no identifier collected, nothing happens.
/// - If the value is cut short by anything but `;`, the scan stops there.
/// - If the source ends before a `;` is seen, or the value holds no digit, no
///   binding is recorded and the phase stays as it is.
/// - Otherwise the digits are read as an unsigned 64-bit integer: the scan
///   stops if they denote none, and else the binding is recorded and the scanner
///   waits for the next keyword.
///
/// Only the scanner's state changes here. The scan itself goes on with the
/// character after `at`, so the rest of the value is then passed over by the
/// keyword phase.
pub open spec fn step_value(src: Seq<char>, at: int, pending: Seq<char>) -> Step {
    let stay = Step::Advance {
        next: Scan { phase: ParserState::Assignment, pending },
        emitted: None,
    };
    let end = value_end(src, at);
    let digits = value_digits(src, at);
    if pending.len() == 0 {
        stay
    } else if end < src.len() && src[end] != ';' {
        Step::Halt { failure: Failure::UnsupportedValueSyntax { position: end as nat, found: src[end] } }
    } else if end >= src.len() || digits.len() == 0 {
        stay
    } else {
        match uint_of(digits) {
            Some(n) => Step::Advance {
                next: initial(),
                emitted: Some((pending, Value::Uint(n))),
            },
            None => Step::Halt { failure: Failure::NumericOverflowOrFormat { text: digits } },
        }
    }
}

/// What the character at position `at` of `src` does to a scanner in state
/// `scan`.
pub open spec fn step(src: Seq<char>, at: int, scan: Scan) -> Step
    recommends
        0 <= at < src.len(),
{
    match scan.phase {
        ParserState::Let => step_keyword(scan.pending, src[at]),
        ParserState::Var => step_identifier(scan.pending, src[at]),
        ParserState::Equal => step_equals(scan.pending, at, src[at]),
        ParserState::Assignment => step_value(src, at, scan.pending),
    }
}

/// `first` followed by what `rest` yields.
pub open spec fn then_outcome(first: Option<Binding>, rest: Outcome) -> Outcome {
    Outcome {
        bindings: match first {
            Some(binding) => seq![binding] + rest.bindings,
            None => rest.bindings,
        },
        failure: rest.failure,
    }
}

/// What scanning `src` from position `at` onwards yields, for a scanner in
/// state `scan`: the character steps are taken one after the other until the
/// source ends or a step stops the scan.
pub open spec fn run(src: Seq<char>, at: int, scan: Scan) -> Outcome
    decreases src.len() - at,
{
    if 0 <= at < src.len() {
        match step(src, at, scan) {
            Step::Advance { next, emitted } => then_outcome(emitted, run(src, at + 1, next)),
            Step::Halt { failure } => Outcome { bindings: Seq::empty(), failure: Some(failure) },
        }
    } else {
        Outcome { bindings: Seq::empty(), failure: None }
    }
}

/// What scanning the whole of `src` yields.
pub open spec fn outcome(src: Seq<char>) -> Outcome {
    run(src, 0, initial())
}

/// The end of a value is the one position that closes the run of digits and
/// blanks starting at `from`.
pub proof fn lemma_value_end(src: Seq<char>, from: int)
    requires
        0 <= from <= src.len(),
    ensures
        from <= value_end(src, from) <= src.len(),
        forall|k: int| from <= k < value_end(src, from) ==> is_value_char(#[trigger] src[k]),
        value_end(src, from) < src.len() ==> !is_value_char(src[value_end(src, from)]),
    decreases src.len() - from,
{
    if from < src.len() && is_value_char(src[from]) {
        lemma_value_end(src, from + 1);
    }
}

/// A position that closes the run of digits and blanks starting at `from` is
/// the end of the value.
pub proof fn lemma_value_end_is(src: Seq<char>, from: int, end: int)
    requires
        0 <= from <= end <= src.len(),
        forall|k: int| from <= k < end ==> is_value_char(#[trigger] src[k]),
        end < src.len() ==> !is_value_char(src[end]),
    ensures
        value_end(src, from) == end,
    decreases end - from,
{
    if from < end {
        assert(is_value_char(src[from]));
        lemma_value_end_is(src, from + 1, end);
    }
}

} // verus!
