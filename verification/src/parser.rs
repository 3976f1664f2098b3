//! The executable scanner.
use vstd::prelude::*;
use crate::failure::ParseFailure;
use crate::grammar::{
    digits_only, initial, is_blank, is_value_char, keyword, lemma_value_end_is, outcome, run, step,
    value_digits, value_end, ParserState, Scan, Step,
};
use crate::laws::lemma_failure_located;
use crate::number::{is_decimal_digit, parse_uint};
use crate::text::{characters, string_of};
use crate::value::{binding_of, table_of, Binding, VarType};

verus! {

/// The scanner's state between two characters.
#[derive(Debug)]
pub struct ScanState {
    pub phase: ParserState,
    pub pending: Vec<char>,
}

impl View for ScanState {
    type V = Scan;

    open spec fn view(&self) -> Scan {
        Scan { phase: self.phase, pending: self.pending@ }
    }
}

impl ScanState {
    /// The state a scan starts in.
    pub fn new() -> (scan: Self)
        ensures
            scan@ == initial(),
    {
        ScanState { phase: ParserState::Let, pending: Vec::new() }
    }
}

/// Whether the step `taken` is what the mathematical step `due` asks for.
pub open spec fn step_matches(
    taken: Result<Option<(String, VarType)>, ParseFailure>,
    after: Scan,
    before: Scan,
    due: Step,
) -> bool {
    match due {
        Step::Advance { next, emitted } => after == next && match (taken, emitted) {
            (Ok(Some(entry)), Some(binding)) => binding_of(entry) == binding,
            (Ok(None), None) => true,
            _ => false,
        },
        Step::Halt { failure } => after == before && match taken {
            Err(reported) => reported@ == failure,
            Ok(_) => false,
        },
    }
}

/// Tells whether `pending` spells the keyword.
pub fn spells_keyword(pending: &Vec<char>) -> (yes: bool)
    ensures
        yes == (pending@ == keyword()),
{
    if pending.len() == 3 && pending[0] == 'l' && pending[1] == 'e' && pending[2] == 't' {
        assert(pending@ =~= keyword());
        true
    } else {
        assert(keyword().len() == 3 && keyword()[0] == 'l' && keyword()[1] == 'e' && keyword()[2]
            == 't');
        false
    }
}

/// Reads the value that starts at `from`: where it ends, and its digits with
/// the blanks left out.
pub fn scan_value(chars: &Vec<char>, from: usize) -> (found: (usize, Vec<char>))
    requires
        from <= chars.len(),
    ensures
        found.0 == value_end(chars@, from as int),
        found.1@ == value_digits(chars@, from as int),
{
    let mut end: usize = from;
    let mut digits: Vec<char> = Vec::new();
    let mut open = true;
    proof {
        assert(chars@.subrange(from as int, from as int) =~= Seq::<char>::empty());
        Seq::<char>::empty().lemma_filter_len(digits_only());
    }
    while open && end < chars.len()
        invariant
            from <= end <= chars.len(),
            forall|k: int| from <= k < end ==> is_value_char(#[trigger] chars@[k]),
            digits@ == chars@.subrange(from as int, end as int).filter(digits_only()),
            !open ==> end < chars.len() && !is_value_char(chars@[end as int]),
        decreases chars.len() - end + if open { 1nat } else { 0nat },
    {
        let c = chars[end];
        proof {
            assert(chars@.subrange(from as int, end + 1) =~= chars@.subrange(
                from as int,
                end as int,
            ).push(c));
            chars@.subrange(from as int, end as int).lemma_filter_push(c, digits_only());
        }
        if is_decimal_digit(c) {
            digits.push(c);
            end += 1;
        } else if c == ' ' || c == '\n' {
            assert(is_blank(c));
            end += 1;
        } else {
            open = false;
        }
    }
    proof {
        lemma_value_end_is(chars@, from as int, end as int);
    }
    (end, digits)
}

/// Takes the step that the character at position `at` asks for: `scan` moves
/// to the next state, and the result is the binding to record, if the step
/// completes a statement, or the failure that stops the scan.
pub fn advance(chars: &Vec<char>, at: usize, scan: &mut ScanState) -> (taken: Result<
    Option<(String, VarType)>,
    ParseFailure,
>)
    requires
        at < chars.len(),
    ensures
        step_matches(taken, final(scan)@, old(scan)@, step(chars@, at as int, old(scan)@)),
{
    let c = chars[at];
    match scan.phase {
        ParserState::Let => {
            if c == 'l' || c == 'e' || c == 't' {
                scan.pending.push(c);
            }
            if spells_keyword(&scan.pending) {
                scan.pending.clear();
                scan.phase = ParserState::Var;
            }
            Ok(None)
        },
        ParserState::Var => {
            if c != ' ' {
                scan.pending.push(c);
            } else if scan.pending.len() > 0 {
                scan.phase = ParserState::Equal;
            }
            Ok(None)
        },
        ParserState::Equal => {
            if c == '=' {
                scan.phase = ParserState::Assignment;
                Ok(None)
            } else if c == ' ' {
                Ok(None)
            } else {
                Err(ParseFailure::UnexpectedCharacter(at, c))
            }
        },
        ParserState::Assignment => {
            if scan.pending.len() == 0 {
                return Ok(None);
            }
            let (end, digits) = scan_value(chars, at);
            if end < chars.len() && chars[end] != ';' {
                return Err(ParseFailure::UnsupportedValueSyntax(end, chars[end]));
            }
            if end >= chars.len() || digits.len() == 0 {
                return Ok(None);
            }
            match parse_uint(&digits) {
                Ok(n) => {
                    let name = string_of(&scan.pending);
                    scan.pending.clear();
                    scan.phase = ParserState::Let;
                    Ok(Some((name, VarType::Uint(n))))
                },
                Err(failure) => Err(failure),
            }
        },
    }
}

/// A table of bindings, in the order in which their statements were
/// recognised. Bindings are only ever appended.
#[derive(Debug)]
pub struct Parser {
    pub variables: Vec<(String, VarType)>,
}

impl View for Parser {
    type V = Seq<Binding>;

    open spec fn view(&self) -> Seq<Binding> {
        table_of(self.variables@)
    }
}

impl Parser {
    /// A parser with an empty table.
    pub fn new() -> (parser: Self)
        ensures
            parser@ == Seq::<Binding>::empty(),
            parser.variables@.len() == 0,
    {
        let parser = Parser { variables: Vec::new() };
        assert(parser@ =~= Seq::<Binding>::empty());
        parser
    }

    /// Appends `var` to the table.
    pub fn push_variable(&mut self, var: (String, VarType))
        ensures
            final(self).variables@ == old(self).variables@.push(var),
            final(self)@ == old(self)@.push(binding_of(var)),
    {
        self.variables.push(var);
        assert(self@ =~= old(self)@.push(binding_of(var)));
    }

    /// Scans `source` and appends the bindings of the statements it recognises,
    /// in source order. The scan stops at the first failure; the bindings
    /// recorded before it stay in the table.
    pub fn parse(&mut self, source: &str) -> (result: Result<(), ParseFailure>)
        ensures
            old(self).variables@.is_prefix_of(final(self).variables@),
            final(self)@ == old(self)@ + outcome(source@).bindings,
            match result {
                Ok(_) => outcome(source@).failure is None,
                Err(failure) => outcome(source@).failure == Some(failure@),
            },
            !(result matches Err(ParseFailure::SourceReadFailure)),
    {
        proof {
            lemma_failure_located(source@, 0, initial());
        }
        let chars = characters(source);
        let mut scan = ScanState::new();
        let mut at: usize = 0;
        assert(self@ + outcome(source@).bindings =~= old(self)@ + outcome(source@).bindings);
        while at < chars.len()
            invariant
                at <= chars.len(),
                chars@ == source@,
                old(self).variables@.is_prefix_of(self.variables@),
                old(self)@ + outcome(source@).bindings == self@ + run(
                    chars@,
                    at as int,
                    scan@,
                ).bindings,
                outcome(source@).failure == run(chars@, at as int, scan@).failure,
            decreases chars.len() - at,
        {
            let ghost before = self@;
            match advance(&chars, at, &mut scan) {
                Ok(Some(entry)) => {
                    self.push_variable(entry);
                    assert(before + (seq![binding_of(entry)] + run(
                        chars@,
                        at + 1,
                        scan@,
                    ).bindings) =~= self@ + run(chars@, at + 1, scan@).bindings);
                },
                Ok(None) => {},
                Err(failure) => {
                    assert(self@ + Seq::<Binding>::empty() =~= self@);
                    return Err(failure);
                },
            }
            at += 1;
        }
        assert(self@ + Seq::<Binding>::empty() =~= self@);
        Ok(())
    }
}

} // verus!
