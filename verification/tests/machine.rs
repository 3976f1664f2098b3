use let_bindings::parser::{advance, scan_value, spells_keyword, ScanState};
use let_bindings::{ParseFailure, ParserState, VarType};

fn chars(text: &str) -> Vec<char> {
    text.chars().collect()
}

fn state(phase: ParserState, pending: &str) -> ScanState {
    ScanState { phase, pending: chars(pending) }
}

#[test]
fn scan_starts_waiting_for_the_keyword() {
    let scan = ScanState::new();
    assert_eq!(scan.phase, ParserState::Let);
    assert_eq!(scan.pending, vec![]);
}

#[test]
fn keyword_is_spelled_exactly() {
    assert!(spells_keyword(&chars("let")));
    for text in ["", "l", "le", "lett", "tel", "Let", "elt"] {
        assert!(!spells_keyword(&chars(text)));
    }
}

#[test]
fn value_ends_at_the_first_other_character() {
    let source = chars("= 12 3;x");
    assert_eq!(scan_value(&source, 1), (6, chars("123")));
    assert_eq!(scan_value(&source, 3), (6, chars("23")));
    assert_eq!(scan_value(&source, 6), (6, chars("")));
    assert_eq!(scan_value(&source, 0), (0, chars("")));
    assert_eq!(scan_value(&source, 8), (8, chars("")));
    assert_eq!(scan_value(&chars("1\n2"), 0), (3, chars("12")));
}

#[test]
fn keyword_phase_collects_its_letters() {
    let source = chars("xlet");
    let mut scan = ScanState::new();
    assert_eq!(advance(&source, 0, &mut scan), Ok(None));
    assert_eq!((scan.phase, scan.pending.clone()), (ParserState::Let, chars("")));
    assert_eq!(advance(&source, 1, &mut scan), Ok(None));
    assert_eq!((scan.phase, scan.pending.clone()), (ParserState::Let, chars("l")));
    assert_eq!(advance(&source, 2, &mut scan), Ok(None));
    assert_eq!((scan.phase, scan.pending.clone()), (ParserState::Let, chars("le")));
    assert_eq!(advance(&source, 3, &mut scan), Ok(None));
    assert_eq!((scan.phase, scan.pending.clone()), (ParserState::Var, chars("")));
}

#[test]
fn identifier_phase_ends_at_a_space() {
    let source = chars(" ab ");
    let mut scan = state(ParserState::Var, "");
    assert_eq!(advance(&source, 0, &mut scan), Ok(None));
    assert_eq!((scan.phase, scan.pending.clone()), (ParserState::Var, chars("")));
    assert_eq!(advance(&source, 1, &mut scan), Ok(None));
    assert_eq!(advance(&source, 2, &mut scan), Ok(None));
    assert_eq!((scan.phase, scan.pending.clone()), (ParserState::Var, chars("ab")));
    assert_eq!(advance(&source, 3, &mut scan), Ok(None));
    assert_eq!((scan.phase, scan.pending.clone()), (ParserState::Equal, chars("ab")));
}

#[test]
fn equals_phase_waits_for_the_sign() {
    let source = chars(" =;");
    let mut scan = state(ParserState::Equal, "ab");
    assert_eq!(advance(&source, 0, &mut scan), Ok(None));
    assert_eq!((scan.phase, scan.pending.clone()), (ParserState::Equal, chars("ab")));
    assert_eq!(advance(&source, 1, &mut scan), Ok(None));
    assert_eq!((scan.phase, scan.pending.clone()), (ParserState::Assignment, chars("ab")));
    let mut scan = state(ParserState::Equal, "ab");
    assert_eq!(
        advance(&source, 2, &mut scan),
        Err(ParseFailure::UnexpectedCharacter(2, ';'))
    );
    assert_eq!((scan.phase, scan.pending.clone()), (ParserState::Equal, chars("ab")));
}

#[test]
fn value_phase_records_the_binding() {
    let source = chars("= 15;");
    let mut scan = state(ParserState::Assignment, "ab");
    assert_eq!(
        advance(&source, 1, &mut scan),
        Ok(Some(("ab".to_string(), VarType::Uint(15))))
    );
    assert_eq!((scan.phase, scan.pending.clone()), (ParserState::Let, chars("")));
}

#[test]
fn value_phase_without_identifier_does_nothing() {
    let source = chars("= 15;");
    let mut scan = state(ParserState::Assignment, "");
    assert_eq!(advance(&source, 1, &mut scan), Ok(None));
    assert_eq!((scan.phase, scan.pending.clone()), (ParserState::Assignment, chars("")));
    let source = chars("= x;");
    assert_eq!(advance(&source, 1, &mut scan), Ok(None));
    assert_eq!((scan.phase, scan.pending.clone()), (ParserState::Assignment, chars("")));
}

#[test]
fn value_phase_stays_without_digits_or_terminator() {
    let mut scan = state(ParserState::Assignment, "ab");
    assert_eq!(advance(&chars("=  ;"), 1, &mut scan), Ok(None));
    assert_eq!((scan.phase, scan.pending.clone()), (ParserState::Assignment, chars("ab")));
    assert_eq!(advance(&chars("= 15"), 1, &mut scan), Ok(None));
    assert_eq!((scan.phase, scan.pending.clone()), (ParserState::Assignment, chars("ab")));
}

#[test]
fn value_phase_reports_what_it_cannot_read() {
    let mut scan = state(ParserState::Assignment, "ab");
    assert_eq!(
        advance(&chars("= 1 5x;"), 1, &mut scan),
        Err(ParseFailure::UnsupportedValueSyntax(5, 'x'))
    );
    assert_eq!(
        advance(&chars("= 99999999999999999999;"), 1, &mut scan),
        Err(ParseFailure::NumericOverflowOrFormat("99999999999999999999".to_string()))
    );
    assert_eq!((scan.phase, scan.pending.clone()), (ParserState::Assignment, chars("ab")));
}
