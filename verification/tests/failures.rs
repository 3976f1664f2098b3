use let_bindings::{ParseFailure, Parser, VarType};

fn scan(source: &str) -> (Vec<(String, VarType)>, Result<(), ParseFailure>) {
    let mut parser = Parser::new();
    let result = parser.parse(source);
    (parser.variables, result)
}

#[test]
fn letters_in_a_value_are_unsupported() {
    let (table, result) = scan("let x = abc;");
    assert_eq!(result, Err(ParseFailure::UnsupportedValueSyntax(8, 'a')));
    assert_eq!(table, vec![]);
}

#[test]
fn sign_in_a_value_is_unsupported() {
    let (_, result) = scan("let x = -1;");
    assert_eq!(result, Err(ParseFailure::UnsupportedValueSyntax(8, '-')));
    let (_, result) = scan("let x = +1;");
    assert_eq!(result, Err(ParseFailure::UnsupportedValueSyntax(8, '+')));
}

#[test]
fn tab_in_a_value_is_unsupported() {
    let (_, result) = scan("let x =\t1;");
    assert_eq!(result, Err(ParseFailure::UnsupportedValueSyntax(7, '\t')));
}

#[test]
fn separator_in_a_value_is_unsupported() {
    let (_, result) = scan("let x = 1_000;");
    assert_eq!(result, Err(ParseFailure::UnsupportedValueSyntax(9, '_')));
    let (_, result) = scan("let x = 0x10;");
    assert_eq!(result, Err(ParseFailure::UnsupportedValueSyntax(9, 'x')));
}

#[test]
fn anything_but_the_equals_sign_is_unexpected() {
    let (table, result) = scan("let x ! 7;");
    assert_eq!(result, Err(ParseFailure::UnexpectedCharacter(6, '!')));
    assert_eq!(table, vec![]);
}

#[test]
fn equals_sign_needs_a_space_before_it() {
    let (_, result) = scan("let x= 5;");
    assert_eq!(result, Err(ParseFailure::UnexpectedCharacter(7, '5')));
}

#[test]
fn line_break_does_not_end_an_identifier() {
    let (_, result) = scan("let x\n= 1;");
    assert_eq!(result, Err(ParseFailure::UnexpectedCharacter(8, '1')));
}

#[test]
fn positions_count_characters() {
    let (_, result) = scan("let é ! 1;");
    assert_eq!(result, Err(ParseFailure::UnexpectedCharacter(6, '!')));
    let (_, result) = scan("let Ωμ = 1é;");
    assert_eq!(result, Err(ParseFailure::UnsupportedValueSyntax(10, 'é')));
}

#[test]
fn value_above_the_range_overflows() {
    let (table, result) = scan("let x = 18446744073709551616;");
    assert_eq!(
        result,
        Err(ParseFailure::NumericOverflowOrFormat("18446744073709551616".to_string()))
    );
    assert_eq!(table, vec![]);
}

#[test]
fn overflow_reports_the_digits_without_blanks() {
    let (_, result) = scan("let x = 99999 99999 99999 99999 ;");
    assert_eq!(
        result,
        Err(ParseFailure::NumericOverflowOrFormat("99999999999999999999".to_string()))
    );
}

#[test]
fn failure_keeps_the_bindings_before_it() {
    let (table, result) = scan("let a = 1;let b = x;");
    assert_eq!(result, Err(ParseFailure::UnsupportedValueSyntax(18, 'x')));
    assert_eq!(table, vec![("a".to_string(), VarType::Uint(1))]);
    let (table, result) = scan("let a = 1;\nlet b = 2;\nlet c # 3;\nlet d = 4;");
    assert_eq!(result, Err(ParseFailure::UnexpectedCharacter(28, '#')));
    assert_eq!(
        table,
        vec![("a".to_string(), VarType::Uint(1)), ("b".to_string(), VarType::Uint(2))]
    );
}

#[test]
fn scan_stops_at_the_first_failure() {
    let (table, result) = scan("let a ? 1; let b = 99999999999999999999;");
    assert_eq!(result, Err(ParseFailure::UnexpectedCharacter(6, '?')));
    assert_eq!(table, vec![]);
}
