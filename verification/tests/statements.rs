use let_bindings::{ParseFailure, Parser, VarType};

fn scan(source: &str) -> (Vec<(String, VarType)>, Result<(), ParseFailure>) {
    let mut parser = Parser::new();
    let result = parser.parse(source);
    (parser.variables, result)
}

fn uint(name: &str, value: u64) -> (String, VarType) {
    (name.to_string(), VarType::Uint(value))
}

#[test]
fn single_statement_yields_one_binding() {
    let (table, result) = scan("let x = 42;");
    assert_eq!(result, Ok(()));
    assert_eq!(table, vec![uint("x", 42)]);
}

#[test]
fn identifier_may_hold_any_character_but_space() {
    let (table, result) = scan("let né_3;Ω = 0;");
    assert_eq!(result, Ok(()));
    assert_eq!(table, vec![uint("né_3;Ω", 0)]);
}

#[test]
fn identifier_may_spell_the_keyword() {
    let (table, result) = scan("let let = 3;");
    assert_eq!(result, Ok(()));
    assert_eq!(table, vec![uint("let", 3)]);
}

#[test]
fn largest_value_is_accepted() {
    let (table, result) = scan("let big = 18446744073709551615;");
    assert_eq!(result, Ok(()));
    assert_eq!(table, vec![uint("big", u64::MAX)]);
}

#[test]
fn leading_zeros_do_not_change_the_value() {
    let (table, result) = scan("let x = 000000000000000000000000007;");
    assert_eq!(result, Ok(()));
    assert_eq!(table, vec![uint("x", 7)]);
}

#[test]
fn statements_are_recorded_in_source_order() {
    let (table, result) = scan("let a = 1;let b = 2;");
    assert_eq!(result, Ok(()));
    assert_eq!(table, vec![uint("a", 1), uint("b", 2)]);
}

#[test]
fn statements_on_lines_of_their_own() {
    let (table, result) = scan("let a = 1;\nlet b = 2;\n\nlet c = 30;\n");
    assert_eq!(result, Ok(()));
    assert_eq!(table, vec![uint("a", 1), uint("b", 2), uint("c", 30)]);
}

#[test]
fn same_name_is_recorded_twice() {
    let (table, result) = scan("let a = 1; let a = 2;");
    assert_eq!(result, Ok(()));
    assert_eq!(table, vec![uint("a", 1), uint("a", 2)]);
}

#[test]
fn spaces_are_tolerated() {
    let (table, result) = scan("let   x   =   7   ;");
    assert_eq!(result, Ok(()));
    assert_eq!(table, vec![uint("x", 7)]);
}

#[test]
fn no_space_is_needed_after_the_keyword_or_the_equals_sign() {
    let (table, result) = scan("letx =5;");
    assert_eq!(result, Ok(()));
    assert_eq!(table, vec![uint("x", 5)]);
}

#[test]
fn blanks_inside_a_value_are_dropped() {
    let (table, result) = scan("let x = 1\n2 3;");
    assert_eq!(result, Ok(()));
    assert_eq!(table, vec![uint("x", 123)]);
}

#[test]
fn empty_source_yields_nothing() {
    let (table, result) = scan("");
    assert_eq!(result, Ok(()));
    assert_eq!(table, vec![]);
}

#[test]
fn text_without_a_statement_yields_nothing() {
    let (table, result) = scan("# no bindings\n= 12 ;;");
    assert_eq!(result, Ok(()));
    assert_eq!(table, vec![]);
}

#[test]
fn keyword_letters_are_collected_across_other_text() {
    let (table, result) = scan("l-e-t x = 1;");
    assert_eq!(result, Ok(()));
    assert_eq!(table, vec![uint("x", 1)]);
}

#[test]
fn stray_keyword_letters_hide_what_follows() {
    let (table, result) = scan("tell let x = 1;");
    assert_eq!(result, Ok(()));
    assert_eq!(table, vec![]);
    let (table, result) = scan("let a = 1; e let b = 2;");
    assert_eq!(result, Ok(()));
    assert_eq!(table, vec![uint("a", 1)]);
}

#[test]
fn value_without_digits_is_skipped() {
    let (table, result) = scan("let x = ;");
    assert_eq!(result, Ok(()));
    assert_eq!(table, vec![]);
}

#[test]
fn value_after_a_skipped_one_is_taken() {
    let (table, result) = scan("let x = ; 5;");
    assert_eq!(result, Ok(()));
    assert_eq!(table, vec![uint("x", 5)]);
}

#[test]
fn value_without_terminator_is_not_recorded() {
    let (table, result) = scan("let x = 5");
    assert_eq!(result, Ok(()));
    assert_eq!(table, vec![]);
    let (table, result) = scan("let a = 1; let b = 2");
    assert_eq!(result, Ok(()));
    assert_eq!(table, vec![uint("a", 1)]);
}

#[test]
fn source_that_ends_early_yields_nothing() {
    for source in ["l", "let", "let ", "let x", "let x ", "let x ="] {
        let (table, result) = scan(source);
        assert_eq!(result, Ok(()));
        assert_eq!(table, vec![]);
    }
}

#[test]
fn scanning_twice_gives_equal_tables() {
    let source = "let a = 1;\nlet b = 22;\nlet c = 333;";
    let (first, first_result) = scan(source);
    let (second, second_result) = scan(source);
    assert_eq!(first, second);
    assert_eq!(first_result, second_result);
    assert_eq!(first, vec![uint("a", 1), uint("b", 22), uint("c", 333)]);
    let failing = "let a = 1; let b = ?;";
    assert_eq!(scan(failing), scan(failing));
}

#[test]
fn parse_appends_to_the_table() {
    let mut parser = Parser::new();
    parser.push_variable(("first".to_string(), VarType::Bool(true)));
    assert_eq!(parser.parse("let x = 1;"), Ok(()));
    assert_eq!(parser.parse("let y = 2;"), Ok(()));
    assert_eq!(
        parser.variables,
        vec![("first".to_string(), VarType::Bool(true)), uint("x", 1), uint("y", 2)]
    );
}

#[test]
fn push_variable_appends_in_order() {
    let mut parser = Parser::new();
    assert_eq!(parser.variables, vec![]);
    parser.push_variable(("a".to_string(), VarType::Int(-3)));
    parser.push_variable(("b".to_string(), VarType::String("text".to_string())));
    parser.push_variable(("a".to_string(), VarType::Uint(9)));
    assert_eq!(
        parser.variables,
        vec![
            ("a".to_string(), VarType::Int(-3)),
            ("b".to_string(), VarType::String("text".to_string())),
            uint("a", 9),
        ]
    );
}
