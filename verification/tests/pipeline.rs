use stacklang::checker::check_program;
use stacklang::interp::{interpret_program, RunFault};
use stacklang::lexer::{lex, update_location, LexingResult, Token, TokenKind};

fn scan(text: &str) -> Vec<Token> {
    match lex("<test>", text.to_string()) {
        LexingResult::Tokens(tokens) => tokens,
        LexingResult::Failure { location, message } => {
            panic!(
                "unexpected scan failure at {}:{}: {}",
                location.line, location.column, message
            );
        }
    }
}

fn run_accepted(text: &str) -> (Vec<i32>, Option<RunFault>) {
    let tokens = scan(text);
    match check_program(tokens.clone()) {
        Ok(()) => {}
        Err(e) => panic!(
            "unexpected check failure at {}:{}: {}",
            e.location.line, e.location.column, e.message
        ),
    }
    interpret_program(tokens)
}

#[test]
fn lex_single_literal() {
    let tokens = scan("42");
    assert_eq!(tokens.len(), 1);
    assert_eq!(tokens[0].kind, TokenKind::IntLiteral);
    assert_eq!(tokens[0].value, "42");
    assert_eq!(tokens[0].location.file, "<test>");
    assert_eq!(tokens[0].location.line, 1);
    assert_eq!(tokens[0].location.column, 1);
}

#[test]
fn literal_round_trip() {
    let tokens = scan("907");
    assert_eq!(tokens.len(), 1);
    assert_eq!(tokens[0].kind, TokenKind::IntLiteral);
    assert_eq!(tokens[0].value, "907");
    let (out, fault) = run_accepted("907 print");
    assert_eq!(out, vec![907]);
    assert_eq!(fault, None);
}

#[test]
fn empty_and_whitespace_inputs() {
    assert_eq!(scan("").len(), 0);
    assert_eq!(scan("  \n\t  \r\n ").len(), 0);
}

#[test]
fn token_locations_monotonic() {
    let tokens = scan("1 2 +\nprint");
    let positions: Vec<(i32, i32)> = tokens
        .iter()
        .map(|t| (t.location.line, t.location.column))
        .collect();
    assert_eq!(positions, vec![(1, 1), (1, 3), (1, 5), (2, 1)]);
    for w in positions.windows(2) {
        assert!(w[0].0 < w[1].0 || (w[0].0 == w[1].0 && w[0].1 <= w[1].1));
    }
}

#[test]
fn adjacent_tokens_one_per_step() {
    let tokens = scan("12+34");
    let kinds: Vec<TokenKind> = tokens.iter().map(|t| t.kind).collect();
    assert_eq!(
        kinds,
        vec![TokenKind::IntLiteral, TokenKind::Plus, TokenKind::IntLiteral]
    );
    assert_eq!(tokens[0].value, "12");
    assert_eq!(tokens[2].value, "34");
    let columns: Vec<i32> = tokens.iter().map(|t| t.location.column).collect();
    assert_eq!(columns, vec![1, 3, 4]);
}

#[test]
fn word_token_shapes() {
    let tokens = scan("x_1 _y Print");
    assert_eq!(tokens.len(), 3);
    for t in &tokens {
        assert_eq!(t.kind, TokenKind::Word);
    }
    assert_eq!(tokens[0].value, "x_1");
    assert_eq!(tokens[1].value, "_y");
    assert_eq!(tokens[2].value, "Print");
}

#[test]
fn operator_kinds() {
    let tokens = scan("+ - * /");
    let kinds: Vec<TokenKind> = tokens.iter().map(|t| t.kind).collect();
    assert_eq!(
        kinds,
        vec![
            TokenKind::Plus,
            TokenKind::Minus,
            TokenKind::Times,
            TokenKind::Div
        ]
    );
}

#[test]
fn scenario_syntax_failure() {
    match lex("<test>", "1 @ 2".to_string()) {
        LexingResult::Tokens(_) => panic!("scan accepted an invalid character"),
        LexingResult::Failure { location, message } => {
            assert_eq!(location.file, "<test>");
            assert_eq!(location.line, 1);
            assert_eq!(location.column, 3);
            assert_eq!(message, "SYNTAX ERROR: Invalid character: `@`");
        }
    }
}

#[test]
fn syntax_failure_location_after_newline() {
    match lex("<test>", "1 2 +\n  ?".to_string()) {
        LexingResult::Tokens(_) => panic!("scan accepted an invalid character"),
        LexingResult::Failure { location, message } => {
            assert_eq!(location.line, 2);
            assert_eq!(location.column, 3);
            assert_eq!(message, "SYNTAX ERROR: Invalid character: `?`");
        }
    }
}

#[test]
fn scenario_type_failure() {
    let tokens = scan("1 +");
    match check_program(tokens) {
        Ok(()) => panic!("checker accepted an operator with one operand"),
        Err(e) => {
            assert_eq!(e.location.line, 1);
            assert_eq!(e.location.column, 3);
            assert_eq!(
                e.message,
                "Not enough arguments for `+` (plus) operation, expected 2, got 1"
            );
        }
    }
}

#[test]
fn checker_reports_zero_operands() {
    let tokens = scan("*");
    match check_program(tokens) {
        Ok(()) => panic!("checker accepted an operator on an empty stack"),
        Err(e) => {
            assert_eq!(e.location.column, 1);
            assert_eq!(
                e.message,
                "Not enough arguments for `*` (times) operation, expected 2, got 0"
            );
        }
    }
}

#[test]
fn checker_rejects_print_on_empty_stack() {
    let tokens = scan("print");
    match check_program(tokens) {
        Ok(()) => panic!("checker accepted print on an empty stack"),
        Err(e) => {
            assert_eq!(e.location.line, 1);
            assert_eq!(e.location.column, 1);
            assert_eq!(e.message, "TYPE ERROR: Attempting to print with an empty stack");
        }
    }
}

#[test]
fn checker_rejects_unknown_word() {
    let tokens = scan("1 foo");
    match check_program(tokens) {
        Ok(()) => panic!("checker accepted an unknown word"),
        Err(e) => {
            assert_eq!(e.location.line, 1);
            assert_eq!(e.location.column, 3);
            assert_eq!(e.message, "TYPE ERROR: Unknown word: `foo`");
        }
    }
}

#[test]
fn checker_tolerates_residual_values() {
    let tokens = scan("1 2");
    assert!(check_program(tokens.clone()).is_ok());
    let (out, fault) = interpret_program(tokens);
    assert_eq!(out, Vec::<i32>::new());
    assert_eq!(fault, None);
}

#[test]
fn arithmetic_operand_order() {
    let (out, fault) = run_accepted("7 2 - print");
    assert_eq!(out, vec![5]);
    assert_eq!(fault, None);
}

#[test]
fn addition_and_multiplication() {
    let (out, fault) = run_accepted("1 2 + print");
    assert_eq!(out, vec![3]);
    assert_eq!(fault, None);
    let (out, fault) = run_accepted("6 7 * print");
    assert_eq!(out, vec![42]);
    assert_eq!(fault, None);
}

#[test]
fn division_truncates_toward_zero() {
    let (out, fault) = run_accepted("8 2 / print");
    assert_eq!(out, vec![4]);
    assert_eq!(fault, None);
    // -7 / 2 is -3 under truncating division, not -4
    let (out, fault) = run_accepted("0 7 - 2 / print");
    assert_eq!(out, vec![-3]);
    assert_eq!(fault, None);
}

#[test]
fn scenario_success() {
    let (out, fault) = run_accepted("1 2 +\nprint\n3 4 +\nprint");
    assert_eq!(out, vec![3, 7]);
    assert_eq!(fault, None);
}

#[test]
fn trailing_print_without_residual_is_rejected() {
    let tokens = scan("1 2 +\nprint\n3 4 +\nprint\nprint");
    match check_program(tokens) {
        Ok(()) => panic!("checker accepted a print past the last value"),
        Err(e) => {
            assert_eq!(e.location.line, 5);
            assert_eq!(e.location.column, 1);
            assert_eq!(e.message, "TYPE ERROR: Attempting to print with an empty stack");
        }
    }
}

#[test]
fn division_by_zero_faults() {
    let tokens = scan("1 0 /");
    assert!(check_program(tokens.clone()).is_ok());
    let (out, fault) = interpret_program(tokens);
    assert_eq!(out, Vec::<i32>::new());
    assert_eq!(fault, Some(RunFault::DivisionByZero));
}

#[test]
fn arithmetic_overflow_faults() {
    let tokens = scan("2147483647 1 +");
    assert!(check_program(tokens.clone()).is_ok());
    let (out, fault) = interpret_program(tokens);
    assert_eq!(out, Vec::<i32>::new());
    assert_eq!(fault, Some(RunFault::ArithmeticOverflow));
}

#[test]
fn output_kept_up_to_fault() {
    let tokens = scan("5 print 1 0 / print");
    assert!(check_program(tokens.clone()).is_ok());
    let (out, fault) = interpret_program(tokens);
    assert_eq!(out, vec![5]);
    assert_eq!(fault, Some(RunFault::DivisionByZero));
}

#[test]
fn literal_overflow_faults() {
    let tokens = scan("9999999999 print");
    assert!(check_program(tokens.clone()).is_ok());
    let (out, fault) = interpret_program(tokens);
    assert_eq!(out, Vec::<i32>::new());
    assert_eq!(fault, Some(RunFault::LiteralOverflow));
}

#[test]
fn largest_literal_is_kept() {
    let (out, fault) = run_accepted("2147483647 print");
    assert_eq!(out, vec![2147483647]);
    assert_eq!(fault, None);
}

#[test]
fn update_location_counts_lines_and_columns() {
    assert_eq!(update_location(1, 1, "ab"), (1, 3));
    assert_eq!(update_location(1, 1, "ab\ncd"), (2, 3));
    assert_eq!(update_location(3, 7, "\n\n"), (5, 1));
    assert_eq!(update_location(2, 4, ""), (2, 4));
}
