use lib::errors::LoxError;
use lib::scanner::Scanner;
use lib::token::{Token, TokenType};

fn scan(source: &str) -> Result<Vec<Token>, LoxError> {
    let mut scanner = Scanner::new(source);
    scanner.scan_tokens()
}

fn kinds(tokens: &[Token]) -> Vec<String> {
    tokens.iter().map(|t| format!("{:?}", t.token_type)).collect()
}

#[test]
fn scans_a_variable_declaration() {
    let tokens = scan("var x = 1;").unwrap();
    assert_eq!(
        kinds(&tokens),
        vec!["Var", "Identifier(\"x\")", "Equal", "Number(\"1\")", "Semicolon"]
    );
    let lexemes: Vec<&str> = tokens.iter().map(|t| t.lexeme.as_str()).collect();
    assert_eq!(lexemes, vec!["var", "x", "=", "1", ";"]);
    assert!(tokens.iter().all(|t| t.line == 1));
}

#[test]
fn scans_one_and_two_character_operators() {
    let tokens = scan("( ) { } , . - + ; * / ! != = == < <= > >=").unwrap();
    assert_eq!(
        kinds(&tokens),
        vec![
            "LeftParen", "RightParen", "LeftBrace", "RightBrace", "Comma", "Dot", "Minus",
            "Plus", "Semicolon", "Star", "Slash", "Bang", "BangEqual", "Equal", "EqualEqual",
            "Less", "LessEqual", "Greater", "GreaterEqual"
        ]
    );
}

#[test]
fn keywords_are_not_identifiers() {
    let tokens = scan("and class else false for fun if nil or print return super this true var while").unwrap();
    assert_eq!(
        kinds(&tokens),
        vec![
            "And", "Class", "Else", "False", "For", "Fun", "If", "Nil", "Or", "Print", "Return",
            "Super", "This", "True", "Var", "While"
        ]
    );
}

#[test]
fn identifiers_that_start_with_a_keyword() {
    let tokens = scan("orchid _or or2 or").unwrap();
    assert_eq!(
        kinds(&tokens),
        vec!["Identifier(\"orchid\")", "Identifier(\"_or\")", "Identifier(\"or2\")", "Or"]
    );
    for t in &tokens {
        if let TokenType::Identifier(name) = &t.token_type {
            assert_eq!(name, &t.lexeme);
        }
    }
}

#[test]
fn scans_a_string_with_its_quotes_in_the_lexeme() {
    let tokens = scan("\"hello world\"").unwrap();
    assert_eq!(tokens.len(), 1);
    assert!(matches!(&tokens[0].token_type, TokenType::String(s) if s == "hello world"));
    assert_eq!(tokens[0].lexeme, "\"hello world\"");
}

#[test]
fn a_string_over_two_lines_ends_on_the_second() {
    let tokens = scan("\"a\nb\" x").unwrap();
    assert!(matches!(&tokens[0].token_type, TokenType::String(s) if s == "a\nb"));
    assert_eq!(tokens[0].line, 2);
    assert_eq!(tokens[1].line, 2);
}

#[test]
fn an_unterminated_string_is_an_error() {
    match scan("print \"abc") {
        Err(LoxError::ScannerError { line, character, message }) => {
            assert_eq!(line, 1);
            assert_eq!(character, '"');
            assert_eq!(message, "Unterminated string");
        }
        other => panic!("unexpected {:?}", other),
    }
}

#[test]
fn an_unknown_character_is_an_error() {
    match scan("var a = @;") {
        Err(LoxError::ScannerError { line, character, message }) => {
            assert_eq!(line, 1);
            assert_eq!(character, '@');
            assert_eq!(message, "Bad input token");
        }
        other => panic!("unexpected {:?}", other),
    }
}

#[test]
fn numbers_keep_their_digits() {
    let tokens = scan("12 3.25 7.").unwrap();
    assert_eq!(
        kinds(&tokens),
        vec!["Number(\"12\")", "Number(\"3.25\")", "Number(\"7\")"]
    );
    assert_eq!(tokens[2].lexeme, "7.");
}

#[test]
fn whitespace_and_newlines_advance_lines() {
    let tokens = scan("a\n\n b\r\n\tc").unwrap();
    let lines: Vec<usize> = tokens.iter().map(|t| t.line).collect();
    assert_eq!(lines, vec![1, 3, 4]);
}

#[test]
fn a_comment_runs_to_the_end_of_its_line() {
    let tokens = scan("// a comment\nprint 1;").unwrap();
    assert_eq!(kinds(&tokens), vec!["Print", "Number(\"1\")", "Semicolon"]);
    // The newline that ends a comment is consumed with it.
    assert_eq!(tokens[0].line, 1);
}

#[test]
fn division_is_not_a_comment() {
    let tokens = scan("4 / 2").unwrap();
    assert_eq!(kinds(&tokens), vec!["Number(\"4\")", "Slash", "Number(\"2\")"]);
}

#[test]
fn an_empty_source_has_no_tokens() {
    assert_eq!(scan("").unwrap().len(), 0);
    assert_eq!(scan("  \n // only a comment").unwrap().len(), 0);
}

#[test]
fn token_lines_never_decrease() {
    let source = "var a = 1;\nfun f(x) {\n  return \"two\nlines\";\n}\nprint f(a);\n";
    let tokens = scan(source).unwrap();
    for pair in tokens.windows(2) {
        assert!(pair[0].line <= pair[1].line);
    }
    assert!(tokens.iter().all(|t| t.line >= 1 && !t.lexeme.is_empty()));
}

#[test]
fn next_token_reads_one_token_at_a_time() {
    let mut scanner = Scanner::new("a + b");
    let first = scanner.next_token().unwrap().unwrap();
    assert_eq!(first.lexeme, "a");
    let second = scanner.next_token().unwrap().unwrap();
    assert!(matches!(second.token_type, TokenType::Plus));
    let third = scanner.next_token().unwrap().unwrap();
    assert_eq!(third.lexeme, "b");
    assert!(scanner.next_token().is_none());
}

#[test]
fn next_token_reports_an_error_and_goes_on() {
    let mut scanner = Scanner::new("# x");
    assert!(matches!(scanner.next_token(), Some(Err(LoxError::ScannerError { character: '#', .. }))));
    let next = scanner.next_token().unwrap().unwrap();
    assert_eq!(next.lexeme, "x");
}

#[test]
fn duplicate_copies_a_token() {
    let tokens = scan("name").unwrap();
    let copy = tokens[0].duplicate();
    assert_eq!(copy.lexeme, "name");
    assert_eq!(copy.line, 1);
    assert!(copy.token_type.same_as(&tokens[0].token_type));
    assert!(!copy.token_type.same_as(&TokenType::Identifier("other".to_string())));
    assert!(TokenType::Semicolon.same_as(&TokenType::Semicolon));
    assert!(!TokenType::Semicolon.same_as(&TokenType::Comma));
}

#[test]
fn identifiers_may_use_letters_beyond_ascii() {
    let tokens = scan("été naïve").unwrap();
    assert_eq!(kinds(&tokens), vec!["Identifier(\"été\")", "Identifier(\"naïve\")"]);
}

#[test]
fn identifiers_may_continue_with_numerals_beyond_ascii() {
    let tokens = scan("x٣ y_2").unwrap();
    assert_eq!(kinds(&tokens), vec!["Identifier(\"x٣\")", "Identifier(\"y_2\")"]);
}

#[test]
fn a_symbol_beyond_ascii_is_an_error() {
    match scan("x €") {
        Err(LoxError::ScannerError { character, message, .. }) => {
            assert_eq!(character, '€');
            assert_eq!(message, "Bad input token");
        }
        other => panic!("unexpected {:?}", other),
    }
}

#[test]
fn a_token_is_on_the_line_of_its_last_character() {
    let source = "var s = \"one\ntwo\nthree\";\nprint s;";
    let tokens = scan(source).unwrap();
    let lines: Vec<(String, usize)> = tokens.iter().map(|t| (t.lexeme.clone(), t.line)).collect();
    assert_eq!(lines[3], ("\"one\ntwo\nthree\"".to_string(), 3));
    assert_eq!(lines[4], (";".to_string(), 3));
    assert_eq!(lines[5], ("print".to_string(), 4));
    // Each token's line is one more than the newlines up to its end.
    let mut position = 0;
    for t in &tokens {
        let start = source[position..].find(t.lexeme.as_str()).unwrap() + position;
        let end = start + t.lexeme.len();
        assert_eq!(t.line, 1 + source[..end].matches('\n').count());
        position = end;
    }
}
