use lib::errors::LoxError;
use lib::token::{Token, TokenType};

fn token(kind: TokenType, lexeme: &str, line: usize) -> Token {
    Token { token_type: kind, lexeme: lexeme.to_string(), line }
}

#[test]
fn describes_a_scanner_error() {
    let e = LoxError::ScannerError { line: 12, character: '@', message: "Bad input token".to_string() };
    assert_eq!(e.describe(), "Scanner error at line 12 on character @: Bad input token");
}

#[test]
fn describes_an_unexpected_end() {
    assert_eq!(LoxError::UnexpectedEndOfPhrase.describe(), "Unexpected end of phrase");
}

#[test]
fn describes_errors_at_a_token() {
    let t = token(TokenType::Identifier("x".to_string()), "x", 3);
    let syntax = LoxError::SyntaxError { token: t.duplicate(), message: "Expect expression".to_string() };
    assert_eq!(syntax.describe(), "Syntax error on line 3 at token x: Expect expression");
    let runtime = LoxError::RuntimeError { token: t.duplicate(), message: "boom".to_string() };
    assert_eq!(runtime.describe(), "Runtime error on line 3 at token x: boom");
    let resolution = LoxError::ResolutionError { token: t, message: "bad".to_string() };
    assert_eq!(resolution.describe(), "Resolution error on line 3 at token x: bad");
}

#[test]
fn describes_internal_and_undefined_errors() {
    assert_eq!(LoxError::InternalError("oops".to_string()).describe(), "Internal error: oops");
    assert_eq!(LoxError::UndefinedVariable("v".to_string()).describe(), "Undefined variable v");
}

#[test]
fn describes_line_numbers_with_several_digits() {
    let t = token(TokenType::Semicolon, ";", 1020);
    let e = LoxError::SyntaxError { token: t, message: "m".to_string() };
    assert_eq!(e.describe(), "Syntax error on line 1020 at token ;: m");
    let e = LoxError::ScannerError { line: 0, character: '"', message: "Unterminated string".to_string() };
    assert_eq!(e.describe(), "Scanner error at line 0 on character \": Unterminated string");
}
