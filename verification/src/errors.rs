use vstd::prelude::*;

use crate::text::{concat_str, decimal, push_decimal};
use crate::token::{SpecToken, Token};

verus! {

/// The errors that scanning, parsing, resolving and running Lox code report.
#[derive(Debug)]
pub enum LoxError {
    ScannerError { line: usize, character: char, message: String },
    UnexpectedEndOfPhrase,
    SyntaxError { token: Token, message: String },
    RuntimeError { token: Token, message: String },
    ResolutionError { token: Token, message: String },
    InternalError(String),
    UndefinedVariable(String),
}

/// The mathematical model of a `LoxError`.
pub enum SpecError {
    ScannerError { line: nat, character: char, message: Seq<char> },
    UnexpectedEndOfPhrase,
    SyntaxError { token: SpecToken, message: Seq<char> },
    RuntimeError { token: SpecToken, message: Seq<char> },
    ResolutionError { token: SpecToken, message: Seq<char> },
    InternalError(Seq<char>),
    UndefinedVariable(Seq<char>),
}

impl View for LoxError {
    type V = SpecError;

    open spec fn view(&self) -> SpecError {
        match self {
            LoxError::ScannerError { line, character, message } => SpecError::ScannerError {
                line: *line as nat,
                character: *character,
                message: message@,
            },
            LoxError::UnexpectedEndOfPhrase => SpecError::UnexpectedEndOfPhrase,
            LoxError::SyntaxError { token, message } => SpecError::SyntaxError {
                token: token@,
                message: message@,
            },
            LoxError::RuntimeError { token, message } => SpecError::RuntimeError {
                token: token@,
                message: message@,
            },
            LoxError::ResolutionError { token, message } => SpecError::ResolutionError {
                token: token@,
                message: message@,
            },
            LoxError::InternalError(m) => SpecError::InternalError(m@),
            LoxError::UndefinedVariable(n) => SpecError::UndefinedVariable(n@),
        }
    }
}

/// The model of the outcome of a step that returns nothing but may fail.
pub open spec fn unit_result(r: Result<(), LoxError>) -> Result<(), SpecError> {
    match r {
        Ok(_) => Ok(()),
        Err(e) => Err(e@),
    }
}

/// The text that reports an error at a token: the phase, the line, the
/// token's lexeme and the message.
pub open spec fn token_report(phase: Seq<char>, token: SpecToken, message: Seq<char>) -> Seq<char> {
    phase + " error on line "@ + decimal(token.line) + " at token "@ + token.lexeme + ": "@
        + message
}

/// The text that describes an error to a user.
pub open spec fn spec_describe(e: SpecError) -> Seq<char> {
    match e {
        SpecError::ScannerError { line, character, message } => "Scanner error at line "@
            + decimal(line) + " on character "@ + seq![character] + ": "@ + message,
        SpecError::UnexpectedEndOfPhrase => "Unexpected end of phrase"@,
        SpecError::SyntaxError { token, message } => token_report("Syntax"@, token, message),
        SpecError::RuntimeError { token, message } => token_report("Runtime"@, token, message),
        SpecError::ResolutionError { token, message } => token_report(
            "Resolution"@,
            token,
            message,
        ),
        SpecError::InternalError(message) => "Internal error: "@ + message,
        SpecError::UndefinedVariable(name) => "Undefined variable "@ + name,
    }
}

fn report_at_token(phase: &str, token: &Token, message: &String) -> (r: String)
    ensures
        r@ == token_report(phase@, token@, message@),
{
    let mut r = concat_str(phase, " error on line ");
    push_decimal(&mut r, token.line);
    r.append(" at token ");
    r.append(token.lexeme.as_str());
    r.append(": ");
    r.append(message.as_str());
    r
}

impl LoxError {
    /// The text that describes this error to a user.
    pub fn describe(&self) -> (r: String)
        ensures
            r@ == spec_describe(self@),
    {
        match self {
            LoxError::ScannerError { line, character, message } => {
                let mut r = String::from_str("Scanner error at line ");
                push_decimal(&mut r, *line);
                r.append(" on character ");
                r.push(*character);
                r.append(": ");
                r.append(message.as_str());
                proof {
                    assert(r@ =~= spec_describe(self@));
                }
                r
            },
            LoxError::UnexpectedEndOfPhrase => String::from_str("Unexpected end of phrase"),
            LoxError::SyntaxError { token, message } => report_at_token("Syntax", token, message),
            LoxError::RuntimeError { token, message } => report_at_token("Runtime", token, message),
            LoxError::ResolutionError { token, message } => report_at_token(
                "Resolution",
                token,
                message,
            ),
            LoxError::InternalError(message) => concat_str("Internal error: ", message.as_str()),
            LoxError::UndefinedVariable(name) => concat_str("Undefined variable ", name.as_str()),
        }
    }
}

} // verus!
