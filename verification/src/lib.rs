pub mod ast;
pub mod class;
pub mod environment;
pub mod errors;
pub mod function;
pub mod grammar;
pub mod lox;
pub mod native_functions;
pub mod operator_type;
pub mod parse_laws;
pub mod parser;
pub mod resolution;
pub mod resolver;
pub mod scanner;
pub mod text;
pub mod token;
