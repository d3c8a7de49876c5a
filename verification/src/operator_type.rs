use vstd::prelude::*;

use crate::token::Token;

verus! {

/// A prefix operator with the token it was written as.
#[derive(Debug, Clone)]
pub struct UnaryOp {
    pub op_type: UnaryOpType,
    pub token: Token,
}

#[derive(Debug, Clone, Copy, PartialEq, Eq, Structural)]
pub enum UnaryOpType {
    Negative,
    Not,
}

/// An infix operator with the token it was written as.
#[derive(Debug, Clone)]
pub struct BinaryOp {
    pub op_type: BinaryOpType,
    pub token: Token,
}

#[derive(Debug, Clone, Copy, PartialEq, Eq, Structural)]
pub enum BinaryOpType {
    Add,
    Subtract,
    Multiply,
    Divide,
    Equal,
    NotEqual,
    LessThan,
    LessThanEqualTo,
    GreaterThan,
    GreaterThanEqualTo,
}

/// A short-circuiting operator with the token it was written as.
#[derive(Debug, Clone)]
pub struct LogicalOp {
    pub op_type: LogicalOpType,
    pub token: Token,
}

#[derive(Debug, Clone, Copy, PartialEq, Eq, Structural)]
pub enum LogicalOpType {
    And,
    Or,
}

} // verus!
