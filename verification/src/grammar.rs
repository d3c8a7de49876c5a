use vstd::prelude::*;

use crate::ast::{
    spec_function_kind_name, FunctionKind, SpecExpr, SpecExprKind, SpecFunction, SpecLiteral,
    SpecStmt,
};
use crate::errors::SpecError;
use crate::operator_type::{BinaryOpType, LogicalOpType, UnaryOpType};
use crate::token::{SpecToken, SpecTokenType};

verus! {

// The grammar of Lox, as the parser reads it: each function takes the
// tokens left to read and the next expression identifier, and gives what was
// read (or the error), the tokens left after it, and the next identifier.
// Every expression that is read gets the next identifier, in the order in
// which the expressions are completed.
/// What one step of parsing gives: the result, the tokens left, and the next
/// expression identifier.
pub struct Parsed<A> {
    pub result: Result<A, SpecError>,
    pub rest: Seq<SpecToken>,
    pub next_id: nat,
}

pub open spec fn parsed<A>(result: Result<A, SpecError>, rest: Seq<SpecToken>, next_id: nat) -> Parsed<A> {
    Parsed { result, rest, next_id }
}

/// A failed step, with the tokens and identifier it left.
pub open spec fn failed<A, B>(p: Parsed<A>) -> Parsed<B> {
    Parsed { result: Err(p.result->Err_0), rest: p.rest, next_id: p.next_id }
}

/// The next token, unless the tokens are used up or the next one marks the end.
pub open spec fn peek(ts: Seq<SpecToken>) -> Option<SpecToken> {
    if ts.len() > 0 && !(ts[0].kind is Eof) {
        Some(ts[0])
    } else {
        None
    }
}

/// Whether the next token is of kind `kind`.
pub open spec fn check(ts: Seq<SpecToken>, kind: SpecTokenType) -> bool {
    peek(ts) matches Some(t) && t.kind == kind
}

pub open spec fn at_end(ts: Seq<SpecToken>) -> bool {
    peek(ts) is None
}

/// The tokens `rest` that a step left after starting from `ts`, which are
/// never more than `ts`.
pub open spec fn within(ts: Seq<SpecToken>, rest: Seq<SpecToken>) -> Seq<SpecToken> {
    if rest.len() <= ts.len() {
        rest
    } else {
        ts
    }
}

/// The tokens `rest` that a successful statement left after starting from
/// `ts`, which are always fewer than `ts`.
pub open spec fn fewer(ts: Seq<SpecToken>, rest: Seq<SpecToken>) -> Seq<SpecToken> {
    if rest.len() < ts.len() {
        rest
    } else {
        seq![]
    }
}

/// Reads a token of kind `kind`, or reports `message` at the token found instead.
pub open spec fn consume(ts: Seq<SpecToken>, kind: SpecTokenType, message: Seq<char>) -> Parsed<
    SpecToken,
> {
    if check(ts, kind) {
        parsed(Ok(ts[0]), ts.drop_first(), 0)
    } else if ts.len() > 0 {
        parsed(Err(SpecError::SyntaxError { token: ts[0], message }), ts.drop_first(), 0)
    } else {
        parsed(Err(SpecError::UnexpectedEndOfPhrase), ts, 0)
    }
}

/// The kinds of token that start a statement, where recovery after an error stops.
pub open spec fn starts_statement(kind: SpecTokenType) -> bool {
    ||| kind is Class
    ||| kind is For
    ||| kind is Fun
    ||| kind is If
    ||| kind is Print
    ||| kind is Return
    ||| kind is Var
    ||| kind is While
}

/// Recovery after an error: skips tokens up to and including a `;`, or up to
/// a token that starts a statement, or to the end.
pub open spec fn synchronize(ts: Seq<SpecToken>) -> Seq<SpecToken> {
    if ts.len() == 0 {
        ts
    } else {
        synchronize_after(ts[0], ts.drop_first())
    }
}

pub open spec fn synchronize_after(last: SpecToken, ts: Seq<SpecToken>) -> Seq<SpecToken>
    decreases ts.len(),
{
    if last.kind is Semicolon {
        ts
    } else {
        match peek(ts) {
            None => ts,
            Some(t) => if starts_statement(t.kind) {
                ts
            } else {
                synchronize_after(ts[0], ts.drop_first())
            },
        }
    }
}

pub open spec fn mk(id: nat, kind: SpecExprKind) -> SpecExpr {
    SpecExpr { id, kind }
}

// ---------------------------------------------------------------------------
// Expressions
// ---------------------------------------------------------------------------

pub closed spec fn expression(ts: Seq<SpecToken>, id: nat) -> Parsed<SpecExpr>
    decreases ts.len(), 18nat,
{
    assignment(ts, id)
}

/// An assignment `target = value`, where the target is a variable or a
/// property, or a logical `or` expression.
pub closed spec fn assignment(ts: Seq<SpecToken>, id: nat) -> Parsed<SpecExpr>
    decreases ts.len(), 17nat,
{
    let p = or(ts, id);
    let ts1 = within(ts, p.rest);
    match p.result {
        Err(e) => parsed(Err(e), ts1, p.next_id),
        Ok(target) => if check(ts1, SpecTokenType::Equal) {
            let equals = ts1[0];
            let q = assignment(ts1.drop_first(), p.next_id);
            match q.result {
                Err(e) => failed(q),
                Ok(value) => match target.kind {
                    SpecExprKind::Variable { token, name } => parsed(
                        Ok(mk(q.next_id, SpecExprKind::Assign { name, value: Box::new(value) })),
                        q.rest,
                        q.next_id + 1,
                    ),
                    SpecExprKind::Get { object, token } => parsed(
                        Ok(
                            mk(
                                q.next_id,
                                SpecExprKind::SetProperty { object, token, value: Box::new(value) },
                            ),
                        ),
                        q.rest,
                        q.next_id + 1,
                    ),
                    _ => parsed(
                        Err(
                            SpecError::SyntaxError {
                                token: equals,
                                message: "Invalid assignment target."@,
                            },
                        ),
                        q.rest,
                        q.next_id,
                    ),
                },
            }
        } else {
            parsed(Ok(target), ts1, p.next_id)
        },
    }
}

/// `or` reads its operands with `equality`.
pub closed spec fn or(ts: Seq<SpecToken>, id: nat) -> Parsed<SpecExpr>
    decreases ts.len(), 16nat,
{
    let p = and(ts, id);
    match p.result {
        Err(e) => parsed(Err(e), within(ts, p.rest), p.next_id),
        Ok(left) => or_rest(within(ts, p.rest), p.next_id, left),
    }
}

pub closed spec fn or_rest(ts: Seq<SpecToken>, id: nat, left: SpecExpr) -> Parsed<SpecExpr>
    decreases ts.len(), 15nat,
{
    if check(ts, SpecTokenType::Or) {
        let token = ts[0];
        let ts1 = ts.drop_first();
        let q = equality(ts1, id);
        match q.result {
            Err(e) => parsed(Err(e), within(ts1, q.rest), q.next_id),
            Ok(right) => or_rest(
                within(ts1, q.rest),
                q.next_id + 1,
                mk(
                    q.next_id,
                    SpecExprKind::Logical {
                        left: Box::new(left),
                        op: LogicalOpType::Or,
                        token,
                        right: Box::new(right),
                    },
                ),
            ),
        }
    } else {
        parsed(Ok(left), ts, id)
    }
}

pub closed spec fn and(ts: Seq<SpecToken>, id: nat) -> Parsed<SpecExpr>
    decreases ts.len(), 14nat,
{
    let p = equality(ts, id);
    match p.result {
        Err(e) => parsed(Err(e), within(ts, p.rest), p.next_id),
        Ok(left) => and_rest(within(ts, p.rest), p.next_id, left),
    }
}

pub closed spec fn and_rest(ts: Seq<SpecToken>, id: nat, left: SpecExpr) -> Parsed<SpecExpr>
    decreases ts.len(), 13nat,
{
    if check(ts, SpecTokenType::And) {
        let token = ts[0];
        let ts1 = ts.drop_first();
        let q = equality(ts1, id);
        match q.result {
            Err(e) => parsed(Err(e), within(ts1, q.rest), q.next_id),
            Ok(right) => and_rest(
                within(ts1, q.rest),
                q.next_id + 1,
                mk(
                    q.next_id,
                    SpecExprKind::Logical {
                        left: Box::new(left),
                        op: LogicalOpType::And,
                        token,
                        right: Box::new(right),
                    },
                ),
            ),
        }
    } else {
        parsed(Ok(left), ts, id)
    }
}

pub open spec fn equality_op(kind: SpecTokenType) -> Option<BinaryOpType> {
    match kind {
        SpecTokenType::BangEqual => Some(BinaryOpType::NotEqual),
        SpecTokenType::EqualEqual => Some(BinaryOpType::Equal),
        _ => None,
    }
}

pub open spec fn comparison_op(kind: SpecTokenType) -> Option<BinaryOpType> {
    match kind {
        SpecTokenType::Greater => Some(BinaryOpType::GreaterThan),
        SpecTokenType::GreaterEqual => Some(BinaryOpType::GreaterThanEqualTo),
        SpecTokenType::Less => Some(BinaryOpType::LessThan),
        SpecTokenType::LessEqual => Some(BinaryOpType::LessThanEqualTo),
        _ => None,
    }
}

pub open spec fn term_op(kind: SpecTokenType) -> Option<BinaryOpType> {
    match kind {
        SpecTokenType::Minus => Some(BinaryOpType::Subtract),
        SpecTokenType::Plus => Some(BinaryOpType::Add),
        _ => None,
    }
}

pub open spec fn factor_op(kind: SpecTokenType) -> Option<BinaryOpType> {
    match kind {
        SpecTokenType::Slash => Some(BinaryOpType::Divide),
        SpecTokenType::Star => Some(BinaryOpType::Multiply),
        _ => None,
    }
}

/// The operator that the next token stands for, by `op_of`.
pub open spec fn next_op(ts: Seq<SpecToken>, level: nat) -> Option<BinaryOpType> {
    match peek(ts) {
        None => None,
        Some(t) => if level == 0 {
            equality_op(t.kind)
        } else if level == 1 {
            comparison_op(t.kind)
        } else if level == 2 {
            term_op(t.kind)
        } else {
            factor_op(t.kind)
        },
    }
}

pub open spec fn binary(left: SpecExpr, op: BinaryOpType, token: SpecToken, right: SpecExpr, id: nat) -> SpecExpr {
    mk(id, SpecExprKind::Binary { left: Box::new(left), op, token, right: Box::new(right) })
}

pub closed spec fn equality(ts: Seq<SpecToken>, id: nat) -> Parsed<SpecExpr>
    decreases ts.len(), 12nat,
{
    let p = comparison(ts, id);
    match p.result {
        Err(e) => parsed(Err(e), within(ts, p.rest), p.next_id),
        Ok(left) => equality_rest(within(ts, p.rest), p.next_id, left),
    }
}

pub closed spec fn equality_rest(ts: Seq<SpecToken>, id: nat, left: SpecExpr) -> Parsed<SpecExpr>
    decreases ts.len(), 11nat,
{
    match next_op(ts, 0) {
        Some(op) => {
            let token = ts[0];
            let ts1 = ts.drop_first();
            let q = comparison(ts1, id);
            match q.result {
                Err(e) => parsed(Err(e), within(ts1, q.rest), q.next_id),
                Ok(right) => equality_rest(
                    within(ts1, q.rest),
                    q.next_id + 1,
                    binary(left, op, token, right, q.next_id),
                ),
            }
        },
        None => parsed(Ok(left), ts, id),
    }
}

pub closed spec fn comparison(ts: Seq<SpecToken>, id: nat) -> Parsed<SpecExpr>
    decreases ts.len(), 10nat,
{
    let p = term(ts, id);
    match p.result {
        Err(e) => parsed(Err(e), within(ts, p.rest), p.next_id),
        Ok(left) => comparison_rest(within(ts, p.rest), p.next_id, left),
    }
}

pub closed spec fn comparison_rest(ts: Seq<SpecToken>, id: nat, left: SpecExpr) -> Parsed<SpecExpr>
    decreases ts.len(), 9nat,
{
    match next_op(ts, 1) {
        Some(op) => {
            let token = ts[0];
            let ts1 = ts.drop_first();
            let q = term(ts1, id);
            match q.result {
                Err(e) => parsed(Err(e), within(ts1, q.rest), q.next_id),
                Ok(right) => comparison_rest(
                    within(ts1, q.rest),
                    q.next_id + 1,
                    binary(left, op, token, right, q.next_id),
                ),
            }
        },
        None => parsed(Ok(left), ts, id),
    }
}

pub closed spec fn term(ts: Seq<SpecToken>, id: nat) -> Parsed<SpecExpr>
    decreases ts.len(), 8nat,
{
    let p = factor(ts, id);
    match p.result {
        Err(e) => parsed(Err(e), within(ts, p.rest), p.next_id),
        Ok(left) => term_rest(within(ts, p.rest), p.next_id, left),
    }
}

pub closed spec fn term_rest(ts: Seq<SpecToken>, id: nat, left: SpecExpr) -> Parsed<SpecExpr>
    decreases ts.len(), 7nat,
{
    match next_op(ts, 2) {
        Some(op) => {
            let token = ts[0];
            let ts1 = ts.drop_first();
            let q = factor(ts1, id);
            match q.result {
                Err(e) => parsed(Err(e), within(ts1, q.rest), q.next_id),
                Ok(right) => term_rest(
                    within(ts1, q.rest),
                    q.next_id + 1,
                    binary(left, op, token, right, q.next_id),
                ),
            }
        },
        None => parsed(Ok(left), ts, id),
    }
}

pub closed spec fn factor(ts: Seq<SpecToken>, id: nat) -> Parsed<SpecExpr>
    decreases ts.len(), 6nat,
{
    let p = unary(ts, id);
    match p.result {
        Err(e) => parsed(Err(e), within(ts, p.rest), p.next_id),
        Ok(left) => factor_rest(within(ts, p.rest), p.next_id, left),
    }
}

pub closed spec fn factor_rest(ts: Seq<SpecToken>, id: nat, left: SpecExpr) -> Parsed<SpecExpr>
    decreases ts.len(), 5nat,
{
    match next_op(ts, 3) {
        Some(op) => {
            let token = ts[0];
            let ts1 = ts.drop_first();
            let q = unary(ts1, id);
            match q.result {
                Err(e) => parsed(Err(e), within(ts1, q.rest), q.next_id),
                Ok(right) => factor_rest(
                    within(ts1, q.rest),
                    q.next_id + 1,
                    binary(left, op, token, right, q.next_id),
                ),
            }
        },
        None => parsed(Ok(left), ts, id),
    }
}

pub open spec fn unary_op(ts: Seq<SpecToken>) -> Option<UnaryOpType> {
    match peek(ts) {
        Some(t) => match t.kind {
            SpecTokenType::Bang => Some(UnaryOpType::Not),
            SpecTokenType::Minus => Some(UnaryOpType::Negative),
            _ => None,
        },
        None => None,
    }
}

pub closed spec fn unary(ts: Seq<SpecToken>, id: nat) -> Parsed<SpecExpr>
    decreases ts.len(), 4nat,
{
    match unary_op(ts) {
        Some(op) => {
            let token = ts[0];
            let q = unary(ts.drop_first(), id);
            match q.result {
                Err(e) => failed(q),
                Ok(right) => parsed(
                    Ok(mk(q.next_id, SpecExprKind::Unary { op, token, right: Box::new(right) })),
                    q.rest,
                    q.next_id + 1,
                ),
            }
        },
        None => call(ts, id),
    }
}

pub closed spec fn call(ts: Seq<SpecToken>, id: nat) -> Parsed<SpecExpr>
    decreases ts.len(), 3nat,
{
    let p = primary(ts, id);
    match p.result {
        Err(e) => parsed(Err(e), within(ts, p.rest), p.next_id),
        Ok(e) => call_rest(within(ts, p.rest), p.next_id, e),
    }
}

/// Calls `(...)` and property reads `.name` after an expression.
pub closed spec fn call_rest(ts: Seq<SpecToken>, id: nat, callee: SpecExpr) -> Parsed<SpecExpr>
    decreases ts.len(), 2nat,
{
    match peek(ts) {
        None => parsed(Ok(callee), ts, id),
        Some(t) => if t.kind is LeftParen {
            let ts1 = ts.drop_first();
            let q = finish_call(ts1, id, callee);
            match q.result {
                Err(e) => parsed(Err(e), within(ts1, q.rest), q.next_id),
                Ok(e) => call_rest(within(ts1, q.rest), q.next_id, e),
            }
        } else if t.kind is Dot {
            let ts1 = ts.drop_first();
            if ts1.len() == 0 {
                parsed(Err(SpecError::UnexpectedEndOfPhrase), ts1, id)
            } else {
                let token = ts1[0];
                if token.kind is Identifier {
                    call_rest(
                        ts1.drop_first(),
                        id + 1,
                        mk(id, SpecExprKind::Get { object: Box::new(callee), token }),
                    )
                } else {
                    parsed(
                        Err(
                            SpecError::SyntaxError {
                                token,
                                message: "Expect property name after '.'"@,
                            },
                        ),
                        ts1.drop_first(),
                        id,
                    )
                }
            }
        } else {
            parsed(Ok(callee), ts, id)
        },
    }
}

/// The closing parenthesis of a call and the call itself.
pub closed spec fn close_call(ts: Seq<SpecToken>, id: nat, callee: SpecExpr, arguments: Seq<SpecExpr>) -> Parsed<SpecExpr> {
    let c = consume(ts, SpecTokenType::RightParen, "Expect ')' after arguments"@);
    match c.result {
        Err(e) => parsed(Err(e), c.rest, id),
        Ok(paren) => parsed(
            Ok(mk(id, SpecExprKind::Call { callee: Box::new(callee), paren, arguments })),
            c.rest,
            id + 1,
        ),
    }
}

/// The arguments of a call, whose `(` was read, and the call.
pub closed spec fn finish_call(ts: Seq<SpecToken>, id: nat, callee: SpecExpr) -> Parsed<SpecExpr>
    decreases ts.len(), 20nat,
{
    if !check(ts, SpecTokenType::RightParen) {
        let q = expression(ts, id);
        match q.result {
            Err(e) => parsed(Err(e), within(ts, q.rest), q.next_id),
            Ok(a) => arguments_rest(within(ts, q.rest), q.next_id, callee, seq![a]),
        }
    } else {
        close_call(ts, id, callee, seq![])
    }
}

pub closed spec fn arguments_rest(
    ts: Seq<SpecToken>,
    id: nat,
    callee: SpecExpr,
    arguments: Seq<SpecExpr>,
) -> Parsed<SpecExpr>
    decreases ts.len(), 19nat,
{
    match peek(ts) {
        None => parsed(Err(SpecError::UnexpectedEndOfPhrase), ts, id),
        Some(t) => if t.kind is Comma {
            let ts1 = ts.drop_first();
            let q = expression(ts1, id);
            match q.result {
                Err(e) => parsed(Err(e), within(ts1, q.rest), q.next_id),
                Ok(a) => arguments_rest(within(ts1, q.rest), q.next_id, callee, arguments.push(a)),
            }
        } else {
            close_call(ts, id, callee, arguments)
        },
    }
}

pub closed spec fn primary(ts: Seq<SpecToken>, id: nat) -> Parsed<SpecExpr>
    decreases ts.len(), 1nat,
{
    if peek(ts) is None {
        parsed(Err(SpecError::UnexpectedEndOfPhrase), ts, id)
    } else {
        let token = ts[0];
        let ts1 = ts.drop_first();
        let literal = |l: SpecLiteral| parsed(Ok(mk(id, SpecExprKind::Literal(l))), ts1, id + 1);
        match token.kind {
            SpecTokenType::False => literal(SpecLiteral::Bool(false)),
            SpecTokenType::True => literal(SpecLiteral::Bool(true)),
            SpecTokenType::Nil => literal(SpecLiteral::Nil),
            SpecTokenType::This => parsed(Ok(mk(id, SpecExprKind::This(token))), ts1, id + 1),
            SpecTokenType::Number(v) => literal(SpecLiteral::Number(v)),
            SpecTokenType::String(v) => literal(SpecLiteral::String(v)),
            SpecTokenType::LeftParen => {
                let q = expression(ts1, id);
                match q.result {
                    Err(e) => parsed(Err(e), within(ts1, q.rest), q.next_id),
                    Ok(e) => {
                        let c = consume(
                            within(ts1, q.rest),
                            SpecTokenType::RightParen,
                            "Expect ')' after expression."@,
                        );
                        match c.result {
                            Err(err) => parsed(Err(err), c.rest, q.next_id),
                            Ok(_) => parsed(
                                Ok(mk(q.next_id, SpecExprKind::Grouping(Box::new(e)))),
                                c.rest,
                                q.next_id + 1,
                            ),
                        }
                    },
                }
            },
            SpecTokenType::Identifier(name) => parsed(
                Ok(mk(id, SpecExprKind::Variable { token, name })),
                ts1,
                id + 1,
            ),
            _ => parsed(
                Err(SpecError::SyntaxError { token, message: "Expect expression"@ }),
                ts1,
                id,
            ),
        }
    }
}

// ---------------------------------------------------------------------------
// Statements
// ---------------------------------------------------------------------------

/// A program: declarations up to the end of the tokens, or the first error.
pub closed spec fn program(ts: Seq<SpecToken>, id: nat) -> Parsed<Seq<SpecStmt>> {
    program_rest(ts, id, seq![])
}

pub closed spec fn program_rest(ts: Seq<SpecToken>, id: nat, stmts: Seq<SpecStmt>) -> Parsed<Seq<SpecStmt>>
    decreases ts.len(), 50nat,
{
    if at_end(ts) {
        parsed(Ok(stmts), ts, id)
    } else {
        let q = declaration(ts, id);
        match q.result {
            Err(e) => failed(q),
            Ok(s) => program_rest(fewer(ts, q.rest), q.next_id, stmts.push(s)),
        }
    }
}

/// A declaration or a statement; after an error other than in a function
/// declaration, the tokens are skipped up to where the next statement likely
/// starts.
pub closed spec fn declaration(ts: Seq<SpecToken>, id: nat) -> Parsed<SpecStmt>
    decreases ts.len(), 39nat,
{
    match peek(ts) {
        None => parsed(Err(SpecError::UnexpectedEndOfPhrase), ts, id),
        Some(t) => if t.kind is Fun {
            // an error in a function declaration is passed on without recovery
            let f = function(ts.drop_first(), id, FunctionKind::Function);
            match f.result {
                Err(e) => failed(f),
                Ok(decl) => parsed(Ok(SpecStmt::Function(decl)), f.rest, f.next_id),
            }
        } else {
            let p = if t.kind is Var {
                var_declaration(ts.drop_first(), id)
            } else if t.kind is Class {
                class_declaration(ts.drop_first(), id)
            } else {
                statement(ts, id)
            };
            if p.result is Err {
                parsed(p.result, synchronize(within(ts, p.rest)), p.next_id)
            } else {
                p
            }
        },
    }
}

pub closed spec fn var_declaration(ts: Seq<SpecToken>, id: nat) -> Parsed<SpecStmt>
    decreases ts.len(), 33nat,
{
    if ts.len() == 0 {
        parsed(Err(SpecError::UnexpectedEndOfPhrase), ts, id)
    } else {
        let token = ts[0];
        let ts1 = ts.drop_first();
        if !(token.kind is Identifier) {
            parsed(Err(SpecError::SyntaxError { token, message: "Expected identifier"@ }), ts1, id)
        } else {
            match peek(ts1) {
                None => parsed(Err(SpecError::UnexpectedEndOfPhrase), ts1, id),
                Some(t) => {
                    let init: Parsed<Option<SpecExpr>> = if t.kind is Equal {
                        let q = expression(ts1.drop_first(), id);
                        match q.result {
                            Err(e) => failed(q),
                            Ok(e) => parsed(Ok(Some(e)), q.rest, q.next_id),
                        }
                    } else {
                        parsed(Ok(None), ts1, id)
                    };
                    match init.result {
                        Err(e) => parsed(Err(e), within(ts1, init.rest), init.next_id),
                        Ok(initializer) => {
                            let c = consume(
                                within(ts1, init.rest),
                                SpecTokenType::Semicolon,
                                "Expect ';' after variable declaration"@,
                            );
                            match c.result {
                                Err(e) => parsed(Err(e), c.rest, init.next_id),
                                Ok(_) => parsed(
                                    Ok(SpecStmt::Var { token, name: token.lexeme, initializer }),
                                    c.rest,
                                    init.next_id,
                                ),
                            }
                        },
                    }
                },
            }
        }
    }
}

pub closed spec fn class_declaration(ts: Seq<SpecToken>, id: nat) -> Parsed<SpecStmt>
    decreases ts.len(), 48nat,
{
    if ts.len() == 0 {
        parsed(Err(SpecError::UnexpectedEndOfPhrase), ts, id)
    } else {
        let token = ts[0];
        let ts1 = ts.drop_first();
        match token.kind {
            SpecTokenType::Identifier(name) => {
                let c = consume(ts1, SpecTokenType::LeftBrace, "Expect '{' before class body"@);
                match c.result {
                    Err(e) => parsed(Err(e), c.rest, id),
                    Ok(_) => methods_rest(within(ts, c.rest), id, token, name, seq![]),
                }
            },
            _ => parsed(Err(SpecError::SyntaxError { token, message: "Expect class name"@ }), ts1, id),
        }
    }
}

pub closed spec fn methods_rest(
    ts: Seq<SpecToken>,
    id: nat,
    token: SpecToken,
    name: Seq<char>,
    methods: Seq<SpecFunction>,
) -> Parsed<SpecStmt>
    decreases ts.len(), 47nat,
{
    match peek(ts) {
        None => parsed(Err(SpecError::UnexpectedEndOfPhrase), ts, id),
        Some(t) => if t.kind is RightBrace {
            parsed(Ok(SpecStmt::Class { token, name, methods }), ts.drop_first(), id)
        } else {
            let f = function(ts, id, FunctionKind::Method);
            match f.result {
                Err(e) => failed(f),
                Ok(m) => methods_rest(fewer(ts, f.rest), f.next_id, token, name, methods.push(m)),
            }
        },
    }
}

/// The parameter names of a function named `fname`, whose `(` was read, up
/// to the token after the last one.
pub open spec fn parameters_rest(ts: Seq<SpecToken>, params: Seq<Seq<char>>, fname: Seq<char>) -> (
    Result<Seq<Seq<char>>, SpecError>,
    Seq<SpecToken>,
)
    decreases ts.len(),
{
    if ts.len() == 0 {
        (Err(SpecError::UnexpectedEndOfPhrase), ts)
    } else {
        let token = ts[0];
        let ts1 = ts.drop_first();
        if params.len() >= 255 {
            (
                Err(
                    SpecError::SyntaxError {
                        token,
                        message: "Too many parameters for function "@ + fname,
                    },
                ),
                ts1,
            )
        } else {
            match token.kind {
                SpecTokenType::Identifier(p) => match peek(ts1) {
                    None => (Err(SpecError::UnexpectedEndOfPhrase), ts1),
                    Some(t) => if !(t.kind is Comma) {
                        (Ok(params.push(p)), ts1)
                    } else {
                        parameters_rest(ts1.drop_first(), params.push(p), fname)
                    },
                },
                _ => (
                    Err(SpecError::SyntaxError { token, message: "Expected parameter name"@ }),
                    ts1,
                ),
            }
        }
    }
}

/// A function or method declaration after `fun`, or a method in a class body.
pub closed spec fn function(ts: Seq<SpecToken>, id: nat, kind: FunctionKind) -> Parsed<SpecFunction>
    decreases ts.len(), 45nat,
{
    let kname = spec_function_kind_name(kind);
    if ts.len() == 0 {
        parsed(Err(SpecError::UnexpectedEndOfPhrase), ts, id)
    } else {
        let token = ts[0];
        let ts1 = ts.drop_first();
        match token.kind {
            SpecTokenType::Identifier(name) => {
                let c = consume(ts1, SpecTokenType::LeftParen, "Expect '(' after "@ + kname + " name."@);
                match c.result {
                    Err(e) => parsed(Err(e), c.rest, id),
                    Ok(_) => {
                        let ps: (Result<Seq<Seq<char>>, SpecError>, Seq<SpecToken>) = if !check(
                            c.rest,
                            SpecTokenType::RightParen,
                        ) {
                            parameters_rest(c.rest, seq![], name)
                        } else {
                            (Ok(seq![]), c.rest)
                        };
                        match ps.0 {
                            Err(e) => parsed(Err(e), ps.1, id),
                            Ok(params) => {
                                let c2 = consume(
                                    ps.1,
                                    SpecTokenType::RightParen,
                                    "Expect ')' after parameter list."@,
                                );
                                match c2.result {
                                    Err(e) => parsed(Err(e), c2.rest, id),
                                    Ok(_) => {
                                        let c3 = consume(
                                            c2.rest,
                                            SpecTokenType::LeftBrace,
                                            "Expected '{' before "@ + kname + " body"@,
                                        );
                                        match c3.result {
                                            Err(e) => parsed(Err(e), c3.rest, id),
                                            Ok(_) => {
                                                let b = block(within(ts, c3.rest), id);
                                                match b.result {
                                                    Err(e) => failed(b),
                                                    Ok(body) => parsed(
                                                        Ok(SpecFunction { token, name, params, body }),
                                                        b.rest,
                                                        b.next_id,
                                                    ),
                                                }
                                            },
                                        }
                                    },
                                }
                            },
                        }
                    },
                }
            },
            _ => parsed(
                Err(SpecError::SyntaxError { token, message: "Expect "@ + kname + " name."@ }),
                ts1,
                id,
            ),
        }
    }
}

/// The statements of a block, whose `{` was read, and its `}`.
pub closed spec fn block(ts: Seq<SpecToken>, id: nat) -> Parsed<Seq<SpecStmt>>
    decreases ts.len(), 42nat,
{
    block_rest(ts, id, seq![])
}

pub closed spec fn block_rest(ts: Seq<SpecToken>, id: nat, stmts: Seq<SpecStmt>) -> Parsed<Seq<SpecStmt>>
    decreases ts.len(), 41nat,
{
    if !check(ts, SpecTokenType::RightBrace) && !at_end(ts) {
        let q = declaration(ts, id);
        match q.result {
            Err(e) => failed(q),
            Ok(s) => block_rest(fewer(ts, q.rest), q.next_id, stmts.push(s)),
        }
    } else {
        let c = consume(ts, SpecTokenType::RightBrace, "Expect '}' after block"@);
        match c.result {
            Err(e) => parsed(Err(e), c.rest, id),
            Ok(_) => parsed(Ok(stmts), c.rest, id),
        }
    }
}

pub closed spec fn statement(ts: Seq<SpecToken>, id: nat) -> Parsed<SpecStmt>
    decreases ts.len(), 37nat,
{
    match peek(ts) {
        Some(t) => match t.kind {
            SpecTokenType::Print => print_statement(ts.drop_first(), id),
            SpecTokenType::LeftBrace => {
                let b = block(ts.drop_first(), id);
                match b.result {
                    Err(e) => failed(b),
                    Ok(stmts) => parsed(Ok(SpecStmt::Block(stmts)), b.rest, b.next_id),
                }
            },
            SpecTokenType::If => if_statement(ts.drop_first(), id),
            SpecTokenType::While => while_statement(ts.drop_first(), id),
            SpecTokenType::For => for_statement(ts.drop_first(), id),
            SpecTokenType::Return => return_statement(ts.drop_first(), id, t),
            _ => expression_statement(ts, id),
        },
        None => expression_statement(ts, id),
    }
}

/// The loop `for (init; condition; increment) body` reads as
/// `{ init; while (condition) { body; increment; } }`, where a missing
/// condition is `true` and missing parts are left out.
pub closed spec fn for_statement(ts: Seq<SpecToken>, id: nat) -> Parsed<SpecStmt>
    decreases ts.len(), 38nat,
{
    let c = consume(ts, SpecTokenType::LeftParen, "Expect '(' after 'for'"@);
    match c.result {
        Err(e) => parsed(Err(e), c.rest, id),
        Ok(_) => {
            let ts1 = within(ts, c.rest);
            match peek(ts1) {
                None => parsed(Err(SpecError::UnexpectedEndOfPhrase), ts1, id),
                Some(t) => {
                    let init: Parsed<Option<SpecStmt>> = if t.kind is Semicolon {
                        parsed(Ok(None), ts1.drop_first(), id)
                    } else if t.kind is Var {
                        let q = var_declaration(ts1.drop_first(), id);
                        match q.result {
                            Err(e) => failed(q),
                            Ok(s) => parsed(Ok(Some(s)), q.rest, q.next_id),
                        }
                    } else {
                        let q = expression_statement(ts1, id);
                        match q.result {
                            Err(e) => failed(q),
                            Ok(s) => parsed(Ok(Some(s)), q.rest, q.next_id),
                        }
                    };
                    match init.result {
                        Err(e) => parsed(Err(e), init.rest, init.next_id),
                        Ok(initializer) => for_condition(
                            within(ts1, init.rest),
                            init.next_id,
                            initializer,
                        ),
                    }
                },
            }
        },
    }
}

pub closed spec fn for_condition(ts: Seq<SpecToken>, id: nat, initializer: Option<SpecStmt>) -> Parsed<
    SpecStmt,
>
    decreases ts.len(), 36nat,
{
    match peek(ts) {
        None => parsed(Err(SpecError::UnexpectedEndOfPhrase), ts, id),
        Some(t) => {
            let cond: Parsed<SpecExpr> = if t.kind is Semicolon {
                parsed(Ok(mk(id, SpecExprKind::Literal(SpecLiteral::Bool(true)))), ts, id + 1)
            } else {
                expression(ts, id)
            };
            match cond.result {
                Err(e) => parsed(Err(e), within(ts, cond.rest), cond.next_id),
                Ok(condition) => {
                    let c = consume(
                        within(ts, cond.rest),
                        SpecTokenType::Semicolon,
                        "Expect ';' after loop condition"@,
                    );
                    match c.result {
                        Err(e) => parsed(Err(e), c.rest, cond.next_id),
                        Ok(_) => for_increment(within(ts, c.rest), cond.next_id, initializer, condition),
                    }
                },
            }
        },
    }
}

pub closed spec fn for_increment(
    ts: Seq<SpecToken>,
    id: nat,
    initializer: Option<SpecStmt>,
    condition: SpecExpr,
) -> Parsed<SpecStmt>
    decreases ts.len(), 35nat,
{
    match peek(ts) {
        None => parsed(Err(SpecError::UnexpectedEndOfPhrase), ts, id),
        Some(t) => {
            let incr: Parsed<Option<SpecExpr>> = if t.kind is RightParen {
                parsed(Ok(None), ts, id)
            } else {
                let q = expression(ts, id);
                match q.result {
                    Err(e) => failed(q),
                    Ok(e) => parsed(Ok(Some(e)), q.rest, q.next_id),
                }
            };
            match incr.result {
                Err(e) => parsed(Err(e), within(ts, incr.rest), incr.next_id),
                Ok(increment) => {
                    let c = consume(
                        within(ts, incr.rest),
                        SpecTokenType::RightParen,
                        "Expect ')' after for clauses"@,
                    );
                    match c.result {
                        Err(e) => parsed(Err(e), c.rest, incr.next_id),
                        Ok(_) => {
                            let b = statement(within(ts, c.rest), incr.next_id);
                            match b.result {
                                Err(e) => failed(b),
                                Ok(body) => parsed(
                                    Ok(for_loop(initializer, condition, increment, body)),
                                    b.rest,
                                    b.next_id,
                                ),
                            }
                        },
                    }
                },
            }
        },
    }
}

/// The statement that a `for` loop stands for.
pub open spec fn for_loop(
    initializer: Option<SpecStmt>,
    condition: SpecExpr,
    increment: Option<SpecExpr>,
    body: SpecStmt,
) -> SpecStmt {
    let body1 = match increment {
        Some(inc) => SpecStmt::Block(seq![body, SpecStmt::Expression(inc)]),
        None => body,
    };
    let looped = SpecStmt::While { condition, body: Box::new(body1) };
    match initializer {
        Some(init) => SpecStmt::Block(seq![init, looped]),
        None => looped,
    }
}

pub closed spec fn print_statement(ts: Seq<SpecToken>, id: nat) -> Parsed<SpecStmt>
    decreases ts.len(), 31nat,
{
    let q = expression(ts, id);
    match q.result {
        Err(e) => parsed(Err(e), within(ts, q.rest), q.next_id),
        Ok(e) => {
            let c = consume(within(ts, q.rest), SpecTokenType::Semicolon, "Expect ';' after value."@);
            match c.result {
                Err(err) => parsed(Err(err), c.rest, q.next_id),
                Ok(_) => parsed(Ok(SpecStmt::Print(e)), c.rest, q.next_id),
            }
        },
    }
}

pub closed spec fn return_statement(ts: Seq<SpecToken>, id: nat, keyword: SpecToken) -> Parsed<SpecStmt>
    decreases ts.len(), 30nat,
{
    match peek(ts) {
        None => parsed(Err(SpecError::UnexpectedEndOfPhrase), ts, id),
        Some(t) => {
            let v: Parsed<Option<SpecExpr>> = if t.kind is Semicolon {
                parsed(Ok(None), ts, id)
            } else {
                let q = expression(ts, id);
                match q.result {
                    Err(e) => failed(q),
                    Ok(e) => parsed(Ok(Some(e)), q.rest, q.next_id),
                }
            };
            match v.result {
                Err(e) => parsed(Err(e), within(ts, v.rest), v.next_id),
                Ok(value) => {
                    let c = consume(
                        within(ts, v.rest),
                        SpecTokenType::Semicolon,
                        "Expect ';' after return value."@,
                    );
                    match c.result {
                        Err(e) => parsed(Err(e), c.rest, v.next_id),
                        Ok(_) => parsed(Ok(SpecStmt::Return { token: keyword, value }), c.rest, v.next_id),
                    }
                },
            }
        },
    }
}

pub closed spec fn expression_statement(ts: Seq<SpecToken>, id: nat) -> Parsed<SpecStmt>
    decreases ts.len(), 32nat,
{
    let q = expression(ts, id);
    match q.result {
        Err(e) => parsed(Err(e), within(ts, q.rest), q.next_id),
        Ok(e) => {
            let c = consume(
                within(ts, q.rest),
                SpecTokenType::Semicolon,
                "Expect ';' after expression."@,
            );
            match c.result {
                Err(err) => parsed(Err(err), c.rest, q.next_id),
                Ok(_) => parsed(Ok(SpecStmt::Expression(e)), c.rest, q.next_id),
            }
        },
    }
}

pub closed spec fn if_statement(ts: Seq<SpecToken>, id: nat) -> Parsed<SpecStmt>
    decreases ts.len(), 38nat,
{
    let c = consume(ts, SpecTokenType::LeftParen, "Expect '(' after 'if'"@);
    match c.result {
        Err(e) => parsed(Err(e), c.rest, id),
        Ok(_) => {
            let ts1 = within(ts, c.rest);
            let q = expression(ts1, id);
            match q.result {
                Err(e) => parsed(Err(e), within(ts1, q.rest), q.next_id),
                Ok(condition) => {
                    let c2 = consume(
                        within(ts1, q.rest),
                        SpecTokenType::RightParen,
                        "Expect ')' after 'if' condition"@,
                    );
                    match c2.result {
                        Err(e) => parsed(Err(e), c2.rest, q.next_id),
                        Ok(_) => {
                            let ts2 = within(ts1, c2.rest);
                            let th = statement(ts2, q.next_id);
                            match th.result {
                                Err(e) => parsed(Err(e), within(ts2, th.rest), th.next_id),
                                Ok(then_branch) => {
                                    let ts3 = within(ts2, th.rest);
                                    match peek(ts3) {
                                        None => parsed(Err(SpecError::UnexpectedEndOfPhrase), ts3, th.next_id),
                                        Some(t) => if t.kind is Else {
                                            let el = statement(ts3.drop_first(), th.next_id);
                                            match el.result {
                                                Err(e) => failed(el),
                                                Ok(else_branch) => parsed(
                                                    Ok(
                                                        SpecStmt::If {
                                                            condition,
                                                            then_branch: Box::new(then_branch),
                                                            else_branch: Some(Box::new(else_branch)),
                                                        },
                                                    ),
                                                    el.rest,
                                                    el.next_id,
                                                ),
                                            }
                                        } else {
                                            parsed(
                                                Ok(
                                                    SpecStmt::If {
                                                        condition,
                                                        then_branch: Box::new(then_branch),
                                                        else_branch: None,
                                                    },
                                                ),
                                                ts3,
                                                th.next_id,
                                            )
                                        },
                                    }
                                },
                            }
                        },
                    }
                },
            }
        },
    }
}

pub closed spec fn while_statement(ts: Seq<SpecToken>, id: nat) -> Parsed<SpecStmt>
    decreases ts.len(), 38nat,
{
    let c = consume(ts, SpecTokenType::LeftParen, "Expect '(' after while"@);
    match c.result {
        Err(e) => parsed(Err(e), c.rest, id),
        Ok(_) => {
            let ts1 = within(ts, c.rest);
            let q = expression(ts1, id);
            match q.result {
                Err(e) => parsed(Err(e), within(ts1, q.rest), q.next_id),
                Ok(condition) => {
                    let c2 = consume(
                        within(ts1, q.rest),
                        SpecTokenType::RightParen,
                        "Expect ')' after condition"@,
                    );
                    match c2.result {
                        Err(e) => parsed(Err(e), c2.rest, q.next_id),
                        Ok(_) => {
                            let b = statement(within(ts1, c2.rest), q.next_id);
                            match b.result {
                                Err(e) => failed(b),
                                Ok(body) => parsed(
                                    Ok(SpecStmt::While { condition, body: Box::new(body) }),
                                    b.rest,
                                    b.next_id,
                                ),
                            }
                        },
                    }
                },
            }
        },
    }
}

// ---------------------------------------------------------------------------
// Each rule unfolded once, for use outside this module
// ---------------------------------------------------------------------------

/// `expression`, unfolded once.
pub proof fn unfold_expression(ts: Seq<SpecToken>, id: nat)
    ensures
        expression(ts, id) == ({
            assignment(ts, id)
        }),
{
}

/// `assignment`, unfolded once.
pub proof fn unfold_assignment(ts: Seq<SpecToken>, id: nat)
    ensures
        assignment(ts, id) == ({
            let p = or(ts, id);
            let ts1 = within(ts, p.rest);
            match p.result {
                Err(e) => parsed(Err(e), ts1, p.next_id),
                Ok(target) => if check(ts1, SpecTokenType::Equal) {
                    let equals = ts1[0];
                    let q = assignment(ts1.drop_first(), p.next_id);
                    match q.result {
                        Err(e) => failed(q),
                        Ok(value) => match target.kind {
                            SpecExprKind::Variable { token, name } => parsed(
                                Ok(mk(q.next_id, SpecExprKind::Assign { name, value: Box::new(value) })),
                                q.rest,
                                q.next_id + 1,
                            ),
                            SpecExprKind::Get { object, token } => parsed(
                                Ok(
                                    mk(
                                        q.next_id,
                                        SpecExprKind::SetProperty { object, token, value: Box::new(value) },
                                    ),
                                ),
                                q.rest,
                                q.next_id + 1,
                            ),
                            _ => parsed(
                                Err(
                                    SpecError::SyntaxError {
                                        token: equals,
                                        message: "Invalid assignment target."@,
                                    },
                                ),
                                q.rest,
                                q.next_id,
                            ),
                        },
                    }
                } else {
                    parsed(Ok(target), ts1, p.next_id)
                },
            }
        }),
{
}

/// `or`, unfolded once.
pub proof fn unfold_or(ts: Seq<SpecToken>, id: nat)
    ensures
        or(ts, id) == ({
            let p = and(ts, id);
            match p.result {
                Err(e) => parsed(Err(e), within(ts, p.rest), p.next_id),
                Ok(left) => or_rest(within(ts, p.rest), p.next_id, left),
            }
        }),
{
}

/// `or_rest`, unfolded once.
pub proof fn unfold_or_rest(ts: Seq<SpecToken>, id: nat, left: SpecExpr)
    ensures
        or_rest(ts, id, left) == ({
            if check(ts, SpecTokenType::Or) {
                let token = ts[0];
                let ts1 = ts.drop_first();
                let q = equality(ts1, id);
                match q.result {
                    Err(e) => parsed(Err(e), within(ts1, q.rest), q.next_id),
                    Ok(right) => or_rest(
                        within(ts1, q.rest),
                        q.next_id + 1,
                        mk(
                            q.next_id,
                            SpecExprKind::Logical {
                                left: Box::new(left),
                                op: LogicalOpType::Or,
                                token,
                                right: Box::new(right),
                            },
                        ),
                    ),
                }
            } else {
                parsed(Ok(left), ts, id)
            }
        }),
{
}

/// `and`, unfolded once.
pub proof fn unfold_and(ts: Seq<SpecToken>, id: nat)
    ensures
        and(ts, id) == ({
            let p = equality(ts, id);
            match p.result {
                Err(e) => parsed(Err(e), within(ts, p.rest), p.next_id),
                Ok(left) => and_rest(within(ts, p.rest), p.next_id, left),
            }
        }),
{
}

/// `and_rest`, unfolded once.
pub proof fn unfold_and_rest(ts: Seq<SpecToken>, id: nat, left: SpecExpr)
    ensures
        and_rest(ts, id, left) == ({
            if check(ts, SpecTokenType::And) {
                let token = ts[0];
                let ts1 = ts.drop_first();
                let q = equality(ts1, id);
                match q.result {
                    Err(e) => parsed(Err(e), within(ts1, q.rest), q.next_id),
                    Ok(right) => and_rest(
                        within(ts1, q.rest),
                        q.next_id + 1,
                        mk(
                            q.next_id,
                            SpecExprKind::Logical {
                                left: Box::new(left),
                                op: LogicalOpType::And,
                                token,
                                right: Box::new(right),
                            },
                        ),
                    ),
                }
            } else {
                parsed(Ok(left), ts, id)
            }
        }),
{
}

/// `equality`, unfolded once.
pub proof fn unfold_equality(ts: Seq<SpecToken>, id: nat)
    ensures
        equality(ts, id) == ({
            let p = comparison(ts, id);
            match p.result {
                Err(e) => parsed(Err(e), within(ts, p.rest), p.next_id),
                Ok(left) => equality_rest(within(ts, p.rest), p.next_id, left),
            }
        }),
{
}

/// `equality_rest`, unfolded once.
pub proof fn unfold_equality_rest(ts: Seq<SpecToken>, id: nat, left: SpecExpr)
    ensures
        equality_rest(ts, id, left) == ({
            match next_op(ts, 0) {
                Some(op) => {
                    let token = ts[0];
                    let ts1 = ts.drop_first();
                    let q = comparison(ts1, id);
                    match q.result {
                        Err(e) => parsed(Err(e), within(ts1, q.rest), q.next_id),
                        Ok(right) => equality_rest(
                            within(ts1, q.rest),
                            q.next_id + 1,
                            binary(left, op, token, right, q.next_id),
                        ),
                    }
                },
                None => parsed(Ok(left), ts, id),
            }
        }),
{
}

/// `comparison`, unfolded once.
pub proof fn unfold_comparison(ts: Seq<SpecToken>, id: nat)
    ensures
        comparison(ts, id) == ({
            let p = term(ts, id);
            match p.result {
                Err(e) => parsed(Err(e), within(ts, p.rest), p.next_id),
                Ok(left) => comparison_rest(within(ts, p.rest), p.next_id, left),
            }
        }),
{
}

/// `comparison_rest`, unfolded once.
pub proof fn unfold_comparison_rest(ts: Seq<SpecToken>, id: nat, left: SpecExpr)
    ensures
        comparison_rest(ts, id, left) == ({
            match next_op(ts, 1) {
                Some(op) => {
                    let token = ts[0];
                    let ts1 = ts.drop_first();
                    let q = term(ts1, id);
                    match q.result {
                        Err(e) => parsed(Err(e), within(ts1, q.rest), q.next_id),
                        Ok(right) => comparison_rest(
                            within(ts1, q.rest),
                            q.next_id + 1,
                            binary(left, op, token, right, q.next_id),
                        ),
                    }
                },
                None => parsed(Ok(left), ts, id),
            }
        }),
{
}

/// `term`, unfolded once.
pub proof fn unfold_term(ts: Seq<SpecToken>, id: nat)
    ensures
        term(ts, id) == ({
            let p = factor(ts, id);
            match p.result {
                Err(e) => parsed(Err(e), within(ts, p.rest), p.next_id),
                Ok(left) => term_rest(within(ts, p.rest), p.next_id, left),
            }
        }),
{
}

/// `term_rest`, unfolded once.
pub proof fn unfold_term_rest(ts: Seq<SpecToken>, id: nat, left: SpecExpr)
    ensures
        term_rest(ts, id, left) == ({
            match next_op(ts, 2) {
                Some(op) => {
                    let token = ts[0];
                    let ts1 = ts.drop_first();
                    let q = factor(ts1, id);
                    match q.result {
                        Err(e) => parsed(Err(e), within(ts1, q.rest), q.next_id),
                        Ok(right) => term_rest(
                            within(ts1, q.rest),
                            q.next_id + 1,
                            binary(left, op, token, right, q.next_id),
                        ),
                    }
                },
                None => parsed(Ok(left), ts, id),
            }
        }),
{
}

/// `factor`, unfolded once.
pub proof fn unfold_factor(ts: Seq<SpecToken>, id: nat)
    ensures
        factor(ts, id) == ({
            let p = unary(ts, id);
            match p.result {
                Err(e) => parsed(Err(e), within(ts, p.rest), p.next_id),
                Ok(left) => factor_rest(within(ts, p.rest), p.next_id, left),
            }
        }),
{
}

/// `factor_rest`, unfolded once.
pub proof fn unfold_factor_rest(ts: Seq<SpecToken>, id: nat, left: SpecExpr)
    ensures
        factor_rest(ts, id, left) == ({
            match next_op(ts, 3) {
                Some(op) => {
                    let token = ts[0];
                    let ts1 = ts.drop_first();
                    let q = unary(ts1, id);
                    match q.result {
                        Err(e) => parsed(Err(e), within(ts1, q.rest), q.next_id),
                        Ok(right) => factor_rest(
                            within(ts1, q.rest),
                            q.next_id + 1,
                            binary(left, op, token, right, q.next_id),
                        ),
                    }
                },
                None => parsed(Ok(left), ts, id),
            }
        }),
{
}

/// `unary`, unfolded once.
pub proof fn unfold_unary(ts: Seq<SpecToken>, id: nat)
    ensures
        unary(ts, id) == ({
            match unary_op(ts) {
                Some(op) => {
                    let token = ts[0];
                    let q = unary(ts.drop_first(), id);
                    match q.result {
                        Err(e) => failed(q),
                        Ok(right) => parsed(
                            Ok(mk(q.next_id, SpecExprKind::Unary { op, token, right: Box::new(right) })),
                            q.rest,
                            q.next_id + 1,
                        ),
                    }
                },
                None => call(ts, id),
            }
        }),
{
}

/// `call`, unfolded once.
pub proof fn unfold_call(ts: Seq<SpecToken>, id: nat)
    ensures
        call(ts, id) == ({
            let p = primary(ts, id);
            match p.result {
                Err(e) => parsed(Err(e), within(ts, p.rest), p.next_id),
                Ok(e) => call_rest(within(ts, p.rest), p.next_id, e),
            }
        }),
{
}

/// `call_rest`, unfolded once.
pub proof fn unfold_call_rest(ts: Seq<SpecToken>, id: nat, callee: SpecExpr)
    ensures
        call_rest(ts, id, callee) == ({
            match peek(ts) {
                None => parsed(Ok(callee), ts, id),
                Some(t) => if t.kind is LeftParen {
                    let ts1 = ts.drop_first();
                    let q = finish_call(ts1, id, callee);
                    match q.result {
                        Err(e) => parsed(Err(e), within(ts1, q.rest), q.next_id),
                        Ok(e) => call_rest(within(ts1, q.rest), q.next_id, e),
                    }
                } else if t.kind is Dot {
                    let ts1 = ts.drop_first();
                    if ts1.len() == 0 {
                        parsed(Err(SpecError::UnexpectedEndOfPhrase), ts1, id)
                    } else {
                        let token = ts1[0];
                        if token.kind is Identifier {
                            call_rest(
                                ts1.drop_first(),
                                id + 1,
                                mk(id, SpecExprKind::Get { object: Box::new(callee), token }),
                            )
                        } else {
                            parsed(
                                Err(
                                    SpecError::SyntaxError {
                                        token,
                                        message: "Expect property name after '.'"@,
                                    },
                                ),
                                ts1.drop_first(),
                                id,
                            )
                        }
                    }
                } else {
                    parsed(Ok(callee), ts, id)
                },
            }
        }),
{
}

/// `finish_call`, unfolded once.
pub proof fn unfold_finish_call(ts: Seq<SpecToken>, id: nat, callee: SpecExpr)
    ensures
        finish_call(ts, id, callee) == ({
            if !check(ts, SpecTokenType::RightParen) {
                let q = expression(ts, id);
                match q.result {
                    Err(e) => parsed(Err(e), within(ts, q.rest), q.next_id),
                    Ok(a) => arguments_rest(within(ts, q.rest), q.next_id, callee, seq![a]),
                }
            } else {
                close_call(ts, id, callee, seq![])
            }
        }),
{
}

/// `arguments_rest`, unfolded once.
pub proof fn unfold_arguments_rest(ts: Seq<SpecToken>,
    id: nat,
    callee: SpecExpr,
    arguments: Seq<SpecExpr>)
    ensures
        arguments_rest(ts, id, callee, arguments) == ({
            match peek(ts) {
                None => parsed(Err(SpecError::UnexpectedEndOfPhrase), ts, id),
                Some(t) => if t.kind is Comma {
                    let ts1 = ts.drop_first();
                    let q = expression(ts1, id);
                    match q.result {
                        Err(e) => parsed(Err(e), within(ts1, q.rest), q.next_id),
                        Ok(a) => arguments_rest(within(ts1, q.rest), q.next_id, callee, arguments.push(a)),
                    }
                } else {
                    close_call(ts, id, callee, arguments)
                },
            }
        }),
{
}

/// `primary`, unfolded once.
pub proof fn unfold_primary(ts: Seq<SpecToken>, id: nat)
    ensures
        primary(ts, id) == ({
            if peek(ts) is None {
                parsed(Err(SpecError::UnexpectedEndOfPhrase), ts, id)
            } else {
                let token = ts[0];
                let ts1 = ts.drop_first();
                let literal = |l: SpecLiteral| parsed(Ok(mk(id, SpecExprKind::Literal(l))), ts1, id + 1);
                match token.kind {
                    SpecTokenType::False => literal(SpecLiteral::Bool(false)),
                    SpecTokenType::True => literal(SpecLiteral::Bool(true)),
                    SpecTokenType::Nil => literal(SpecLiteral::Nil),
                    SpecTokenType::This => parsed(Ok(mk(id, SpecExprKind::This(token))), ts1, id + 1),
                    SpecTokenType::Number(v) => literal(SpecLiteral::Number(v)),
                    SpecTokenType::String(v) => literal(SpecLiteral::String(v)),
                    SpecTokenType::LeftParen => {
                        let q = expression(ts1, id);
                        match q.result {
                            Err(e) => parsed(Err(e), within(ts1, q.rest), q.next_id),
                            Ok(e) => {
                                let c = consume(
                                    within(ts1, q.rest),
                                    SpecTokenType::RightParen,
                                    "Expect ')' after expression."@,
                                );
                                match c.result {
                                    Err(err) => parsed(Err(err), c.rest, q.next_id),
                                    Ok(_) => parsed(
                                        Ok(mk(q.next_id, SpecExprKind::Grouping(Box::new(e)))),
                                        c.rest,
                                        q.next_id + 1,
                                    ),
                                }
                            },
                        }
                    },
                    SpecTokenType::Identifier(name) => parsed(
                        Ok(mk(id, SpecExprKind::Variable { token, name })),
                        ts1,
                        id + 1,
                    ),
                    _ => parsed(
                        Err(SpecError::SyntaxError { token, message: "Expect expression"@ }),
                        ts1,
                        id,
                    ),
                }
            }
        }),
{
}

/// `program`, unfolded once.
pub proof fn unfold_program(ts: Seq<SpecToken>, id: nat)
    ensures
        program(ts, id) == ({
            program_rest(ts, id, seq![])
        }),
{
}

/// `program_rest`, unfolded once.
pub proof fn unfold_program_rest(ts: Seq<SpecToken>, id: nat, stmts: Seq<SpecStmt>)
    ensures
        program_rest(ts, id, stmts) == ({
            if at_end(ts) {
                parsed(Ok(stmts), ts, id)
            } else {
                let q = declaration(ts, id);
                match q.result {
                    Err(e) => failed(q),
                    Ok(s) => program_rest(fewer(ts, q.rest), q.next_id, stmts.push(s)),
                }
            }
        }),
{
}

/// `declaration`, unfolded once.
pub proof fn unfold_declaration(ts: Seq<SpecToken>, id: nat)
    ensures
        declaration(ts, id) == ({
            match peek(ts) {
                None => parsed(Err(SpecError::UnexpectedEndOfPhrase), ts, id),
                Some(t) => if t.kind is Fun {
                    // an error in a function declaration is passed on without recovery
                    let f = function(ts.drop_first(), id, FunctionKind::Function);
                    match f.result {
                        Err(e) => failed(f),
                        Ok(decl) => parsed(Ok(SpecStmt::Function(decl)), f.rest, f.next_id),
                    }
                } else {
                    let p = if t.kind is Var {
                        var_declaration(ts.drop_first(), id)
                    } else if t.kind is Class {
                        class_declaration(ts.drop_first(), id)
                    } else {
                        statement(ts, id)
                    };
                    if p.result is Err {
                        parsed(p.result, synchronize(within(ts, p.rest)), p.next_id)
                    } else {
                        p
                    }
                },
            }
        }),
{
}

/// `var_declaration`, unfolded once.
pub proof fn unfold_var_declaration(ts: Seq<SpecToken>, id: nat)
    ensures
        var_declaration(ts, id) == ({
            if ts.len() == 0 {
                parsed(Err(SpecError::UnexpectedEndOfPhrase), ts, id)
            } else {
                let token = ts[0];
                let ts1 = ts.drop_first();
                if !(token.kind is Identifier) {
                    parsed(Err(SpecError::SyntaxError { token, message: "Expected identifier"@ }), ts1, id)
                } else {
                    match peek(ts1) {
                        None => parsed(Err(SpecError::UnexpectedEndOfPhrase), ts1, id),
                        Some(t) => {
                            let init: Parsed<Option<SpecExpr>> = if t.kind is Equal {
                                let q = expression(ts1.drop_first(), id);
                                match q.result {
                                    Err(e) => failed(q),
                                    Ok(e) => parsed(Ok(Some(e)), q.rest, q.next_id),
                                }
                            } else {
                                parsed(Ok(None), ts1, id)
                            };
                            match init.result {
                                Err(e) => parsed(Err(e), within(ts1, init.rest), init.next_id),
                                Ok(initializer) => {
                                    let c = consume(
                                        within(ts1, init.rest),
                                        SpecTokenType::Semicolon,
                                        "Expect ';' after variable declaration"@,
                                    );
                                    match c.result {
                                        Err(e) => parsed(Err(e), c.rest, init.next_id),
                                        Ok(_) => parsed(
                                            Ok(SpecStmt::Var { token, name: token.lexeme, initializer }),
                                            c.rest,
                                            init.next_id,
                                        ),
                                    }
                                },
                            }
                        },
                    }
                }
            }
        }),
{
}

/// `class_declaration`, unfolded once.
pub proof fn unfold_class_declaration(ts: Seq<SpecToken>, id: nat)
    ensures
        class_declaration(ts, id) == ({
            if ts.len() == 0 {
                parsed(Err(SpecError::UnexpectedEndOfPhrase), ts, id)
            } else {
                let token = ts[0];
                let ts1 = ts.drop_first();
                match token.kind {
                    SpecTokenType::Identifier(name) => {
                        let c = consume(ts1, SpecTokenType::LeftBrace, "Expect '{' before class body"@);
                        match c.result {
                            Err(e) => parsed(Err(e), c.rest, id),
                            Ok(_) => methods_rest(within(ts, c.rest), id, token, name, seq![]),
                        }
                    },
                    _ => parsed(Err(SpecError::SyntaxError { token, message: "Expect class name"@ }), ts1, id),
                }
            }
        }),
{
}

/// `methods_rest`, unfolded once.
pub proof fn unfold_methods_rest(ts: Seq<SpecToken>,
    id: nat,
    token: SpecToken,
    name: Seq<char>,
    methods: Seq<SpecFunction>)
    ensures
        methods_rest(ts, id, token, name, methods) == ({
            match peek(ts) {
                None => parsed(Err(SpecError::UnexpectedEndOfPhrase), ts, id),
                Some(t) => if t.kind is RightBrace {
                    parsed(Ok(SpecStmt::Class { token, name, methods }), ts.drop_first(), id)
                } else {
                    let f = function(ts, id, FunctionKind::Method);
                    match f.result {
                        Err(e) => failed(f),
                        Ok(m) => methods_rest(fewer(ts, f.rest), f.next_id, token, name, methods.push(m)),
                    }
                },
            }
        }),
{
}

/// `function`, unfolded once.
pub proof fn unfold_function(ts: Seq<SpecToken>, id: nat, kind: FunctionKind)
    ensures
        function(ts, id, kind) == ({
            let kname = spec_function_kind_name(kind);
            if ts.len() == 0 {
                parsed(Err(SpecError::UnexpectedEndOfPhrase), ts, id)
            } else {
                let token = ts[0];
                let ts1 = ts.drop_first();
                match token.kind {
                    SpecTokenType::Identifier(name) => {
                        let c = consume(ts1, SpecTokenType::LeftParen, "Expect '(' after "@ + kname + " name."@);
                        match c.result {
                            Err(e) => parsed(Err(e), c.rest, id),
                            Ok(_) => {
                                let ps: (Result<Seq<Seq<char>>, SpecError>, Seq<SpecToken>) = if !check(
                                    c.rest,
                                    SpecTokenType::RightParen,
                                ) {
                                    parameters_rest(c.rest, seq![], name)
                                } else {
                                    (Ok(seq![]), c.rest)
                                };
                                match ps.0 {
                                    Err(e) => parsed(Err(e), ps.1, id),
                                    Ok(params) => {
                                        let c2 = consume(
                                            ps.1,
                                            SpecTokenType::RightParen,
                                            "Expect ')' after parameter list."@,
                                        );
                                        match c2.result {
                                            Err(e) => parsed(Err(e), c2.rest, id),
                                            Ok(_) => {
                                                let c3 = consume(
                                                    c2.rest,
                                                    SpecTokenType::LeftBrace,
                                                    "Expected '{' before "@ + kname + " body"@,
                                                );
                                                match c3.result {
                                                    Err(e) => parsed(Err(e), c3.rest, id),
                                                    Ok(_) => {
                                                        let b = block(within(ts, c3.rest), id);
                                                        match b.result {
                                                            Err(e) => failed(b),
                                                            Ok(body) => parsed(
                                                                Ok(SpecFunction { token, name, params, body }),
                                                                b.rest,
                                                                b.next_id,
                                                            ),
                                                        }
                                                    },
                                                }
                                            },
                                        }
                                    },
                                }
                            },
                        }
                    },
                    _ => parsed(
                        Err(SpecError::SyntaxError { token, message: "Expect "@ + kname + " name."@ }),
                        ts1,
                        id,
                    ),
                }
            }
        }),
{
}

/// `block`, unfolded once.
pub proof fn unfold_block(ts: Seq<SpecToken>, id: nat)
    ensures
        block(ts, id) == ({
            block_rest(ts, id, seq![])
        }),
{
}

/// `block_rest`, unfolded once.
pub proof fn unfold_block_rest(ts: Seq<SpecToken>, id: nat, stmts: Seq<SpecStmt>)
    ensures
        block_rest(ts, id, stmts) == ({
            if !check(ts, SpecTokenType::RightBrace) && !at_end(ts) {
                let q = declaration(ts, id);
                match q.result {
                    Err(e) => failed(q),
                    Ok(s) => block_rest(fewer(ts, q.rest), q.next_id, stmts.push(s)),
                }
            } else {
                let c = consume(ts, SpecTokenType::RightBrace, "Expect '}' after block"@);
                match c.result {
                    Err(e) => parsed(Err(e), c.rest, id),
                    Ok(_) => parsed(Ok(stmts), c.rest, id),
                }
            }
        }),
{
}

/// `statement`, unfolded once.
pub proof fn unfold_statement(ts: Seq<SpecToken>, id: nat)
    ensures
        statement(ts, id) == ({
            match peek(ts) {
                Some(t) => match t.kind {
                    SpecTokenType::Print => print_statement(ts.drop_first(), id),
                    SpecTokenType::LeftBrace => {
                        let b = block(ts.drop_first(), id);
                        match b.result {
                            Err(e) => failed(b),
                            Ok(stmts) => parsed(Ok(SpecStmt::Block(stmts)), b.rest, b.next_id),
                        }
                    },
                    SpecTokenType::If => if_statement(ts.drop_first(), id),
                    SpecTokenType::While => while_statement(ts.drop_first(), id),
                    SpecTokenType::For => for_statement(ts.drop_first(), id),
                    SpecTokenType::Return => return_statement(ts.drop_first(), id, t),
                    _ => expression_statement(ts, id),
                },
                None => expression_statement(ts, id),
            }
        }),
{
}

/// `for_statement`, unfolded once.
pub proof fn unfold_for_statement(ts: Seq<SpecToken>, id: nat)
    ensures
        for_statement(ts, id) == ({
            let c = consume(ts, SpecTokenType::LeftParen, "Expect '(' after 'for'"@);
            match c.result {
                Err(e) => parsed(Err(e), c.rest, id),
                Ok(_) => {
                    let ts1 = within(ts, c.rest);
                    match peek(ts1) {
                        None => parsed(Err(SpecError::UnexpectedEndOfPhrase), ts1, id),
                        Some(t) => {
                            let init: Parsed<Option<SpecStmt>> = if t.kind is Semicolon {
                                parsed(Ok(None), ts1.drop_first(), id)
                            } else if t.kind is Var {
                                let q = var_declaration(ts1.drop_first(), id);
                                match q.result {
                                    Err(e) => failed(q),
                                    Ok(s) => parsed(Ok(Some(s)), q.rest, q.next_id),
                                }
                            } else {
                                let q = expression_statement(ts1, id);
                                match q.result {
                                    Err(e) => failed(q),
                                    Ok(s) => parsed(Ok(Some(s)), q.rest, q.next_id),
                                }
                            };
                            match init.result {
                                Err(e) => parsed(Err(e), init.rest, init.next_id),
                                Ok(initializer) => for_condition(
                                    within(ts1, init.rest),
                                    init.next_id,
                                    initializer,
                                ),
                            }
                        },
                    }
                },
            }
        }),
{
}

/// `for_condition`, unfolded once.
pub proof fn unfold_for_condition(ts: Seq<SpecToken>, id: nat, initializer: Option<SpecStmt>)
    ensures
        for_condition(ts, id, initializer) == ({
            match peek(ts) {
                None => parsed(Err(SpecError::UnexpectedEndOfPhrase), ts, id),
                Some(t) => {
                    let cond: Parsed<SpecExpr> = if t.kind is Semicolon {
                        parsed(Ok(mk(id, SpecExprKind::Literal(SpecLiteral::Bool(true)))), ts, id + 1)
                    } else {
                        expression(ts, id)
                    };
                    match cond.result {
                        Err(e) => parsed(Err(e), within(ts, cond.rest), cond.next_id),
                        Ok(condition) => {
                            let c = consume(
                                within(ts, cond.rest),
                                SpecTokenType::Semicolon,
                                "Expect ';' after loop condition"@,
                            );
                            match c.result {
                                Err(e) => parsed(Err(e), c.rest, cond.next_id),
                                Ok(_) => for_increment(within(ts, c.rest), cond.next_id, initializer, condition),
                            }
                        },
                    }
                },
            }
        }),
{
}

/// `for_increment`, unfolded once.
pub proof fn unfold_for_increment(ts: Seq<SpecToken>,
    id: nat,
    initializer: Option<SpecStmt>,
    condition: SpecExpr)
    ensures
        for_increment(ts, id, initializer, condition) == ({
            match peek(ts) {
                None => parsed(Err(SpecError::UnexpectedEndOfPhrase), ts, id),
                Some(t) => {
                    let incr: Parsed<Option<SpecExpr>> = if t.kind is RightParen {
                        parsed(Ok(None), ts, id)
                    } else {
                        let q = expression(ts, id);
                        match q.result {
                            Err(e) => failed(q),
                            Ok(e) => parsed(Ok(Some(e)), q.rest, q.next_id),
                        }
                    };
                    match incr.result {
                        Err(e) => parsed(Err(e), within(ts, incr.rest), incr.next_id),
                        Ok(increment) => {
                            let c = consume(
                                within(ts, incr.rest),
                                SpecTokenType::RightParen,
                                "Expect ')' after for clauses"@,
                            );
                            match c.result {
                                Err(e) => parsed(Err(e), c.rest, incr.next_id),
                                Ok(_) => {
                                    let b = statement(within(ts, c.rest), incr.next_id);
                                    match b.result {
                                        Err(e) => failed(b),
                                        Ok(body) => parsed(
                                            Ok(for_loop(initializer, condition, increment, body)),
                                            b.rest,
                                            b.next_id,
                                        ),
                                    }
                                },
                            }
                        },
                    }
                },
            }
        }),
{
}

/// `print_statement`, unfolded once.
pub proof fn unfold_print_statement(ts: Seq<SpecToken>, id: nat)
    ensures
        print_statement(ts, id) == ({
            let q = expression(ts, id);
            match q.result {
                Err(e) => parsed(Err(e), within(ts, q.rest), q.next_id),
                Ok(e) => {
                    let c = consume(within(ts, q.rest), SpecTokenType::Semicolon, "Expect ';' after value."@);
                    match c.result {
                        Err(err) => parsed(Err(err), c.rest, q.next_id),
                        Ok(_) => parsed(Ok(SpecStmt::Print(e)), c.rest, q.next_id),
                    }
                },
            }
        }),
{
}

/// `return_statement`, unfolded once.
pub proof fn unfold_return_statement(ts: Seq<SpecToken>, id: nat, keyword: SpecToken)
    ensures
        return_statement(ts, id, keyword) == ({
            match peek(ts) {
                None => parsed(Err(SpecError::UnexpectedEndOfPhrase), ts, id),
                Some(t) => {
                    let v: Parsed<Option<SpecExpr>> = if t.kind is Semicolon {
                        parsed(Ok(None), ts, id)
                    } else {
                        let q = expression(ts, id);
                        match q.result {
                            Err(e) => failed(q),
                            Ok(e) => parsed(Ok(Some(e)), q.rest, q.next_id),
                        }
                    };
                    match v.result {
                        Err(e) => parsed(Err(e), within(ts, v.rest), v.next_id),
                        Ok(value) => {
                            let c = consume(
                                within(ts, v.rest),
                                SpecTokenType::Semicolon,
                                "Expect ';' after return value."@,
                            );
                            match c.result {
                                Err(e) => parsed(Err(e), c.rest, v.next_id),
                                Ok(_) => parsed(Ok(SpecStmt::Return { token: keyword, value }), c.rest, v.next_id),
                            }
                        },
                    }
                },
            }
        }),
{
}

/// `expression_statement`, unfolded once.
pub proof fn unfold_expression_statement(ts: Seq<SpecToken>, id: nat)
    ensures
        expression_statement(ts, id) == ({
            let q = expression(ts, id);
            match q.result {
                Err(e) => parsed(Err(e), within(ts, q.rest), q.next_id),
                Ok(e) => {
                    let c = consume(
                        within(ts, q.rest),
                        SpecTokenType::Semicolon,
                        "Expect ';' after expression."@,
                    );
                    match c.result {
                        Err(err) => parsed(Err(err), c.rest, q.next_id),
                        Ok(_) => parsed(Ok(SpecStmt::Expression(e)), c.rest, q.next_id),
                    }
                },
            }
        }),
{
}

/// `if_statement`, unfolded once.
pub proof fn unfold_if_statement(ts: Seq<SpecToken>, id: nat)
    ensures
        if_statement(ts, id) == ({
            let c = consume(ts, SpecTokenType::LeftParen, "Expect '(' after 'if'"@);
            match c.result {
                Err(e) => parsed(Err(e), c.rest, id),
                Ok(_) => {
                    let ts1 = within(ts, c.rest);
                    let q = expression(ts1, id);
                    match q.result {
                        Err(e) => parsed(Err(e), within(ts1, q.rest), q.next_id),
                        Ok(condition) => {
                            let c2 = consume(
                                within(ts1, q.rest),
                                SpecTokenType::RightParen,
                                "Expect ')' after 'if' condition"@,
                            );
                            match c2.result {
                                Err(e) => parsed(Err(e), c2.rest, q.next_id),
                                Ok(_) => {
                                    let ts2 = within(ts1, c2.rest);
                                    let th = statement(ts2, q.next_id);
                                    match th.result {
                                        Err(e) => parsed(Err(e), within(ts2, th.rest), th.next_id),
                                        Ok(then_branch) => {
                                            let ts3 = within(ts2, th.rest);
                                            match peek(ts3) {
                                                None => parsed(Err(SpecError::UnexpectedEndOfPhrase), ts3, th.next_id),
                                                Some(t) => if t.kind is Else {
                                                    let el = statement(ts3.drop_first(), th.next_id);
                                                    match el.result {
                                                        Err(e) => failed(el),
                                                        Ok(else_branch) => parsed(
                                                            Ok(
                                                                SpecStmt::If {
                                                                    condition,
                                                                    then_branch: Box::new(then_branch),
                                                                    else_branch: Some(Box::new(else_branch)),
                                                                },
                                                            ),
                                                            el.rest,
                                                            el.next_id,
                                                        ),
                                                    }
                                                } else {
                                                    parsed(
                                                        Ok(
                                                            SpecStmt::If {
                                                                condition,
                                                                then_branch: Box::new(then_branch),
                                                                else_branch: None,
                                                            },
                                                        ),
                                                        ts3,
                                                        th.next_id,
                                                    )
                                                },
                                            }
                                        },
                                    }
                                },
                            }
                        },
                    }
                },
            }
        }),
{
}

/// `while_statement`, unfolded once.
pub proof fn unfold_while_statement(ts: Seq<SpecToken>, id: nat)
    ensures
        while_statement(ts, id) == ({
            let c = consume(ts, SpecTokenType::LeftParen, "Expect '(' after while"@);
            match c.result {
                Err(e) => parsed(Err(e), c.rest, id),
                Ok(_) => {
                    let ts1 = within(ts, c.rest);
                    let q = expression(ts1, id);
                    match q.result {
                        Err(e) => parsed(Err(e), within(ts1, q.rest), q.next_id),
                        Ok(condition) => {
                            let c2 = consume(
                                within(ts1, q.rest),
                                SpecTokenType::RightParen,
                                "Expect ')' after condition"@,
                            );
                            match c2.result {
                                Err(e) => parsed(Err(e), c2.rest, q.next_id),
                                Ok(_) => {
                                    let b = statement(within(ts1, c2.rest), q.next_id);
                                    match b.result {
                                        Err(e) => failed(b),
                                        Ok(body) => parsed(
                                            Ok(SpecStmt::While { condition, body: Box::new(body) }),
                                            b.rest,
                                            b.next_id,
                                        ),
                                    }
                                },
                            }
                        },
                    }
                },
            }
        }),
{
}

/// `close_call`, unfolded once.
pub proof fn unfold_close_call(ts: Seq<SpecToken>, id: nat, callee: SpecExpr, arguments: Seq<SpecExpr>)
    ensures
        close_call(ts, id, callee, arguments) == ({
            let c = consume(ts, SpecTokenType::RightParen, "Expect ')' after arguments"@);
            match c.result {
                Err(e) => parsed(Err(e), c.rest, id),
                Ok(paren) => parsed(
                    Ok(mk(id, SpecExprKind::Call { callee: Box::new(callee), paren, arguments })),
                    c.rest,
                    id + 1,
                ),
            }
        }),
{
}

} // verus!
