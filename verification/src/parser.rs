use vstd::prelude::*;

use std::collections::VecDeque;
use std::rc::Rc;

use crate::ast::{
    expr_view, exprs_view, option_expr_view, function_view, functions_view, stmt_view, stmts_view, strings_view,
    Expr, ExprKind, FunctionDeclaration, FunctionKind, Literal, SpecExpr, SpecFunction, SpecStmt,
    Stmt,
};
use crate::errors::{LoxError, SpecError};
use crate::grammar;
use crate::grammar::{parsed, Parsed};
use crate::operator_type::{BinaryOp, BinaryOpType, LogicalOp, LogicalOpType, UnaryOp, UnaryOpType};
use crate::scanner::token_views;
use crate::text::{concat3, concat_str};
use crate::token::{spec_tag, SpecToken, Token, TokenType};

verus! {

pub open spec fn expr_result(r: Result<Expr, LoxError>) -> Result<SpecExpr, SpecError> {
    match r {
        Ok(e) => Ok(expr_view(e)),
        Err(e) => Err(e@),
    }
}

pub open spec fn stmt_result(r: Result<Stmt, LoxError>) -> Result<SpecStmt, SpecError> {
    match r {
        Ok(s) => Ok(stmt_view(s)),
        Err(e) => Err(e@),
    }
}

pub open spec fn option_stmt_view(s: Option<Stmt>) -> Option<SpecStmt> {
    match s {
        Some(s) => Some(stmt_view(s)),
        None => None,
    }
}

pub open spec fn stmts_result(r: Result<Vec<Stmt>, LoxError>) -> Result<Seq<SpecStmt>, SpecError> {
    match r {
        Ok(s) => Ok(stmts_view(s@)),
        Err(e) => Err(e@),
    }
}

pub open spec fn function_result(r: Result<FunctionDeclaration, LoxError>) -> Result<
    SpecFunction,
    SpecError,
> {
    match r {
        Ok(f) => Ok(function_view(f)),
        Err(e) => Err(e@),
    }
}

proof fn lemma_views_drop_first(s: Seq<Token>)
    requires
        s.len() > 0,
    ensures
        token_views(s.subrange(1, s.len() as int)) == token_views(s).drop_first(),
        token_views(s)[0] == s[0]@,
{
    assert(token_views(s.subrange(1, s.len() as int)) =~= token_views(s).drop_first());
}

proof fn lemma_exprs_view_push(es: Seq<Expr>, e: Expr)
    ensures
        exprs_view(es.push(e)) == exprs_view(es).push(expr_view(e)),
{
    assert(es.push(e).drop_last() =~= es);
}

proof fn lemma_stmts_view_push(ss: Seq<Stmt>, s: Stmt)
    ensures
        stmts_view(ss.push(s)) == stmts_view(ss).push(stmt_view(s)),
{
    assert(ss.push(s).drop_last() =~= ss);
}

proof fn lemma_functions_view_push(fs: Seq<Rc<FunctionDeclaration>>, f: Rc<FunctionDeclaration>)
    ensures
        functions_view(fs.push(f)) == functions_view(fs).push(function_view(*f)),
{
    assert(fs.push(f).drop_last() =~= fs);
}

proof fn lemma_strings_view_push(ss: Seq<String>, s: String)
    ensures
        strings_view(ss.push(s)) == strings_view(ss).push(s@),
{
    assert(strings_view(ss.push(s)) =~= strings_view(ss).push(s@));
}

/// A block of two statements.
fn block_of_two(first: Stmt, second: Stmt) -> (r: Stmt)
    ensures
        stmt_view(r) == SpecStmt::Block(seq![stmt_view(first), stmt_view(second)]),
{
    let mut both: Vec<Stmt> = Vec::new();
    proof {
        lemma_stmts_view_push(both@, first);
        lemma_stmts_view_push(both@.push(first), second);
    }
    let ghost first_view = stmt_view(first);
    let ghost second_view = stmt_view(second);
    both.push(first);
    both.push(second);
    proof {
        assert(stmts_view(both@) =~= seq![first_view, second_view]);
    }
    Stmt::Block(both)
}

/// The statement that a `for` loop stands for.
fn desugar_for(initializer: Option<Stmt>, condition: Expr, increment: Option<Expr>, body: Stmt) -> (r:
    Stmt)
    ensures
        stmt_view(r) == grammar::for_loop(
            option_stmt_view(initializer),
            expr_view(condition),
            option_expr_view(increment),
            stmt_view(body),
        ),
{
    let body = match increment {
        Some(increment_expression) => block_of_two(body, Stmt::Expression(increment_expression)),
        None => body,
    };
    let looped = Stmt::While { condition, body: Box::new(body) };
    match initializer {
        Some(initializer_statement) => block_of_two(initializer_statement, looped),
        None => looped,
    }
}

/// Reads the statements of a program from its tokens.
pub struct Parser {
    tokens: VecDeque<Token>,
    next_expr_id: usize,
}

impl Parser {
    /// The tokens left to read.
    pub closed spec fn remaining(&self) -> Seq<SpecToken> {
        token_views(self.tokens@)
    }

    /// The identifier that the next expression will get.
    pub closed spec fn next_id(&self) -> nat {
        self.next_expr_id as nat
    }

    /// The identifier that the next expression will get fits in a machine word.
    pub proof fn lemma_next_id_fits(p: &Parser)
        ensures
            p.next_id() <= usize::MAX,
    {
    }

    /// The parser's invariant: identifiers cannot run out before the tokens do.
    pub closed spec fn wf(&self) -> bool {
        self.next_expr_id + self.tokens@.len() <= usize::MAX
    }

    closed spec fn potential(&self) -> int {
        self.next_expr_id + self.tokens@.len()
    }

    /// A step from `before` to `after` with result `result` is the step `spec`
    /// of the grammar, reading tokens and handing out identifiers only as far
    /// as the invariant allows.
    pub closed spec fn stepped<A>(
        before: Parser,
        after: Parser,
        result: Result<A, SpecError>,
        spec: Parsed<A>,
    ) -> bool {
        &&& after.wf()
        &&& after.potential() <= before.potential()
        &&& after.tokens@.len() <= before.tokens@.len()
        &&& after.remaining().len() <= before.remaining().len()
        &&& after.after(result) == spec
    }

    /// The state of the parser after a step with the given result.
    pub open spec fn after<A>(&self, result: Result<A, SpecError>) -> Parsed<A> {
        parsed(result, self.remaining(), self.next_id())
    }

    /// A parser for `tokens`, whose first expression gets the identifier 0.
    pub fn new(tokens: Vec<Token>) -> (r: Parser)
        ensures
            r.wf(),
            r.remaining() == token_views(tokens@),
            r.next_id() == 0,
    {
        let ghost all = tokens@;
        let total = tokens.len();
        let mut rest = tokens;
        let mut deque: VecDeque<Token> = VecDeque::new();
        while rest.len() > 0
            invariant
                all.len() == total,
                rest@.len() <= all.len(),
                rest@ == all.subrange(0, rest@.len() as int),
                deque@ == all.subrange(rest@.len() as int, all.len() as int),
            decreases rest.len(),
        {
            let t = rest.pop().unwrap();
            deque.push_front(t);
            proof {
                assert(deque@ =~= all.subrange(rest@.len() as int, all.len() as int));
                assert(rest@ =~= all.subrange(0, rest@.len() as int));
            }
        }
        proof {
            assert(deque@ =~= all);
        }
        Parser { tokens: deque, next_expr_id: 0 }
    }

    fn expr(&mut self, kind: ExprKind) -> (r: Expr)
        requires
            old(self).next_expr_id < usize::MAX,
        ensures
            r.id == old(self).next_expr_id,
            r.kind == kind,
            final(self).next_expr_id == old(self).next_expr_id + 1,
            final(self).tokens == old(self).tokens,
    {
        let id = self.next_expr_id;
        self.next_expr_id = self.next_expr_id + 1;
        Expr { id, kind }
    }

    fn advance(&mut self) -> (r: Option<Token>)
        requires
            old(self).wf(),
        ensures
            final(self).wf(),
            final(self).next_expr_id == old(self).next_expr_id,
            r is Some ==> old(self).remaining().len() > 0,
            r is Some ==> r->0@ == old(self).remaining()[0],
            r is Some ==> final(self).remaining() == old(self).remaining().drop_first(),
            r is Some ==> final(self).tokens@.len() == old(self).tokens@.len() - 1,
            r is None ==> old(self).remaining().len() == 0,
            r is None ==> final(self).tokens@ == old(self).tokens@,
    {
        let r = self.tokens.pop_front();
        proof {
            if r is Some {
                lemma_views_drop_first(old(self).tokens@);
            }
        }
        r
    }

    fn advance_or_panic(&mut self) -> (r: Token)
        requires
            old(self).wf(),
            old(self).remaining().len() > 0,
        ensures
            final(self).wf(),
            final(self).next_expr_id == old(self).next_expr_id,
            r@ == old(self).remaining()[0],
            final(self).remaining() == old(self).remaining().drop_first(),
            final(self).tokens@.len() == old(self).tokens@.len() - 1,
    {
        match self.advance() {
            Some(t) => t,
            None => vstd::pervasive::unreached(),
        }
    }

    fn is_at_end(&self) -> (r: bool)
        ensures
            r == grammar::at_end(self.remaining()),
    {
        self.peek().is_none()
    }

    fn peek(&self) -> (r: Option<&Token>)
        ensures
            match r {
                Some(t) => grammar::peek(self.remaining()) == Some(t@),
                None => grammar::peek(self.remaining()) is None,
            },
    {
        if self.tokens.len() == 0 {
            None
        } else {
            let t = &self.tokens[0];
            match t.token_type {
                TokenType::Eof => None,
                _ => Some(t),
            }
        }
    }

    fn check(&self, token_type: TokenType) -> (r: bool)
        ensures
            r == grammar::check(self.remaining(), token_type@),
    {
        match self.peek() {
            None => false,
            Some(token) => token.token_type.same_as(&token_type),
        }
    }

    fn consume(&mut self, token_type: TokenType, message: String) -> (r: Result<Token, LoxError>)
        requires
            old(self).wf(),
        ensures
            final(self).wf(),
            final(self).next_expr_id == old(self).next_expr_id,
            final(self).tokens@.len() <= old(self).tokens@.len(),
            r is Ok ==> final(self).tokens@.len() < old(self).tokens@.len(),
            ({
                let c = grammar::consume(old(self).remaining(), token_type@, message@);
                &&& final(self).remaining() == c.rest
                &&& match r {
                    Ok(t) => c.result == Ok::<SpecToken, SpecError>(t@),
                    Err(e) => c.result == Err::<SpecToken, SpecError>(e@),
                }
            }),
    {
        if self.check(token_type) {
            Ok(self.advance_or_panic())
        } else {
            match self.advance() {
                Some(token) => Err(LoxError::SyntaxError { token, message }),
                None => Err(LoxError::UnexpectedEndOfPhrase),
            }
        }
    }

    fn synchronize(&mut self)
        requires
            old(self).wf(),
        ensures
            final(self).wf(),
            final(self).next_expr_id == old(self).next_expr_id,
            final(self).tokens@.len() <= old(self).tokens@.len(),
            final(self).remaining() == grammar::synchronize(old(self).remaining()),
    {
        let mut last_token = self.advance();
        loop
            invariant
                self.wf(),
                self.next_expr_id == old(self).next_expr_id,
                self.tokens@.len() <= old(self).tokens@.len(),
                match last_token {
                    Some(t) => grammar::synchronize(old(self).remaining())
                        == grammar::synchronize_after(t@, self.remaining()),
                    None => self.remaining().len() == 0 && grammar::synchronize(
                        old(self).remaining(),
                    ) == self.remaining(),
                },
            ensures
                self.wf(),
                self.next_expr_id == old(self).next_expr_id,
                self.tokens@.len() <= old(self).tokens@.len(),
                self.remaining() == grammar::synchronize(old(self).remaining()),
            decreases self.tokens@.len(),
        {
            match last_token {
                Some(token) => {
                    if let TokenType::Semicolon = token.token_type {
                        return;
                    }
                },
                None => {
                    return;
                },
            }
            let stop = match self.peek() {
                None => true,
                Some(token) => match token.token_type {
                    TokenType::Class | TokenType::For | TokenType::Fun | TokenType::If
                    | TokenType::Print | TokenType::Return | TokenType::Var | TokenType::While => true,
                    _ => false,
                },
            };
            if stop {
                return;
            }
            last_token = self.advance();
        }
    }

    fn binary_op(&self, level: u8) -> (r: Option<BinaryOpType>)
        ensures
            r == grammar::next_op(self.remaining(), level as nat),
    {
        match self.peek() {
            None => None,
            Some(t) => {
                if level == 0 {
                    match t.token_type {
                        TokenType::BangEqual => Some(BinaryOpType::NotEqual),
                        TokenType::EqualEqual => Some(BinaryOpType::Equal),
                        _ => None,
                    }
                } else if level == 1 {
                    match t.token_type {
                        TokenType::Greater => Some(BinaryOpType::GreaterThan),
                        TokenType::GreaterEqual => Some(BinaryOpType::GreaterThanEqualTo),
                        TokenType::Less => Some(BinaryOpType::LessThan),
                        TokenType::LessEqual => Some(BinaryOpType::LessThanEqualTo),
                        _ => None,
                    }
                } else if level == 2 {
                    match t.token_type {
                        TokenType::Minus => Some(BinaryOpType::Subtract),
                        TokenType::Plus => Some(BinaryOpType::Add),
                        _ => None,
                    }
                } else {
                    match t.token_type {
                        TokenType::Slash => Some(BinaryOpType::Divide),
                        TokenType::Star => Some(BinaryOpType::Multiply),
                        _ => None,
                    }
                }
            },
        }
    }

    fn expression(&mut self) -> (r: Result<Expr, LoxError>)
        requires
            old(self).wf(),
        ensures
            Self::stepped(
                *old(self),
                *final(self),
                expr_result(r),
                grammar::expression(old(self).remaining(), old(self).next_id()),
            ),
        decreases old(self).tokens@.len(), 18nat,
    {
        proof {
            grammar::unfold_expression(old(self).remaining(), old(self).next_id());
        }
        self.assignment()
    }

    fn assignment(&mut self) -> (r: Result<Expr, LoxError>)
        requires
            old(self).wf(),
        ensures
            Self::stepped(
                *old(self),
                *final(self),
                expr_result(r),
                grammar::assignment(old(self).remaining(), old(self).next_id()),
            ),
        decreases old(self).tokens@.len(), 17nat,
    {
        proof {
            grammar::unfold_assignment(old(self).remaining(), old(self).next_id());
        }
        let expr = self.or()?;
        if self.check(TokenType::Equal) {
            let equals = self.advance_or_panic();
            let value = self.assignment()?;
            match expr.kind {
                ExprKind::Variable { token, name } => Ok(
                    self.expr(ExprKind::Assign { name, value: Box::new(value) }),
                ),
                ExprKind::Get { object, token } => Ok(
                    self.expr(ExprKind::SetProperty { object, token, value: Box::new(value) }),
                ),
                _ => Err(
                    LoxError::SyntaxError {
                        token: equals,
                        message: String::from_str("Invalid assignment target."),
                    },
                ),
            }
        } else {
            Ok(expr)
        }
    }

    fn or(&mut self) -> (r: Result<Expr, LoxError>)
        requires
            old(self).wf(),
        ensures
            Self::stepped(
                *old(self),
                *final(self),
                expr_result(r),
                grammar::or(old(self).remaining(), old(self).next_id()),
            ),
        decreases old(self).tokens@.len(), 16nat,
    {
        proof {
            grammar::unfold_or(old(self).remaining(), old(self).next_id());
        }
        let mut expr = self.and()?;
        loop
            invariant
                self.wf(),
                self.potential() <= old(self).potential(),
                self.tokens@.len() <= old(self).tokens@.len(),
                grammar::or(old(self).remaining(), old(self).next_id()) == grammar::or_rest(
                    self.remaining(),
                    self.next_id(),
                    expr_view(expr),
                ),
            decreases self.tokens@.len(),
        {
            proof {
                grammar::unfold_or_rest(self.remaining(), self.next_id(), expr_view(expr));
            }
            if !self.check(TokenType::Or) {
                return Ok(expr);
            }
            let token = self.advance_or_panic();
            let operator = LogicalOp { op_type: LogicalOpType::Or, token };
            let right = self.equality()?;
            expr = self.expr(
                ExprKind::Logical { left: Box::new(expr), operator, right: Box::new(right) },
            );
        }
    }

    fn and(&mut self) -> (r: Result<Expr, LoxError>)
        requires
            old(self).wf(),
        ensures
            Self::stepped(
                *old(self),
                *final(self),
                expr_result(r),
                grammar::and(old(self).remaining(), old(self).next_id()),
            ),
        decreases old(self).tokens@.len(), 14nat,
    {
        proof {
            grammar::unfold_and(old(self).remaining(), old(self).next_id());
        }
        let mut expr = self.equality()?;
        loop
            invariant
                self.wf(),
                self.potential() <= old(self).potential(),
                self.tokens@.len() <= old(self).tokens@.len(),
                grammar::and(old(self).remaining(), old(self).next_id()) == grammar::and_rest(
                    self.remaining(),
                    self.next_id(),
                    expr_view(expr),
                ),
            decreases self.tokens@.len(),
        {
            proof {
                grammar::unfold_and_rest(self.remaining(), self.next_id(), expr_view(expr));
            }
            if !self.check(TokenType::And) {
                return Ok(expr);
            }
            let token = self.advance_or_panic();
            let operator = LogicalOp { op_type: LogicalOpType::And, token };
            let right = self.equality()?;
            expr = self.expr(
                ExprKind::Logical { left: Box::new(expr), operator, right: Box::new(right) },
            );
        }
    }

    fn equality(&mut self) -> (r: Result<Expr, LoxError>)
        requires
            old(self).wf(),
        ensures
            Self::stepped(
                *old(self),
                *final(self),
                expr_result(r),
                grammar::equality(old(self).remaining(), old(self).next_id()),
            ),
        decreases old(self).tokens@.len(), 12nat,
    {
        proof {
            grammar::unfold_equality(old(self).remaining(), old(self).next_id());
        }
        let mut expr = self.comparison()?;
        loop
            invariant
                self.wf(),
                self.potential() <= old(self).potential(),
                self.tokens@.len() <= old(self).tokens@.len(),
                grammar::equality(old(self).remaining(), old(self).next_id())
                    == grammar::equality_rest(self.remaining(), self.next_id(), expr_view(expr)),
            decreases self.tokens@.len(),
        {
            proof {
                grammar::unfold_equality_rest(self.remaining(), self.next_id(), expr_view(expr));
            }
            let op_type = match self.binary_op(0) {
                Some(op) => op,
                None => {
                    return Ok(expr);
                },
            };
            let token = self.advance_or_panic();
            let operator = BinaryOp { op_type, token };
            let right = self.comparison()?;
            expr = self.expr(
                ExprKind::Binary { left: Box::new(expr), operator, right: Box::new(right) },
            );
        }
    }

    fn comparison(&mut self) -> (r: Result<Expr, LoxError>)
        requires
            old(self).wf(),
        ensures
            Self::stepped(
                *old(self),
                *final(self),
                expr_result(r),
                grammar::comparison(old(self).remaining(), old(self).next_id()),
            ),
        decreases old(self).tokens@.len(), 10nat,
    {
        proof {
            grammar::unfold_comparison(old(self).remaining(), old(self).next_id());
        }
        let mut expr = self.term()?;
        loop
            invariant
                self.wf(),
                self.potential() <= old(self).potential(),
                self.tokens@.len() <= old(self).tokens@.len(),
                grammar::comparison(old(self).remaining(), old(self).next_id())
                    == grammar::comparison_rest(self.remaining(), self.next_id(), expr_view(expr)),
            decreases self.tokens@.len(),
        {
            proof {
                grammar::unfold_comparison_rest(self.remaining(), self.next_id(), expr_view(expr));
            }
            let op_type = match self.binary_op(1) {
                Some(op) => op,
                None => {
                    return Ok(expr);
                },
            };
            let token = self.advance_or_panic();
            let operator = BinaryOp { op_type, token };
            let right = self.term()?;
            expr = self.expr(
                ExprKind::Binary { left: Box::new(expr), operator, right: Box::new(right) },
            );
        }
    }

    fn term(&mut self) -> (r: Result<Expr, LoxError>)
        requires
            old(self).wf(),
        ensures
            Self::stepped(
                *old(self),
                *final(self),
                expr_result(r),
                grammar::term(old(self).remaining(), old(self).next_id()),
            ),
        decreases old(self).tokens@.len(), 8nat,
    {
        proof {
            grammar::unfold_term(old(self).remaining(), old(self).next_id());
        }
        let mut expr = self.factor()?;
        loop
            invariant
                self.wf(),
                self.potential() <= old(self).potential(),
                self.tokens@.len() <= old(self).tokens@.len(),
                grammar::term(old(self).remaining(), old(self).next_id()) == grammar::term_rest(
                    self.remaining(),
                    self.next_id(),
                    expr_view(expr),
                ),
            decreases self.tokens@.len(),
        {
            proof {
                grammar::unfold_term_rest(self.remaining(), self.next_id(), expr_view(expr));
            }
            let op_type = match self.binary_op(2) {
                Some(op) => op,
                None => {
                    return Ok(expr);
                },
            };
            let token = self.advance_or_panic();
            let operator = BinaryOp { op_type, token };
            let right = self.factor()?;
            expr = self.expr(
                ExprKind::Binary { left: Box::new(expr), operator, right: Box::new(right) },
            );
        }
    }

    fn factor(&mut self) -> (r: Result<Expr, LoxError>)
        requires
            old(self).wf(),
        ensures
            Self::stepped(
                *old(self),
                *final(self),
                expr_result(r),
                grammar::factor(old(self).remaining(), old(self).next_id()),
            ),
        decreases old(self).tokens@.len(), 6nat,
    {
        proof {
            grammar::unfold_factor(old(self).remaining(), old(self).next_id());
        }
        let mut expr = self.unary()?;
        loop
            invariant
                self.wf(),
                self.potential() <= old(self).potential(),
                self.tokens@.len() <= old(self).tokens@.len(),
                grammar::factor(old(self).remaining(), old(self).next_id()) == grammar::factor_rest(
                    self.remaining(),
                    self.next_id(),
                    expr_view(expr),
                ),
            decreases self.tokens@.len(),
        {
            proof {
                grammar::unfold_factor_rest(self.remaining(), self.next_id(), expr_view(expr));
            }
            let op_type = match self.binary_op(3) {
                Some(op) => op,
                None => {
                    return Ok(expr);
                },
            };
            let token = self.advance_or_panic();
            let operator = BinaryOp { op_type, token };
            let right = self.unary()?;
            expr = self.expr(
                ExprKind::Binary { left: Box::new(expr), operator, right: Box::new(right) },
            );
        }
    }

    fn unary(&mut self) -> (r: Result<Expr, LoxError>)
        requires
            old(self).wf(),
        ensures
            Self::stepped(
                *old(self),
                *final(self),
                expr_result(r),
                grammar::unary(old(self).remaining(), old(self).next_id()),
            ),
        decreases old(self).tokens@.len(), 4nat,
    {
        proof {
            grammar::unfold_unary(old(self).remaining(), old(self).next_id());
        }
        let op_type = match self.peek() {
            Some(t) => match t.token_type {
                TokenType::Bang => Some(UnaryOpType::Not),
                TokenType::Minus => Some(UnaryOpType::Negative),
                _ => None,
            },
            None => None,
        };
        if let Some(op_type) = op_type {
            let token = self.advance_or_panic();
            let operator = UnaryOp { op_type, token };
            let right = self.unary()?;
            Ok(self.expr(ExprKind::Unary { operator, right: Box::new(right) }))
        } else {
            self.call()
        }
    }

    fn call(&mut self) -> (r: Result<Expr, LoxError>)
        requires
            old(self).wf(),
        ensures
            Self::stepped(
                *old(self),
                *final(self),
                expr_result(r),
                grammar::call(old(self).remaining(), old(self).next_id()),
            ),
        decreases old(self).tokens@.len(), 3nat,
    {
        proof {
            grammar::unfold_call(old(self).remaining(), old(self).next_id());
        }
        let mut expr = self.primary()?;
        loop
            invariant
                self.wf(),
                self.potential() <= old(self).potential(),
                self.tokens@.len() <= old(self).tokens@.len(),
                grammar::call(old(self).remaining(), old(self).next_id()) == grammar::call_rest(
                    self.remaining(),
                    self.next_id(),
                    expr_view(expr),
                ),
            decreases self.tokens@.len(),
        {
            proof {
                grammar::unfold_call_rest(self.remaining(), self.next_id(), expr_view(expr));
            }
            let next: u8 = match self.peek() {
                None => 0,
                Some(t) => match t.token_type {
                    TokenType::LeftParen => 1,
                    TokenType::Dot => 2,
                    _ => 0,
                },
            };
            if next == 1 {
                self.advance();
                expr = self.finish_call(expr)?;
            } else if next == 2 {
                self.advance();
                let token = match self.advance() {
                    Some(t) => t,
                    None => {
                        return Err(LoxError::UnexpectedEndOfPhrase);
                    },
                };
                let is_name = match &token.token_type {
                    TokenType::Identifier(_) => true,
                    _ => false,
                };
                if !is_name {
                    return Err(
                        LoxError::SyntaxError {
                            token,
                            message: String::from_str("Expect property name after '.'"),
                        },
                    );
                }
                expr = self.expr(ExprKind::Get { object: Box::new(expr), token });
            } else {
                return Ok(expr);
            }
        }
    }

    fn close_call(&mut self, callee: Expr, arguments: Vec<Expr>) -> (r: Result<Expr, LoxError>)
        requires
            old(self).wf(),
        ensures
            Self::stepped(
                *old(self),
                *final(self),
                expr_result(r),
                grammar::close_call(
                    old(self).remaining(),
                    old(self).next_id(),
                    expr_view(callee),
                    exprs_view(arguments@),
                ),
            ),
    {
        proof {
            grammar::unfold_close_call(old(self).remaining(), old(self).next_id(), expr_view(callee), exprs_view(arguments@));
        }
        let paren = self.consume(
            TokenType::RightParen,
            String::from_str("Expect ')' after arguments"),
        )?;
        Ok(self.expr(ExprKind::Call { callee: Box::new(callee), paren, arguments }))
    }

    fn finish_call(&mut self, callee: Expr) -> (r: Result<Expr, LoxError>)
        requires
            old(self).wf(),
        ensures
            Self::stepped(
                *old(self),
                *final(self),
                expr_result(r),
                grammar::finish_call(old(self).remaining(), old(self).next_id(), expr_view(callee)),
            ),
        decreases old(self).tokens@.len(), 20nat,
    {
        proof {
            grammar::unfold_finish_call(old(self).remaining(), old(self).next_id(), expr_view(callee));
        }
        let ghost callee_view = expr_view(callee);
        let mut arguments: Vec<Expr> = Vec::new();
        if self.check(TokenType::RightParen) {
            proof {
                assert(exprs_view(arguments@) =~= seq![]);
            }
            return self.close_call(callee, arguments);
        }
        let first = self.expression()?;
        let ghost first_view = expr_view(first);
        proof {
            lemma_exprs_view_push(arguments@, first);
        }
        arguments.push(first);
        proof {
            assert(exprs_view(arguments@) =~= seq![first_view]);
        }
        loop
            invariant
                self.wf(),
                self.potential() <= old(self).potential(),
                self.tokens@.len() <= old(self).tokens@.len(),
                callee_view == expr_view(callee),
                grammar::finish_call(old(self).remaining(), old(self).next_id(), callee_view)
                    == grammar::arguments_rest(
                    self.remaining(),
                    self.next_id(),
                    callee_view,
                    exprs_view(arguments@),
                ),
            decreases self.tokens@.len(),
        {
            proof {
                grammar::unfold_arguments_rest(self.remaining(), self.next_id(), callee_view, exprs_view(arguments@));
            }
            let is_comma = match self.peek() {
                None => {
                    return Err(LoxError::UnexpectedEndOfPhrase);
                },
                Some(t) => match t.token_type {
                    TokenType::Comma => true,
                    _ => false,
                },
            };
            if !is_comma {
                return self.close_call(callee, arguments);
            }
            self.advance();
            let argument = self.expression()?;
            proof {
                lemma_exprs_view_push(arguments@, argument);
            }
            arguments.push(argument);
        }
    }

    fn primary(&mut self) -> (r: Result<Expr, LoxError>)
        requires
            old(self).wf(),
        ensures
            Self::stepped(
                *old(self),
                *final(self),
                expr_result(r),
                grammar::primary(old(self).remaining(), old(self).next_id()),
            ),
        decreases old(self).tokens@.len(), 1nat,
    {
        proof {
            grammar::unfold_primary(old(self).remaining(), old(self).next_id());
        }
        if self.peek().is_none() {
            return Err(LoxError::UnexpectedEndOfPhrase);
        }
        let token = self.advance_or_panic();
        match &token.token_type {
            TokenType::False => Ok(self.expr(ExprKind::Literal(Literal::Bool(false)))),
            TokenType::True => Ok(self.expr(ExprKind::Literal(Literal::Bool(true)))),
            TokenType::Nil => Ok(self.expr(ExprKind::Literal(Literal::Nil))),
            TokenType::This => Ok(self.expr(ExprKind::This { token })),
            TokenType::Number(value) => {
                let value = value.clone();
                Ok(self.expr(ExprKind::Literal(Literal::Number(value))))
            },
            TokenType::String(value) => {
                let value = value.clone();
                Ok(self.expr(ExprKind::Literal(Literal::String(value))))
            },
            TokenType::LeftParen => {
                let expr = self.expression()?;
                self.consume(
                    TokenType::RightParen,
                    String::from_str("Expect ')' after expression."),
                )?;
                Ok(self.expr(ExprKind::Grouping { expression: Box::new(expr) }))
            },
            TokenType::Identifier(name) => {
                let name = name.clone();
                Ok(self.expr(ExprKind::Variable { token, name }))
            },
            _ => Err(
                LoxError::SyntaxError { token, message: String::from_str("Expect expression") },
            ),
        }
    }


    fn peek_tag(&self) -> (r: Option<u8>)
        ensures
            r == match grammar::peek(self.remaining()) {
                Some(t) => Some(spec_tag(t.kind)),
                None => None::<u8>,
            },
    {
        match self.peek() {
            Some(t) => Some(t.token_type.tag()),
            None => None,
        }
    }

    /// Parses the whole program: declarations up to the end of the tokens.
    pub fn parse(&mut self) -> (r: Result<Vec<Stmt>, LoxError>)
        requires
            old(self).wf(),
        ensures
            final(self).wf(),
            final(self).after(stmts_result(r)) == grammar::program(
                old(self).remaining(),
                old(self).next_id(),
            ),
    {
        proof {
            grammar::unfold_program(old(self).remaining(), old(self).next_id());
        }
        let mut statements: Vec<Stmt> = Vec::new();
        while !self.is_at_end()
            invariant
                self.wf(),
                grammar::program(old(self).remaining(), old(self).next_id())
                    == grammar::program_rest(
                    self.remaining(),
                    self.next_id(),
                    stmts_view(statements@),
                ),
            decreases self.tokens@.len(),
        {
            proof {
                grammar::unfold_program_rest(
                    self.remaining(),
                    self.next_id(),
                    stmts_view(statements@),
                );
            }
            let statement = self.declaration()?;
            proof {
                lemma_stmts_view_push(statements@, statement);
            }
            statements.push(statement);
        }
        proof {
            grammar::unfold_program_rest(self.remaining(), self.next_id(), stmts_view(statements@));
        }
        Ok(statements)
    }

    fn declaration(&mut self) -> (r: Result<Stmt, LoxError>)
        requires
            old(self).wf(),
        ensures
            Self::stepped(
                *old(self),
                *final(self),
                stmt_result(r),
                grammar::declaration(old(self).remaining(), old(self).next_id()),
            ),
            r is Ok ==> final(self).remaining().len() < old(self).remaining().len(),
        decreases old(self).tokens@.len(), 39nat,
    {
        proof {
            grammar::unfold_declaration(old(self).remaining(), old(self).next_id());
        }
        let tag = match self.peek_tag() {
            Some(t) => t,
            None => {
                return Err(LoxError::UnexpectedEndOfPhrase);
            },
        };
        if tag == 26 {
            // `fun`
            self.advance();
            let function = self.function(FunctionKind::Function)?;
            return Ok(Stmt::Function(Rc::new(function)));
        }
        let result = if tag == 36 {
            // `var`
            self.advance();
            self.var_declaration()
        } else if tag == 23 {
            // `class`
            self.advance();
            self.class_declaration()
        } else {
            self.statement()
        };
        if result.is_err() {
            self.synchronize();
        }
        result
    }

    fn var_declaration(&mut self) -> (r: Result<Stmt, LoxError>)
        requires
            old(self).wf(),
        ensures
            Self::stepped(
                *old(self),
                *final(self),
                stmt_result(r),
                grammar::var_declaration(old(self).remaining(), old(self).next_id()),
            ),
            r is Ok ==> final(self).remaining().len() < old(self).remaining().len(),
        decreases old(self).tokens@.len(), 33nat,
    {
        proof {
            grammar::unfold_var_declaration(old(self).remaining(), old(self).next_id());
        }
        let token = match self.advance() {
            Some(t) => t,
            None => {
                return Err(LoxError::UnexpectedEndOfPhrase);
            },
        };
        let is_identifier = match &token.token_type {
            TokenType::Identifier(_) => true,
            _ => false,
        };
        if !is_identifier {
            return Err(
                LoxError::SyntaxError { token, message: String::from_str("Expected identifier") },
            );
        }
        let is_equal = match self.peek() {
            None => {
                return Err(LoxError::UnexpectedEndOfPhrase);
            },
            Some(t) => match t.token_type {
                TokenType::Equal => true,
                _ => false,
            },
        };
        let initializer = if is_equal {
            self.advance();
            Some(self.expression()?)
        } else {
            None
        };
        self.consume(
            TokenType::Semicolon,
            String::from_str("Expect ';' after variable declaration"),
        )?;
        Ok(Stmt::Var { name: token.lexeme.clone(), token, initializer })
    }

    fn class_declaration(&mut self) -> (r: Result<Stmt, LoxError>)
        requires
            old(self).wf(),
        ensures
            Self::stepped(
                *old(self),
                *final(self),
                stmt_result(r),
                grammar::class_declaration(old(self).remaining(), old(self).next_id()),
            ),
            r is Ok ==> final(self).remaining().len() < old(self).remaining().len(),
        decreases old(self).tokens@.len(), 48nat,
    {
        proof {
            grammar::unfold_class_declaration(old(self).remaining(), old(self).next_id());
        }
        let token = match self.advance() {
            Some(t) => t,
            None => {
                return Err(LoxError::UnexpectedEndOfPhrase);
            },
        };
        let name = match &token.token_type {
            TokenType::Identifier(name) => name.clone(),
            _ => {
                return Err(
                    LoxError::SyntaxError { token, message: String::from_str("Expect class name") },
                );
            },
        };
        self.consume(TokenType::LeftBrace, String::from_str("Expect '{' before class body"))?;
        let mut methods: Vec<Rc<FunctionDeclaration>> = Vec::new();
        loop
            invariant
                self.wf(),
                self.potential() <= old(self).potential(),
                self.tokens@.len() < old(self).tokens@.len(),
                grammar::class_declaration(old(self).remaining(), old(self).next_id())
                    == grammar::methods_rest(
                    self.remaining(),
                    self.next_id(),
                    token@,
                    name@,
                    functions_view(methods@),
                ),
            decreases self.tokens@.len(),
        {
            proof {
                grammar::unfold_methods_rest(
                    self.remaining(),
                    self.next_id(),
                    token@,
                    name@,
                    functions_view(methods@),
                );
            }
            let at_close = match self.peek() {
                None => {
                    return Err(LoxError::UnexpectedEndOfPhrase);
                },
                Some(t) => match t.token_type {
                    TokenType::RightBrace => true,
                    _ => false,
                },
            };
            if at_close {
                self.advance();
                return Ok(Stmt::Class { token, name, methods });
            }
            let method = Rc::new(self.function(FunctionKind::Method)?);
            proof {
                lemma_functions_view_push(methods@, method);
            }
            methods.push(method);
        }
    }

    /// The parameter names of the function `name`, up to the token after the last one.
    fn parameters(&mut self, name: &String) -> (r: Result<Vec<String>, LoxError>)
        requires
            old(self).wf(),
        ensures
            final(self).wf(),
            final(self).next_expr_id == old(self).next_expr_id,
            final(self).tokens@.len() <= old(self).tokens@.len(),
            ({
                let (result, rest) = grammar::parameters_rest(old(self).remaining(), seq![], name@);
                &&& final(self).remaining() == rest
                &&& result == match r {
                    Ok(ps) => Ok::<Seq<Seq<char>>, SpecError>(strings_view(ps@)),
                    Err(e) => Err(e@),
                }
            }),
    {
        let mut params: Vec<String> = Vec::new();
        proof {
            assert(strings_view(params@) =~= seq![]);
        }
        loop
            invariant
                self.wf(),
                self.next_expr_id == old(self).next_expr_id,
                self.tokens@.len() <= old(self).tokens@.len(),
                params@.len() <= 255,
                grammar::parameters_rest(old(self).remaining(), seq![], name@)
                    == grammar::parameters_rest(self.remaining(), strings_view(params@), name@),
            decreases self.tokens@.len(),
        {
            let token = match self.advance() {
                Some(t) => t,
                None => {
                    return Err(LoxError::UnexpectedEndOfPhrase);
                },
            };
            if params.len() >= 255 {
                return Err(
                    LoxError::SyntaxError {
                        token,
                        message: concat_str("Too many parameters for function ", name.as_str()),
                    },
                );
            }
            let parameter_name = match &token.token_type {
                TokenType::Identifier(n) => n.clone(),
                _ => {
                    return Err(
                        LoxError::SyntaxError {
                            token,
                            message: String::from_str("Expected parameter name"),
                        },
                    );
                },
            };
            proof {
                lemma_strings_view_push(params@, parameter_name);
            }
            params.push(parameter_name);
            let more = match self.peek() {
                None => {
                    return Err(LoxError::UnexpectedEndOfPhrase);
                },
                Some(t) => match t.token_type {
                    TokenType::Comma => true,
                    _ => false,
                },
            };
            if !more {
                return Ok(params);
            }
            self.advance();
        }
    }

    fn function(&mut self, kind: FunctionKind) -> (r: Result<FunctionDeclaration, LoxError>)
        requires
            old(self).wf(),
        ensures
            Self::stepped(
                *old(self),
                *final(self),
                function_result(r),
                grammar::function(old(self).remaining(), old(self).next_id(), kind),
            ),
            r is Ok ==> final(self).remaining().len() < old(self).remaining().len(),
        decreases old(self).tokens@.len(), 45nat,
    {
        proof {
            grammar::unfold_function(old(self).remaining(), old(self).next_id(), kind);
        }
        let token = match self.advance() {
            Some(t) => t,
            None => {
                return Err(LoxError::UnexpectedEndOfPhrase);
            },
        };
        let name = match &token.token_type {
            TokenType::Identifier(name) => name.clone(),
            _ => {
                return Err(
                    LoxError::SyntaxError {
                        token,
                        message: concat3("Expect ", kind.name(), " name."),
                    },
                );
            },
        };
        self.consume(TokenType::LeftParen, concat3("Expect '(' after ", kind.name(), " name."))?;
        let params = if !self.check(TokenType::RightParen) {
            self.parameters(&name)?
        } else {
            let none: Vec<String> = Vec::new();
            proof {
                assert(strings_view(none@) =~= seq![]);
            }
            none
        };
        self.consume(TokenType::RightParen, String::from_str("Expect ')' after parameter list."))?;
        self.consume(TokenType::LeftBrace, concat3("Expected '{' before ", kind.name(), " body"))?;
        let body = self.block()?;
        Ok(FunctionDeclaration { token, name, params, body })
    }

    fn block(&mut self) -> (r: Result<Vec<Stmt>, LoxError>)
        requires
            old(self).wf(),
        ensures
            Self::stepped(
                *old(self),
                *final(self),
                stmts_result(r),
                grammar::block(old(self).remaining(), old(self).next_id()),
            ),
            r is Ok ==> final(self).remaining().len() < old(self).remaining().len(),
        decreases old(self).tokens@.len(), 42nat,
    {
        proof {
            grammar::unfold_block(old(self).remaining(), old(self).next_id());
        }
        let mut statements: Vec<Stmt> = Vec::new();
        loop
            invariant
                self.wf(),
                self.potential() <= old(self).potential(),
                self.tokens@.len() <= old(self).tokens@.len(),
                grammar::block(old(self).remaining(), old(self).next_id()) == grammar::block_rest(
                    self.remaining(),
                    self.next_id(),
                    stmts_view(statements@),
                ),
            decreases self.tokens@.len(),
        {
            proof {
                grammar::unfold_block_rest(self.remaining(), self.next_id(), stmts_view(statements@));
            }
            if !self.check(TokenType::RightBrace) && !self.is_at_end() {
                let statement = self.declaration()?;
                proof {
                    lemma_stmts_view_push(statements@, statement);
                }
                statements.push(statement);
            } else {
                self.consume(TokenType::RightBrace, String::from_str("Expect '}' after block"))?;
                return Ok(statements);
            }
        }
    }

    fn statement(&mut self) -> (r: Result<Stmt, LoxError>)
        requires
            old(self).wf(),
        ensures
            Self::stepped(
                *old(self),
                *final(self),
                stmt_result(r),
                grammar::statement(old(self).remaining(), old(self).next_id()),
            ),
            r is Ok ==> final(self).remaining().len() < old(self).remaining().len(),
        decreases old(self).tokens@.len(), 37nat,
    {
        proof {
            grammar::unfold_statement(old(self).remaining(), old(self).next_id());
        }
        match self.peek_tag() {
            Some(31) => {
                // `print`
                self.advance();
                self.print_statement()
            },
            Some(2) => {
                // `{`
                self.advance();
                Ok(Stmt::Block(self.block()?))
            },
            Some(28) => {
                // `if`
                self.advance();
                self.if_statement()
            },
            Some(37) => {
                // `while`
                self.advance();
                self.while_statement()
            },
            Some(27) => {
                // `for`
                self.advance();
                self.for_statement()
            },
            Some(32) => {
                // `return`
                let keyword = self.advance_or_panic();
                self.return_statement(keyword)
            },
            _ => self.expression_statement(),
        }
    }


    fn for_statement(&mut self) -> (r: Result<Stmt, LoxError>)
        requires
            old(self).wf(),
        ensures
            Self::stepped(
                *old(self),
                *final(self),
                stmt_result(r),
                grammar::for_statement(old(self).remaining(), old(self).next_id()),
            ),
            r is Ok ==> final(self).remaining().len() < old(self).remaining().len(),
        decreases old(self).tokens@.len(), 38nat,
    {
        proof {
            grammar::unfold_for_statement(old(self).remaining(), old(self).next_id());
        }
        self.consume(TokenType::LeftParen, String::from_str("Expect '(' after 'for'"))?;
        let first = match self.peek_tag() {
            Some(t) => t,
            None => {
                return Err(LoxError::UnexpectedEndOfPhrase);
            },
        };
        let initializer = if first == 8 {
            // `;`
            self.advance();
            None
        } else if first == 36 {
            // `var`
            self.advance();
            Some(self.var_declaration()?)
        } else {
            Some(self.expression_statement()?)
        };
        self.for_condition(initializer)
    }

    /// The condition of a `for` loop and what follows it.
    fn for_condition(&mut self, initializer: Option<Stmt>) -> (r: Result<Stmt, LoxError>)
        requires
            old(self).potential() < usize::MAX,
        ensures
            final(self).wf(),
            final(self).potential() <= old(self).potential() + 1,
            final(self).tokens@.len() <= old(self).tokens@.len(),
            final(self).remaining().len() <= old(self).remaining().len(),
            final(self).after(stmt_result(r)) == grammar::for_condition(
                old(self).remaining(),
                old(self).next_id(),
                option_stmt_view(initializer),
            ),
            r is Ok ==> final(self).remaining().len() < old(self).remaining().len(),
        decreases old(self).tokens@.len(), 36nat,
    {
        proof {
            grammar::unfold_for_condition(
                old(self).remaining(),
                old(self).next_id(),
                option_stmt_view(initializer),
            );
        }
        let second = match self.peek_tag() {
            Some(t) => t,
            None => {
                return Err(LoxError::UnexpectedEndOfPhrase);
            },
        };
        let condition = if second == 8 {
            self.expr(ExprKind::Literal(Literal::Bool(true)))
        } else {
            self.expression()?
        };
        self.consume(TokenType::Semicolon, String::from_str("Expect ';' after loop condition"))?;
        self.for_increment(initializer, condition)
    }

    /// The increment and the body of a `for` loop, and the loop.
    fn for_increment(&mut self, initializer: Option<Stmt>, condition: Expr) -> (r: Result<
        Stmt,
        LoxError,
    >)
        requires
            old(self).wf(),
        ensures
            Self::stepped(
                *old(self),
                *final(self),
                stmt_result(r),
                grammar::for_increment(
                    old(self).remaining(),
                    old(self).next_id(),
                    option_stmt_view(initializer),
                    expr_view(condition),
                ),
            ),
            r is Ok ==> final(self).remaining().len() < old(self).remaining().len(),
        decreases old(self).tokens@.len(), 35nat,
    {
        proof {
            grammar::unfold_for_increment(
                old(self).remaining(),
                old(self).next_id(),
                option_stmt_view(initializer),
                expr_view(condition),
            );
        }
        let third = match self.peek_tag() {
            Some(t) => t,
            None => {
                return Err(LoxError::UnexpectedEndOfPhrase);
            },
        };
        let increment = if third == 1 {
            None
        } else {
            Some(self.expression()?)
        };
        self.consume(TokenType::RightParen, String::from_str("Expect ')' after for clauses"))?;
        let body = self.statement()?;
        Ok(desugar_for(initializer, condition, increment, body))
    }

    fn print_statement(&mut self) -> (r: Result<Stmt, LoxError>)
        requires
            old(self).wf(),
        ensures
            Self::stepped(
                *old(self),
                *final(self),
                stmt_result(r),
                grammar::print_statement(old(self).remaining(), old(self).next_id()),
            ),
            r is Ok ==> final(self).remaining().len() < old(self).remaining().len(),
        decreases old(self).tokens@.len(), 31nat,
    {
        proof {
            grammar::unfold_print_statement(old(self).remaining(), old(self).next_id());
        }
        let expression = self.expression()?;
        self.consume(TokenType::Semicolon, String::from_str("Expect ';' after value."))?;
        Ok(Stmt::Print(expression))
    }

    fn return_statement(&mut self, keyword: Token) -> (r: Result<Stmt, LoxError>)
        requires
            old(self).wf(),
        ensures
            Self::stepped(
                *old(self),
                *final(self),
                stmt_result(r),
                grammar::return_statement(old(self).remaining(), old(self).next_id(), keyword@),
            ),
            r is Ok ==> final(self).remaining().len() < old(self).remaining().len(),
        decreases old(self).tokens@.len(), 30nat,
    {
        proof {
            grammar::unfold_return_statement(old(self).remaining(), old(self).next_id(), keyword@);
        }
        let tag = match self.peek_tag() {
            Some(t) => t,
            None => {
                return Err(LoxError::UnexpectedEndOfPhrase);
            },
        };
        let value = if tag == 8 {
            None
        } else {
            Some(self.expression()?)
        };
        self.consume(TokenType::Semicolon, String::from_str("Expect ';' after return value."))?;
        Ok(Stmt::Return { token: keyword, value })
    }

    fn expression_statement(&mut self) -> (r: Result<Stmt, LoxError>)
        requires
            old(self).wf(),
        ensures
            Self::stepped(
                *old(self),
                *final(self),
                stmt_result(r),
                grammar::expression_statement(old(self).remaining(), old(self).next_id()),
            ),
            r is Ok ==> final(self).remaining().len() < old(self).remaining().len(),
        decreases old(self).tokens@.len(), 32nat,
    {
        proof {
            grammar::unfold_expression_statement(old(self).remaining(), old(self).next_id());
        }
        let expression = self.expression()?;
        self.consume(TokenType::Semicolon, String::from_str("Expect ';' after expression."))?;
        Ok(Stmt::Expression(expression))
    }

    fn if_statement(&mut self) -> (r: Result<Stmt, LoxError>)
        requires
            old(self).wf(),
        ensures
            Self::stepped(
                *old(self),
                *final(self),
                stmt_result(r),
                grammar::if_statement(old(self).remaining(), old(self).next_id()),
            ),
            r is Ok ==> final(self).remaining().len() < old(self).remaining().len(),
        decreases old(self).tokens@.len(), 38nat,
    {
        proof {
            grammar::unfold_if_statement(old(self).remaining(), old(self).next_id());
        }
        self.consume(TokenType::LeftParen, String::from_str("Expect '(' after 'if'"))?;
        let condition = self.expression()?;
        self.consume(TokenType::RightParen, String::from_str("Expect ')' after 'if' condition"))?;
        let then_branch = Box::new(self.statement()?);
        let tag = match self.peek_tag() {
            Some(t) => t,
            None => {
                return Err(LoxError::UnexpectedEndOfPhrase);
            },
        };
        let else_branch = if tag == 24 {
            // `else`
            self.advance();
            Some(Box::new(self.statement()?))
        } else {
            None
        };
        Ok(Stmt::If { condition, then_branch, else_branch })
    }

    fn while_statement(&mut self) -> (r: Result<Stmt, LoxError>)
        requires
            old(self).wf(),
        ensures
            Self::stepped(
                *old(self),
                *final(self),
                stmt_result(r),
                grammar::while_statement(old(self).remaining(), old(self).next_id()),
            ),
            r is Ok ==> final(self).remaining().len() < old(self).remaining().len(),
        decreases old(self).tokens@.len(), 38nat,
    {
        proof {
            grammar::unfold_while_statement(old(self).remaining(), old(self).next_id());
        }
        self.consume(TokenType::LeftParen, String::from_str("Expect '(' after while"))?;
        let condition = self.expression()?;
        self.consume(TokenType::RightParen, String::from_str("Expect ')' after condition"))?;
        let body = self.statement()?;
        Ok(Stmt::While { condition, body: Box::new(body) })
    }

}

} // verus!
