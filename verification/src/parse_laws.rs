use vstd::prelude::*;

use crate::ast::{
    expr_ids, exprs_ids, function_ids, functions_ids, stmt_ids, stmts_ids, FunctionKind, SpecExpr,
    SpecExprKind, SpecFunction, SpecLiteral, SpecStmt,
};
use crate::grammar;
use crate::grammar::{
    and, and_rest, arguments_rest, assignment, at_end, binary, block, block_rest, call, call_rest,
    check, class_declaration, close_call, comparison, comparison_rest, consume, declaration,
    equality, equality_rest, expression, expression_statement, factor, factor_rest, fewer,
    finish_call, for_condition, for_increment, for_loop, for_statement, function, if_statement,
    methods_rest, mk, next_op, or, or_rest, peek, primary, print_statement, program, program_rest,
    return_statement, statement, term, term_rest, unary, unary_op, var_declaration,
    while_statement, within, Parsed,
};
use crate::operator_type::{BinaryOpType, LogicalOpType, UnaryOpType};
use crate::token::{SpecToken, SpecTokenType};

verus! {

// ---------------------------------------------------------------------------
// Expression identifiers: every expression that one parse makes gets an
// identifier of its own, taken in turn from the counter it is given
// ---------------------------------------------------------------------------

/// The identifiers `ids` are all different and lie in `[lo, hi)`.
pub open spec fn ids_between(ids: Seq<nat>, lo: nat, hi: nat) -> bool {
    &&& ids.no_duplicates()
    &&& forall|k: int| 0 <= k < ids.len() ==> lo <= #[trigger] ids[k] < hi
}

/// A step that started with the counter at `id` left it at `id` or beyond,
/// and the expression it read (whose earlier parts were read from `lo` on)
/// has identifiers of its own in `[lo, next_id)`.
pub open spec fn expr_ids_from(p: Parsed<SpecExpr>, lo: nat, id: nat) -> bool {
    &&& p.next_id >= id
    &&& (p.result matches Ok(e) ==> ids_between(expr_ids(e), lo, p.next_id))
}

pub open spec fn stmt_ids_from(p: Parsed<SpecStmt>, lo: nat, id: nat) -> bool {
    &&& p.next_id >= id
    &&& (p.result matches Ok(s) ==> ids_between(stmt_ids(s), lo, p.next_id))
}

pub open spec fn stmts_ids_from(p: Parsed<Seq<SpecStmt>>, lo: nat, id: nat) -> bool {
    &&& p.next_id >= id
    &&& (p.result matches Ok(ss) ==> ids_between(stmts_ids(ss), lo, p.next_id))
}

pub open spec fn function_ids_from(p: Parsed<SpecFunction>, lo: nat, id: nat) -> bool {
    &&& p.next_id >= id
    &&& (p.result matches Ok(f) ==> ids_between(function_ids(f), lo, p.next_id))
}

proof fn lemma_ids_weaken(a: Seq<nat>, lo: nat, hi: nat, lo2: nat, hi2: nat)
    requires
        ids_between(a, lo, hi),
        lo2 <= lo,
        hi <= hi2,
    ensures
        ids_between(a, lo2, hi2),
{
}

/// Two lists of identifiers from ranges that do not overlap, one after the
/// other.
proof fn lemma_ids_concat(a: Seq<nat>, b: Seq<nat>, la: nat, ha: nat, lb: nat, hb: nat)
    requires
        ids_between(a, la, ha),
        ids_between(b, lb, hb),
        la <= ha,
        lb <= hb,
        ha <= lb || hb <= la,
    ensures
        ha <= lb ==> ids_between(a + b, la, hb),
        hb <= la ==> ids_between(a + b, lb, ha),
        ids_between(a + b, if la <= lb { la } else { lb }, if ha <= hb { hb } else { ha }),
{
    let c = a + b;
    assert forall|i: int, j: int| 0 <= i < c.len() && 0 <= j < c.len() && i != j implies c[i]
        != c[j] by {
        if i < a.len() && j < a.len() {
            assert(a[i] != a[j]);
        } else if i >= a.len() && j >= a.len() {
            assert(b[i - a.len()] != b[j - a.len()]);
        } else if i < a.len() {
            assert(c[j] == b[j - a.len()]);
        } else {
            assert(c[i] == b[i - a.len()]);
        }
    }
    assert forall|k: int| 0 <= k < c.len() implies (if la <= lb { la } else { lb }) <= #[trigger] c[k] < (if ha <= hb { hb } else { ha }) by {
        if k >= a.len() {
            assert(c[k] == b[k - a.len()]);
        }
    }
    if ha <= lb {
        assert forall|k: int| 0 <= k < c.len() implies la <= #[trigger] c[k] < hb by {
            if k >= a.len() {
                assert(c[k] == b[k - a.len()]);
            }
        }
    }
    if hb <= la {
        assert forall|k: int| 0 <= k < c.len() implies lb <= #[trigger] c[k] < ha by {
            if k >= a.len() {
                assert(c[k] == b[k - a.len()]);
            }
        }
    }
}

/// One more identifier, the counter's, after the others.
proof fn lemma_ids_push(a: Seq<nat>, lo: nat, id: nat)
    requires
        ids_between(a, lo, id),
        lo <= id,
    ensures
        ids_between(a.push(id), lo, id + 1),
{
    assert(ids_between(seq![id], id, id + 1));
    lemma_ids_concat(a, seq![id], lo, id, id, id + 1);
    assert(a.push(id) =~= a + seq![id]);
}

/// The identifiers before the last one.
proof fn lemma_ids_drop_last(a: Seq<nat>, lo: nat, hi: nat)
    requires
        ids_between(a, lo, hi),
        a.len() > 0,
    ensures
        ids_between(a.drop_last(), lo, hi),
{
}

/// The parts of a binary or logical expression, and the expression itself.
proof fn lemma_ids_pair(left: Seq<nat>, right: Seq<nat>, lo: nat, mid: nat, id: nat)
    requires
        ids_between(left, lo, mid),
        ids_between(right, mid, id),
        lo <= mid <= id,
    ensures
        ids_between((left + right).push(id), lo, id + 1),
{
    lemma_ids_concat(left, right, lo, mid, mid, id);
    lemma_ids_push(left + right, lo, id);
}

proof fn lemma_ids_of_list_push(es: Seq<SpecExpr>, e: SpecExpr)
    ensures
        exprs_ids(es.push(e)) == exprs_ids(es) + expr_ids(e),
{
    assert(es.push(e).drop_last() =~= es);
}

proof fn lemma_stmts_ids_push(ss: Seq<SpecStmt>, s: SpecStmt)
    ensures
        stmts_ids(ss.push(s)) == stmts_ids(ss) + stmt_ids(s),
{
    assert(ss.push(s).drop_last() =~= ss);
}

proof fn lemma_functions_ids_push(fs: Seq<SpecFunction>, f: SpecFunction)
    ensures
        functions_ids(fs.push(f)) == functions_ids(fs) + function_ids(f),
{
    assert(fs.push(f).drop_last() =~= fs);
}

proof fn lemma_ids_expression(ts: Seq<SpecToken>, id: nat)
    ensures
        expr_ids_from(expression(ts, id), id, id),
    decreases ts.len(), 18nat,
{
    grammar::unfold_expression(ts, id);
    lemma_ids_assignment(ts, id);
}

proof fn lemma_ids_assignment(ts: Seq<SpecToken>, id: nat)
    ensures
        expr_ids_from(assignment(ts, id), id, id),
    decreases ts.len(), 17nat,
{
    grammar::unfold_assignment(ts, id);
    lemma_ids_or(ts, id);
    let p = or(ts, id);
    let ts1 = within(ts, p.rest);
    if let Ok(target) = p.result {
        if check(ts1, SpecTokenType::Equal) {
            lemma_ids_assignment(ts1.drop_first(), p.next_id);
            let q = assignment(ts1.drop_first(), p.next_id);
            if let Ok(value) = q.result {
                match target.kind {
                    SpecExprKind::Variable { token, name } => {
                        lemma_ids_weaken(expr_ids(value), p.next_id, q.next_id, id, q.next_id);
                        lemma_ids_push(expr_ids(value), id, q.next_id);
                    },
                    SpecExprKind::Get { object, token } => {
                        assert(expr_ids(target) == expr_ids(*object).push(target.id));
                        assert(expr_ids(target).drop_last() =~= expr_ids(*object));
                        lemma_ids_drop_last(expr_ids(target), id, p.next_id);
                        lemma_ids_pair(expr_ids(*object), expr_ids(value), id, p.next_id, q.next_id);
                    },
                    _ => {},
                }
            }
        }
    }
}

proof fn lemma_ids_or(ts: Seq<SpecToken>, id: nat)
    ensures
        expr_ids_from(or(ts, id), id, id),
    decreases ts.len(), 16nat,
{
    grammar::unfold_or(ts, id);
    lemma_ids_and(ts, id);
    let p = and(ts, id);
    if let Ok(left) = p.result {
        lemma_ids_or_rest(within(ts, p.rest), p.next_id, left, id);
    }
}

proof fn lemma_ids_or_rest(ts: Seq<SpecToken>, id: nat, left: SpecExpr, lo: nat)
    requires
        lo <= id,
        ids_between(expr_ids(left), lo, id),
    ensures
        expr_ids_from(or_rest(ts, id, left), lo, id),
    decreases ts.len(), 15nat,
{
    grammar::unfold_or_rest(ts, id, left);
    if check(ts, SpecTokenType::Or) {
        let ts1 = ts.drop_first();
        lemma_ids_equality(ts1, id);
        let q = equality(ts1, id);
        if let Ok(right) = q.result {
            lemma_ids_pair(expr_ids(left), expr_ids(right), lo, id, q.next_id);
            let node = mk(
                q.next_id,
                SpecExprKind::Logical {
                    left: Box::new(left),
                    op: LogicalOpType::Or,
                    token: ts[0],
                    right: Box::new(right),
                },
            );
            lemma_ids_or_rest(within(ts1, q.rest), q.next_id + 1, node, lo);
        }
    }
}

proof fn lemma_ids_and(ts: Seq<SpecToken>, id: nat)
    ensures
        expr_ids_from(and(ts, id), id, id),
    decreases ts.len(), 14nat,
{
    grammar::unfold_and(ts, id);
    lemma_ids_equality(ts, id);
    let p = equality(ts, id);
    if let Ok(left) = p.result {
        lemma_ids_and_rest(within(ts, p.rest), p.next_id, left, id);
    }
}

proof fn lemma_ids_and_rest(ts: Seq<SpecToken>, id: nat, left: SpecExpr, lo: nat)
    requires
        lo <= id,
        ids_between(expr_ids(left), lo, id),
    ensures
        expr_ids_from(and_rest(ts, id, left), lo, id),
    decreases ts.len(), 13nat,
{
    grammar::unfold_and_rest(ts, id, left);
    if check(ts, SpecTokenType::And) {
        let ts1 = ts.drop_first();
        lemma_ids_equality(ts1, id);
        let q = equality(ts1, id);
        if let Ok(right) = q.result {
            lemma_ids_pair(expr_ids(left), expr_ids(right), lo, id, q.next_id);
            let node = mk(
                q.next_id,
                SpecExprKind::Logical {
                    left: Box::new(left),
                    op: LogicalOpType::And,
                    token: ts[0],
                    right: Box::new(right),
                },
            );
            lemma_ids_and_rest(within(ts1, q.rest), q.next_id + 1, node, lo);
        }
    }
}

proof fn lemma_ids_equality(ts: Seq<SpecToken>, id: nat)
    ensures
        expr_ids_from(equality(ts, id), id, id),
    decreases ts.len(), 12nat,
{
    grammar::unfold_equality(ts, id);
    lemma_ids_comparison(ts, id);
    let p = comparison(ts, id);
    if let Ok(left) = p.result {
        lemma_ids_equality_rest(within(ts, p.rest), p.next_id, left, id);
    }
}

proof fn lemma_ids_equality_rest(ts: Seq<SpecToken>, id: nat, left: SpecExpr, lo: nat)
    requires
        lo <= id,
        ids_between(expr_ids(left), lo, id),
    ensures
        expr_ids_from(equality_rest(ts, id, left), lo, id),
    decreases ts.len(), 11nat,
{
    grammar::unfold_equality_rest(ts, id, left);
    if let Some(op) = next_op(ts, 0) {
        let ts1 = ts.drop_first();
        lemma_ids_comparison(ts1, id);
        let q = comparison(ts1, id);
        if let Ok(right) = q.result {
            lemma_ids_pair(expr_ids(left), expr_ids(right), lo, id, q.next_id);
            lemma_ids_equality_rest(
                within(ts1, q.rest),
                q.next_id + 1,
                binary(left, op, ts[0], right, q.next_id),
                lo,
            );
        }
    }
}

proof fn lemma_ids_comparison(ts: Seq<SpecToken>, id: nat)
    ensures
        expr_ids_from(comparison(ts, id), id, id),
    decreases ts.len(), 10nat,
{
    grammar::unfold_comparison(ts, id);
    lemma_ids_term(ts, id);
    let p = term(ts, id);
    if let Ok(left) = p.result {
        lemma_ids_comparison_rest(within(ts, p.rest), p.next_id, left, id);
    }
}

proof fn lemma_ids_comparison_rest(ts: Seq<SpecToken>, id: nat, left: SpecExpr, lo: nat)
    requires
        lo <= id,
        ids_between(expr_ids(left), lo, id),
    ensures
        expr_ids_from(comparison_rest(ts, id, left), lo, id),
    decreases ts.len(), 9nat,
{
    grammar::unfold_comparison_rest(ts, id, left);
    if let Some(op) = next_op(ts, 1) {
        let ts1 = ts.drop_first();
        lemma_ids_term(ts1, id);
        let q = term(ts1, id);
        if let Ok(right) = q.result {
            lemma_ids_pair(expr_ids(left), expr_ids(right), lo, id, q.next_id);
            lemma_ids_comparison_rest(
                within(ts1, q.rest),
                q.next_id + 1,
                binary(left, op, ts[0], right, q.next_id),
                lo,
            );
        }
    }
}

proof fn lemma_ids_term(ts: Seq<SpecToken>, id: nat)
    ensures
        expr_ids_from(term(ts, id), id, id),
    decreases ts.len(), 8nat,
{
    grammar::unfold_term(ts, id);
    lemma_ids_factor(ts, id);
    let p = factor(ts, id);
    if let Ok(left) = p.result {
        lemma_ids_term_rest(within(ts, p.rest), p.next_id, left, id);
    }
}

proof fn lemma_ids_term_rest(ts: Seq<SpecToken>, id: nat, left: SpecExpr, lo: nat)
    requires
        lo <= id,
        ids_between(expr_ids(left), lo, id),
    ensures
        expr_ids_from(term_rest(ts, id, left), lo, id),
    decreases ts.len(), 7nat,
{
    grammar::unfold_term_rest(ts, id, left);
    if let Some(op) = next_op(ts, 2) {
        let ts1 = ts.drop_first();
        lemma_ids_factor(ts1, id);
        let q = factor(ts1, id);
        if let Ok(right) = q.result {
            lemma_ids_pair(expr_ids(left), expr_ids(right), lo, id, q.next_id);
            lemma_ids_term_rest(
                within(ts1, q.rest),
                q.next_id + 1,
                binary(left, op, ts[0], right, q.next_id),
                lo,
            );
        }
    }
}

proof fn lemma_ids_factor(ts: Seq<SpecToken>, id: nat)
    ensures
        expr_ids_from(factor(ts, id), id, id),
    decreases ts.len(), 6nat,
{
    grammar::unfold_factor(ts, id);
    lemma_ids_unary(ts, id);
    let p = unary(ts, id);
    if let Ok(left) = p.result {
        lemma_ids_factor_rest(within(ts, p.rest), p.next_id, left, id);
    }
}

proof fn lemma_ids_factor_rest(ts: Seq<SpecToken>, id: nat, left: SpecExpr, lo: nat)
    requires
        lo <= id,
        ids_between(expr_ids(left), lo, id),
    ensures
        expr_ids_from(factor_rest(ts, id, left), lo, id),
    decreases ts.len(), 5nat,
{
    grammar::unfold_factor_rest(ts, id, left);
    if let Some(op) = next_op(ts, 3) {
        let ts1 = ts.drop_first();
        lemma_ids_unary(ts1, id);
        let q = unary(ts1, id);
        if let Ok(right) = q.result {
            lemma_ids_pair(expr_ids(left), expr_ids(right), lo, id, q.next_id);
            lemma_ids_factor_rest(
                within(ts1, q.rest),
                q.next_id + 1,
                binary(left, op, ts[0], right, q.next_id),
                lo,
            );
        }
    }
}

proof fn lemma_ids_unary(ts: Seq<SpecToken>, id: nat)
    ensures
        expr_ids_from(unary(ts, id), id, id),
    decreases ts.len(), 4nat,
{
    grammar::unfold_unary(ts, id);
    if let Some(op) = unary_op(ts) {
        lemma_ids_unary(ts.drop_first(), id);
        let q = unary(ts.drop_first(), id);
        if let Ok(right) = q.result {
            lemma_ids_push(expr_ids(right), id, q.next_id);
        }
    } else {
        lemma_ids_call(ts, id);
    }
}

proof fn lemma_ids_call(ts: Seq<SpecToken>, id: nat)
    ensures
        expr_ids_from(call(ts, id), id, id),
    decreases ts.len(), 3nat,
{
    grammar::unfold_call(ts, id);
    lemma_ids_primary(ts, id);
    let p = primary(ts, id);
    if let Ok(e) = p.result {
        lemma_ids_call_rest(within(ts, p.rest), p.next_id, e, id);
    }
}

proof fn lemma_ids_call_rest(ts: Seq<SpecToken>, id: nat, callee: SpecExpr, lo: nat)
    requires
        lo <= id,
        ids_between(expr_ids(callee), lo, id),
    ensures
        expr_ids_from(call_rest(ts, id, callee), lo, id),
    decreases ts.len(), 2nat,
{
    grammar::unfold_call_rest(ts, id, callee);
    if let Some(t) = peek(ts) {
        if t.kind is LeftParen {
            let ts1 = ts.drop_first();
            lemma_ids_finish_call(ts1, id, callee, lo);
            let q = finish_call(ts1, id, callee);
            if let Ok(e) = q.result {
                lemma_ids_call_rest(within(ts1, q.rest), q.next_id, e, lo);
            }
        } else if t.kind is Dot {
            let ts1 = ts.drop_first();
            if ts1.len() > 0 && ts1[0].kind is Identifier {
                lemma_ids_push(expr_ids(callee), lo, id);
                lemma_ids_call_rest(
                    ts1.drop_first(),
                    id + 1,
                    mk(id, SpecExprKind::Get { object: Box::new(callee), token: ts1[0] }),
                    lo,
                );
            }
        }
    }
}

proof fn lemma_ids_close_call(
    ts: Seq<SpecToken>,
    id: nat,
    callee: SpecExpr,
    arguments: Seq<SpecExpr>,
    lo: nat,
)
    requires
        lo <= id,
        ids_between(expr_ids(callee) + exprs_ids(arguments), lo, id),
    ensures
        expr_ids_from(close_call(ts, id, callee, arguments), lo, id),
{
    grammar::unfold_close_call(ts, id, callee, arguments);
    lemma_ids_push(expr_ids(callee) + exprs_ids(arguments), lo, id);
}

proof fn lemma_ids_finish_call(ts: Seq<SpecToken>, id: nat, callee: SpecExpr, lo: nat)
    requires
        lo <= id,
        ids_between(expr_ids(callee), lo, id),
    ensures
        expr_ids_from(finish_call(ts, id, callee), lo, id),
    decreases ts.len(), 20nat,
{
    grammar::unfold_finish_call(ts, id, callee);
    if !check(ts, SpecTokenType::RightParen) {
        lemma_ids_expression(ts, id);
        let q = expression(ts, id);
        if let Ok(a) = q.result {
            lemma_ids_of_list_push(seq![], a);
            assert(seq![a] =~= Seq::<SpecExpr>::empty().push(a));
            assert(exprs_ids(Seq::<SpecExpr>::empty()) =~= Seq::<nat>::empty());
            assert(exprs_ids(seq![a]) =~= expr_ids(a));
            lemma_ids_concat(expr_ids(callee), expr_ids(a), lo, id, id, q.next_id);
            lemma_ids_arguments_rest(within(ts, q.rest), q.next_id, callee, seq![a], lo);
        }
    } else {
        assert(exprs_ids(Seq::<SpecExpr>::empty()) =~= Seq::<nat>::empty());
        assert(expr_ids(callee) + exprs_ids(Seq::<SpecExpr>::empty()) =~= expr_ids(callee));
        lemma_ids_close_call(ts, id, callee, seq![], lo);
    }
}

proof fn lemma_ids_arguments_rest(
    ts: Seq<SpecToken>,
    id: nat,
    callee: SpecExpr,
    arguments: Seq<SpecExpr>,
    lo: nat,
)
    requires
        lo <= id,
        ids_between(expr_ids(callee) + exprs_ids(arguments), lo, id),
    ensures
        expr_ids_from(arguments_rest(ts, id, callee, arguments), lo, id),
    decreases ts.len(), 19nat,
{
    grammar::unfold_arguments_rest(ts, id, callee, arguments);
    if let Some(t) = peek(ts) {
        if t.kind is Comma {
            let ts1 = ts.drop_first();
            lemma_ids_expression(ts1, id);
            let q = expression(ts1, id);
            if let Ok(a) = q.result {
                lemma_ids_of_list_push(arguments, a);
                let before = expr_ids(callee) + exprs_ids(arguments);
                assert(expr_ids(callee) + exprs_ids(arguments.push(a)) =~= before + expr_ids(a));
                lemma_ids_concat(before, expr_ids(a), lo, id, id, q.next_id);
                lemma_ids_arguments_rest(
                    within(ts1, q.rest),
                    q.next_id,
                    callee,
                    arguments.push(a),
                    lo,
                );
            }
        } else {
            lemma_ids_close_call(ts, id, callee, arguments, lo);
        }
    }
}

proof fn lemma_ids_primary(ts: Seq<SpecToken>, id: nat)
    ensures
        expr_ids_from(primary(ts, id), id, id),
    decreases ts.len(), 1nat,
{
    grammar::unfold_primary(ts, id);
    if peek(ts) is Some {
        let ts1 = ts.drop_first();
        if ts[0].kind is LeftParen {
            lemma_ids_expression(ts1, id);
            let q = expression(ts1, id);
            if let Ok(e) = q.result {
                lemma_ids_push(expr_ids(e), id, q.next_id);
            }
        }
    }
}

pub open spec fn option_stmt_ids(s: Option<SpecStmt>) -> Seq<nat> {
    match s {
        Some(x) => stmt_ids(x),
        None => seq![],
    }
}

proof fn lemma_ids_empty(lo: nat, hi: nat)
    ensures
        ids_between(seq![], lo, hi),
        stmts_ids(seq![]) == Seq::<nat>::empty(),
        functions_ids(seq![]) == Seq::<nat>::empty(),
{
}

/// The identifiers of a block of two statements.
proof fn lemma_stmts_ids_two(a: SpecStmt, b: SpecStmt)
    ensures
        stmts_ids(seq![a, b]) == stmt_ids(a) + stmt_ids(b),
{
    assert(seq![a, b].drop_last() =~= seq![a]);
    assert(seq![a].drop_last() =~= Seq::<SpecStmt>::empty());
    assert(stmts_ids(Seq::<SpecStmt>::empty()) =~= Seq::<nat>::empty());
    assert(stmts_ids(seq![a]) =~= stmt_ids(a));
}

proof fn lemma_ids_program(ts: Seq<SpecToken>, id: nat)
    ensures
        stmts_ids_from(program(ts, id), id, id),
{
    grammar::unfold_program(ts, id);
    lemma_ids_empty(id, id);
    lemma_ids_program_rest(ts, id, seq![], id);
}

proof fn lemma_ids_program_rest(ts: Seq<SpecToken>, id: nat, stmts: Seq<SpecStmt>, lo: nat)
    requires
        lo <= id,
        ids_between(stmts_ids(stmts), lo, id),
    ensures
        stmts_ids_from(program_rest(ts, id, stmts), lo, id),
    decreases ts.len(), 50nat,
{
    grammar::unfold_program_rest(ts, id, stmts);
    if !at_end(ts) {
        lemma_ids_declaration(ts, id);
        let q = declaration(ts, id);
        if let Ok(s) = q.result {
            lemma_stmts_ids_push(stmts, s);
            lemma_ids_concat(stmts_ids(stmts), stmt_ids(s), lo, id, id, q.next_id);
            lemma_ids_program_rest(fewer(ts, q.rest), q.next_id, stmts.push(s), lo);
        }
    }
}

proof fn lemma_ids_declaration(ts: Seq<SpecToken>, id: nat)
    ensures
        stmt_ids_from(declaration(ts, id), id, id),
    decreases ts.len(), 39nat,
{
    grammar::unfold_declaration(ts, id);
    if let Some(t) = peek(ts) {
        if t.kind is Fun {
            lemma_ids_function(ts.drop_first(), id, FunctionKind::Function);
        } else if t.kind is Var {
            lemma_ids_var_declaration(ts.drop_first(), id);
        } else if t.kind is Class {
            lemma_ids_class_declaration(ts.drop_first(), id);
        } else {
            lemma_ids_statement(ts, id);
        }
    }
}

proof fn lemma_ids_var_declaration(ts: Seq<SpecToken>, id: nat)
    ensures
        stmt_ids_from(var_declaration(ts, id), id, id),
    decreases ts.len(), 33nat,
{
    grammar::unfold_var_declaration(ts, id);
    if ts.len() > 0 {
        let ts1 = ts.drop_first();
        if ts1.len() > 0 {
            lemma_ids_expression(ts1.drop_first(), id);
        }
        lemma_ids_empty(id, id);
    }
}

proof fn lemma_ids_class_declaration(ts: Seq<SpecToken>, id: nat)
    ensures
        stmt_ids_from(class_declaration(ts, id), id, id),
    decreases ts.len(), 48nat,
{
    grammar::unfold_class_declaration(ts, id);
    if ts.len() > 0 {
        let token = ts[0];
        if let SpecTokenType::Identifier(name) = token.kind {
            let c = consume(ts.drop_first(), SpecTokenType::LeftBrace, "Expect '{' before class body"@);
            lemma_ids_empty(id, id);
            lemma_ids_methods_rest(within(ts, c.rest), id, token, name, seq![], id);
        }
    }
}

proof fn lemma_ids_methods_rest(
    ts: Seq<SpecToken>,
    id: nat,
    token: SpecToken,
    name: Seq<char>,
    methods: Seq<SpecFunction>,
    lo: nat,
)
    requires
        lo <= id,
        ids_between(functions_ids(methods), lo, id),
    ensures
        stmt_ids_from(methods_rest(ts, id, token, name, methods), lo, id),
    decreases ts.len(), 47nat,
{
    grammar::unfold_methods_rest(ts, id, token, name, methods);
    if let Some(t) = peek(ts) {
        if !(t.kind is RightBrace) {
            lemma_ids_function(ts, id, FunctionKind::Method);
            let f = function(ts, id, FunctionKind::Method);
            if let Ok(m) = f.result {
                lemma_functions_ids_push(methods, m);
                lemma_ids_concat(functions_ids(methods), function_ids(m), lo, id, id, f.next_id);
                lemma_ids_methods_rest(fewer(ts, f.rest), f.next_id, token, name, methods.push(m), lo);
            }
        }
    }
}

proof fn lemma_ids_function(ts: Seq<SpecToken>, id: nat, kind: FunctionKind)
    ensures
        function_ids_from(function(ts, id, kind), id, id),
    decreases ts.len(), 45nat,
{
    grammar::unfold_function(ts, id, kind);
    if ts.len() > 0 && ts[0].kind is Identifier {
        let name = ts[0].kind->Identifier_0;
        let kname = crate::ast::spec_function_kind_name(kind);
        let ts1 = ts.drop_first();
        let c = consume(ts1, SpecTokenType::LeftParen, "Expect '(' after "@ + kname + " name."@);
        let ps: (Result<Seq<Seq<char>>, crate::errors::SpecError>, Seq<SpecToken>) = if !check(
            c.rest,
            SpecTokenType::RightParen,
        ) {
            grammar::parameters_rest(c.rest, seq![], name)
        } else {
            (Ok(seq![]), c.rest)
        };
        let c2 = consume(ps.1, SpecTokenType::RightParen, "Expect ')' after parameter list."@);
        let c3 = consume(c2.rest, SpecTokenType::LeftBrace, "Expected '{' before "@ + kname + " body"@);
        lemma_ids_block(within(ts, c3.rest), id);
    }
}

proof fn lemma_ids_block(ts: Seq<SpecToken>, id: nat)
    ensures
        stmts_ids_from(block(ts, id), id, id),
    decreases ts.len(), 42nat,
{
    grammar::unfold_block(ts, id);
    lemma_ids_empty(id, id);
    lemma_ids_block_rest(ts, id, seq![], id);
}

proof fn lemma_ids_block_rest(ts: Seq<SpecToken>, id: nat, stmts: Seq<SpecStmt>, lo: nat)
    requires
        lo <= id,
        ids_between(stmts_ids(stmts), lo, id),
    ensures
        stmts_ids_from(block_rest(ts, id, stmts), lo, id),
    decreases ts.len(), 41nat,
{
    grammar::unfold_block_rest(ts, id, stmts);
    if !check(ts, SpecTokenType::RightBrace) && !at_end(ts) {
        lemma_ids_declaration(ts, id);
        let q = declaration(ts, id);
        if let Ok(s) = q.result {
            lemma_stmts_ids_push(stmts, s);
            lemma_ids_concat(stmts_ids(stmts), stmt_ids(s), lo, id, id, q.next_id);
            lemma_ids_block_rest(fewer(ts, q.rest), q.next_id, stmts.push(s), lo);
        }
    }
}

proof fn lemma_ids_statement(ts: Seq<SpecToken>, id: nat)
    ensures
        stmt_ids_from(statement(ts, id), id, id),
    decreases ts.len(), 37nat,
{
    grammar::unfold_statement(ts, id);
    match peek(ts) {
        Some(t) => match t.kind {
            SpecTokenType::Print => lemma_ids_print_statement(ts.drop_first(), id),
            SpecTokenType::LeftBrace => lemma_ids_block(ts.drop_first(), id),
            SpecTokenType::If => lemma_ids_if_statement(ts.drop_first(), id),
            SpecTokenType::While => lemma_ids_while_statement(ts.drop_first(), id),
            SpecTokenType::For => lemma_ids_for_statement(ts.drop_first(), id),
            SpecTokenType::Return => lemma_ids_return_statement(ts.drop_first(), id, t),
            _ => lemma_ids_expression_statement(ts, id),
        },
        None => lemma_ids_expression_statement(ts, id),
    }
}

proof fn lemma_ids_for_statement(ts: Seq<SpecToken>, id: nat)
    ensures
        stmt_ids_from(for_statement(ts, id), id, id),
    decreases ts.len(), 38nat,
{
    grammar::unfold_for_statement(ts, id);
    let c = consume(ts, SpecTokenType::LeftParen, "Expect '(' after 'for'"@);
    if c.result is Ok {
        let ts1 = within(ts, c.rest);
        if let Some(t) = peek(ts1) {
            let init: Parsed<Option<SpecStmt>> = if t.kind is Semicolon {
                grammar::parsed(Ok(None), ts1.drop_first(), id)
            } else if t.kind is Var {
                lemma_ids_var_declaration(ts1.drop_first(), id);
                let q = var_declaration(ts1.drop_first(), id);
                match q.result {
                    Err(e) => grammar::failed(q),
                    Ok(s) => grammar::parsed(Ok(Some(s)), q.rest, q.next_id),
                }
            } else {
                lemma_ids_expression_statement(ts1, id);
                let q = expression_statement(ts1, id);
                match q.result {
                    Err(e) => grammar::failed(q),
                    Ok(s) => grammar::parsed(Ok(Some(s)), q.rest, q.next_id),
                }
            };
            if let Ok(initializer) = init.result {
                lemma_ids_empty(id, id);
                lemma_ids_for_condition(within(ts1, init.rest), init.next_id, initializer, id);
            }
        }
    }
}

proof fn lemma_ids_for_condition(
    ts: Seq<SpecToken>,
    id: nat,
    initializer: Option<SpecStmt>,
    lo: nat,
)
    requires
        lo <= id,
        ids_between(option_stmt_ids(initializer), lo, id),
    ensures
        stmt_ids_from(for_condition(ts, id, initializer), lo, id),
    decreases ts.len(), 36nat,
{
    grammar::unfold_for_condition(ts, id, initializer);
    if let Some(t) = peek(ts) {
        let cond: Parsed<SpecExpr> = if t.kind is Semicolon {
            grammar::parsed(Ok(mk(id, SpecExprKind::Literal(SpecLiteral::Bool(true)))), ts, id + 1)
        } else {
            lemma_ids_expression(ts, id);
            expression(ts, id)
        };
        if let Ok(condition) = cond.result {
            assert(ids_between(expr_ids(condition), id, cond.next_id));
            let c = consume(within(ts, cond.rest), SpecTokenType::Semicolon, "Expect ';' after loop condition"@);
            if c.result is Ok {
                lemma_ids_for_increment(within(ts, c.rest), cond.next_id, initializer, condition, lo, id);
            }
        }
    }
}

proof fn lemma_ids_for_increment(
    ts: Seq<SpecToken>,
    id: nat,
    initializer: Option<SpecStmt>,
    condition: SpecExpr,
    lo: nat,
    mid: nat,
)
    requires
        lo <= mid <= id,
        ids_between(option_stmt_ids(initializer), lo, mid),
        ids_between(expr_ids(condition), mid, id),
    ensures
        stmt_ids_from(for_increment(ts, id, initializer, condition), lo, id),
    decreases ts.len(), 35nat,
{
    grammar::unfold_for_increment(ts, id, initializer, condition);
    if let Some(t) = peek(ts) {
        let incr: Parsed<Option<SpecExpr>> = if t.kind is RightParen {
            grammar::parsed(Ok(None), ts, id)
        } else {
            lemma_ids_expression(ts, id);
            let q = expression(ts, id);
            match q.result {
                Err(e) => grammar::failed(q),
                Ok(e) => grammar::parsed(Ok(Some(e)), q.rest, q.next_id),
            }
        };
        if let Ok(increment) = incr.result {
            let c = consume(within(ts, incr.rest), SpecTokenType::RightParen, "Expect ')' after for clauses"@);
            if c.result is Ok {
                lemma_ids_statement(within(ts, c.rest), incr.next_id);
                let b = statement(within(ts, c.rest), incr.next_id);
                if let Ok(body) = b.result {
                    lemma_ids_for_loop(initializer, condition, increment, body, lo, mid, id, incr.next_id, b.next_id);
                }
            }
        }
    }
}

/// The identifiers of a `for` loop's parts, read in turn from `lo`, make
/// up those of the loop it stands for.
proof fn lemma_ids_for_loop(
    initializer: Option<SpecStmt>,
    condition: SpecExpr,
    increment: Option<SpecExpr>,
    body: SpecStmt,
    lo: nat,
    a: nat,
    b: nat,
    c: nat,
    d: nat,
)
    requires
        lo <= a <= b <= c <= d,
        ids_between(option_stmt_ids(initializer), lo, a),
        ids_between(expr_ids(condition), a, b),
        ids_between(match increment { Some(x) => expr_ids(x), None => seq![] }, b, c),
        ids_between(stmt_ids(body), c, d),
    ensures
        ids_between(stmt_ids(for_loop(initializer, condition, increment, body)), lo, d),
{
    let body1 = match increment {
        Some(inc) => SpecStmt::Block(seq![body, SpecStmt::Expression(inc)]),
        None => body,
    };
    if let Some(inc) = increment {
        lemma_stmts_ids_two(body, SpecStmt::Expression(inc));
        lemma_ids_concat(stmt_ids(body), expr_ids(inc), c, d, b, c);
        assert(ids_between(stmt_ids(body1), b, d));
    } else {
        lemma_ids_weaken(stmt_ids(body), c, d, b, d);
    }
    let looped = SpecStmt::While { condition, body: Box::new(body1) };
    lemma_ids_concat(expr_ids(condition), stmt_ids(body1), a, b, b, d);
    assert(ids_between(stmt_ids(looped), a, d));
    if let Some(init) = initializer {
        lemma_stmts_ids_two(init, looped);
        lemma_ids_concat(stmt_ids(init), stmt_ids(looped), lo, a, a, d);
    } else {
        lemma_ids_weaken(stmt_ids(looped), a, d, lo, d);
    }
}

proof fn lemma_ids_print_statement(ts: Seq<SpecToken>, id: nat)
    ensures
        stmt_ids_from(print_statement(ts, id), id, id),
    decreases ts.len(), 31nat,
{
    grammar::unfold_print_statement(ts, id);
    lemma_ids_expression(ts, id);
}

proof fn lemma_ids_return_statement(ts: Seq<SpecToken>, id: nat, keyword: SpecToken)
    ensures
        stmt_ids_from(return_statement(ts, id, keyword), id, id),
    decreases ts.len(), 30nat,
{
    grammar::unfold_return_statement(ts, id, keyword);
    lemma_ids_expression(ts, id);
    lemma_ids_empty(id, id);
}

proof fn lemma_ids_expression_statement(ts: Seq<SpecToken>, id: nat)
    ensures
        stmt_ids_from(expression_statement(ts, id), id, id),
    decreases ts.len(), 32nat,
{
    grammar::unfold_expression_statement(ts, id);
    lemma_ids_expression(ts, id);
}

proof fn lemma_ids_if_statement(ts: Seq<SpecToken>, id: nat)
    ensures
        stmt_ids_from(if_statement(ts, id), id, id),
    decreases ts.len(), 38nat,
{
    grammar::unfold_if_statement(ts, id);
    let c = consume(ts, SpecTokenType::LeftParen, "Expect '(' after 'if'"@);
    if c.result is Ok {
        let ts1 = within(ts, c.rest);
        lemma_ids_expression(ts1, id);
        let q = expression(ts1, id);
        if let Ok(condition) = q.result {
            let c2 = consume(within(ts1, q.rest), SpecTokenType::RightParen, "Expect ')' after 'if' condition"@);
            if c2.result is Ok {
                let ts2 = within(ts1, c2.rest);
                lemma_ids_statement(ts2, q.next_id);
                let th = statement(ts2, q.next_id);
                if let Ok(then_branch) = th.result {
                    lemma_ids_concat(expr_ids(condition), stmt_ids(then_branch), id, q.next_id, q.next_id, th.next_id);
                    let ts3 = within(ts2, th.rest);
                    if let Some(t) = peek(ts3) {
                        if t.kind is Else {
                            lemma_ids_statement(ts3.drop_first(), th.next_id);
                            let el = statement(ts3.drop_first(), th.next_id);
                            if let Ok(else_branch) = el.result {
                                lemma_ids_concat(
                                    expr_ids(condition) + stmt_ids(then_branch),
                                    stmt_ids(else_branch),
                                    id,
                                    th.next_id,
                                    th.next_id,
                                    el.next_id,
                                );
                            }
                        } else {
                            lemma_ids_empty(th.next_id, th.next_id);
                            lemma_ids_concat(
                                expr_ids(condition) + stmt_ids(then_branch),
                                seq![],
                                id,
                                th.next_id,
                                th.next_id,
                                th.next_id,
                            );
                        }
                    }
                }
            }
        }
    }
}

proof fn lemma_ids_while_statement(ts: Seq<SpecToken>, id: nat)
    ensures
        stmt_ids_from(while_statement(ts, id), id, id),
    decreases ts.len(), 38nat,
{
    grammar::unfold_while_statement(ts, id);
    let c = consume(ts, SpecTokenType::LeftParen, "Expect '(' after while"@);
    if c.result is Ok {
        let ts1 = within(ts, c.rest);
        lemma_ids_expression(ts1, id);
        let q = expression(ts1, id);
        if let Ok(condition) = q.result {
            let c2 = consume(within(ts1, q.rest), SpecTokenType::RightParen, "Expect ')' after condition"@);
            if c2.result is Ok {
                lemma_ids_statement(within(ts1, c2.rest), q.next_id);
                let b = statement(within(ts1, c2.rest), q.next_id);
                if let Ok(body) = b.result {
                    lemma_ids_concat(expr_ids(condition), stmt_ids(body), id, q.next_id, q.next_id, b.next_id);
                }
            }
        }
    }
}

/// Every expression that one parse of a program makes has an identifier of
/// its own: the identifiers of a parsed program are all different and lie
/// between the counter the parse started from and the one it left.
pub proof fn law_parsed_ids_distinct(ts: Seq<SpecToken>, id: nat)
    ensures
        program(ts, id).next_id >= id,
        program(ts, id).result matches Ok(stmts) ==> ids_between(
            stmts_ids(stmts),
            id,
            program(ts, id).next_id,
        ),
{
    lemma_ids_program(ts, id);
}

/// A program that parses without error was read to the end of its tokens.
pub proof fn law_program_reads_to_the_end(ts: Seq<SpecToken>, id: nat)
    ensures
        program(ts, id).result is Ok ==> at_end(program(ts, id).rest),
{
    grammar::unfold_program(ts, id);
    lemma_program_rest_reads_to_the_end(ts, id, seq![]);
}

proof fn lemma_program_rest_reads_to_the_end(ts: Seq<SpecToken>, id: nat, stmts: Seq<SpecStmt>)
    ensures
        program_rest(ts, id, stmts).result is Ok ==> at_end(program_rest(ts, id, stmts).rest),
    decreases ts.len(),
{
    grammar::unfold_program_rest(ts, id, stmts);
    if !at_end(ts) {
        let q = declaration(ts, id);
        if let Ok(s) = q.result {
            lemma_program_rest_reads_to_the_end(fewer(ts, q.rest), q.next_id, stmts.push(s));
        }
    }
}

/// The token a binary operator is written with.
pub open spec fn binary_operator_token(op: BinaryOpType) -> SpecTokenType {
    match op {
        BinaryOpType::Add => SpecTokenType::Plus,
        BinaryOpType::Subtract => SpecTokenType::Minus,
        BinaryOpType::Multiply => SpecTokenType::Star,
        BinaryOpType::Divide => SpecTokenType::Slash,
        BinaryOpType::Equal => SpecTokenType::EqualEqual,
        BinaryOpType::NotEqual => SpecTokenType::BangEqual,
        BinaryOpType::LessThan => SpecTokenType::Less,
        BinaryOpType::LessThanEqualTo => SpecTokenType::LessEqual,
        BinaryOpType::GreaterThan => SpecTokenType::Greater,
        BinaryOpType::GreaterThanEqualTo => SpecTokenType::GreaterEqual,
    }
}

/// How tightly a binary operator binds: equality 0, comparison 1, terms 2,
/// factors 3.
pub open spec fn binary_operator_level(op: BinaryOpType) -> nat {
    match op {
        BinaryOpType::Equal | BinaryOpType::NotEqual => 0,
        BinaryOpType::LessThan | BinaryOpType::LessThanEqualTo | BinaryOpType::GreaterThan
        | BinaryOpType::GreaterThanEqualTo => 1,
        BinaryOpType::Add | BinaryOpType::Subtract => 2,
        BinaryOpType::Multiply | BinaryOpType::Divide => 3,
    }
}

/// The token a prefix operator is written with.
pub open spec fn unary_operator_token(op: UnaryOpType) -> SpecTokenType {
    match op {
        UnaryOpType::Negative => SpecTokenType::Minus,
        UnaryOpType::Not => SpecTokenType::Bang,
    }
}

/// The operator read at a precedence level is the one its token is written
/// as, and every token of an operator of that level is read as that
/// operator: `>` as greater-than, `-` as subtraction, and so on.
pub proof fn law_binary_operator_is_its_token(ts: Seq<SpecToken>, level: nat, op: BinaryOpType)
    requires
        level <= 3,
    ensures
        next_op(ts, level) == Some(op) ==> (peek(ts) matches Some(t) && t.kind
            == binary_operator_token(op) && binary_operator_level(op) == level),
        (peek(ts) matches Some(t) && t.kind == binary_operator_token(op) && binary_operator_level(
            op,
        ) == level) ==> next_op(ts, level) == Some(op),
{
}

/// The prefix operator read is the one its token is written as, and `-` and
/// `!` are always read as negation and not.
pub proof fn law_unary_operator_is_its_token(ts: Seq<SpecToken>, op: UnaryOpType)
    ensures
        unary_op(ts) == Some(op) <==> (peek(ts) matches Some(t) && t.kind == unary_operator_token(
            op,
        )),
{
}

// ---------------------------------------------------------------------------
// Operators: every operator node that the parser builds is the operator its
// token is written as
// ---------------------------------------------------------------------------

/// The token a logical operator is written with.
pub open spec fn logical_operator_token(op: LogicalOpType) -> SpecTokenType {
    match op {
        LogicalOpType::And => SpecTokenType::And,
        LogicalOpType::Or => SpecTokenType::Or,
    }
}

/// Every binary, logical and prefix operator in `e`, at any depth, is the
/// operator that its token is written as.
pub open spec fn operators_agree(e: SpecExpr) -> bool
    decreases e,
{
    match e.kind {
        SpecExprKind::Binary { left, op, token, right } => token.kind == binary_operator_token(op)
            && operators_agree(*left) && operators_agree(*right),
        SpecExprKind::Logical { left, op, token, right } => token.kind == logical_operator_token(
            op,
        ) && operators_agree(*left) && operators_agree(*right),
        SpecExprKind::Unary { op, token, right } => token.kind == unary_operator_token(op)
            && operators_agree(*right),
        SpecExprKind::Assign { name, value } => operators_agree(*value),
        SpecExprKind::Call { callee, paren, arguments } => operators_agree(*callee)
            && all_operators_agree(arguments),
        SpecExprKind::Grouping(inner) => operators_agree(*inner),
        SpecExprKind::Get { object, token } => operators_agree(*object),
        SpecExprKind::SetProperty { object, token, value } => operators_agree(*object)
            && operators_agree(*value),
        _ => true,
    }
}

/// `operators_agree` of each expression in a list.
pub open spec fn all_operators_agree(es: Seq<SpecExpr>) -> bool
    decreases es,
{
    if es.len() == 0 {
        true
    } else {
        operators_agree(es[0]) && all_operators_agree(es.subrange(1, es.len() as int))
    }
}

/// A parse step that succeeded read an expression whose operators agree
/// with their tokens.
spec fn reads_agreeing(p: Parsed<SpecExpr>) -> bool {
    p.result matches Ok(e) ==> operators_agree(e)
}

proof fn lemma_all_agree_push(es: Seq<SpecExpr>, a: SpecExpr)
    requires
        all_operators_agree(es),
        operators_agree(a),
    ensures
        all_operators_agree(es.push(a)),
    decreases es.len(),
{
    let pushed = es.push(a);
    if es.len() == 0 {
        assert(pushed[0] == a);
        assert(pushed.subrange(1, 1) =~= Seq::<SpecExpr>::empty());
        assert(all_operators_agree(pushed.subrange(1, 1)));
    } else {
        let rest = es.subrange(1, es.len() as int);
        lemma_all_agree_push(rest, a);
        assert(pushed[0] == es[0]);
        assert(pushed.subrange(1, pushed.len() as int) =~= rest.push(a));
        assert(all_operators_agree(pushed.subrange(1, pushed.len() as int)));
    }
    assert(all_operators_agree(pushed));
}

proof fn lemma_ops_expression(ts: Seq<SpecToken>, id: nat)
    ensures
        reads_agreeing(expression(ts, id)),
    decreases ts.len(), 18nat,
{
    grammar::unfold_expression(ts, id);
    lemma_ops_assignment(ts, id);
}

proof fn lemma_ops_assignment(ts: Seq<SpecToken>, id: nat)
    ensures
        reads_agreeing(assignment(ts, id)),
    decreases ts.len(), 17nat,
{
    grammar::unfold_assignment(ts, id);
    lemma_ops_or(ts, id);
    let p = or(ts, id);
    let ts1 = within(ts, p.rest);
    if let Ok(target) = p.result {
        if check(ts1, SpecTokenType::Equal) {
            lemma_ops_assignment(ts1.drop_first(), p.next_id);
        }
    }
}

proof fn lemma_ops_or(ts: Seq<SpecToken>, id: nat)
    ensures
        reads_agreeing(or(ts, id)),
    decreases ts.len(), 16nat,
{
    grammar::unfold_or(ts, id);
    lemma_ops_and(ts, id);
    let p = and(ts, id);
    if let Ok(left) = p.result {
        lemma_ops_or_rest(within(ts, p.rest), p.next_id, left);
    }
}

proof fn lemma_ops_or_rest(ts: Seq<SpecToken>, id: nat, left: SpecExpr)
    requires
        operators_agree(left),
    ensures
        reads_agreeing(or_rest(ts, id, left)),
    decreases ts.len(), 15nat,
{
    grammar::unfold_or_rest(ts, id, left);
    if check(ts, SpecTokenType::Or) {
        let ts1 = ts.drop_first();
        lemma_ops_equality(ts1, id);
        let q = equality(ts1, id);
        if let Ok(right) = q.result {
            let node = mk(
                q.next_id,
                SpecExprKind::Logical {
                    left: Box::new(left),
                    op: LogicalOpType::Or,
                    token: ts[0],
                    right: Box::new(right),
                },
            );
            lemma_ops_or_rest(within(ts1, q.rest), q.next_id + 1, node);
        }
    }
}

proof fn lemma_ops_and(ts: Seq<SpecToken>, id: nat)
    ensures
        reads_agreeing(and(ts, id)),
    decreases ts.len(), 14nat,
{
    grammar::unfold_and(ts, id);
    lemma_ops_equality(ts, id);
    let p = equality(ts, id);
    if let Ok(left) = p.result {
        lemma_ops_and_rest(within(ts, p.rest), p.next_id, left);
    }
}

proof fn lemma_ops_and_rest(ts: Seq<SpecToken>, id: nat, left: SpecExpr)
    requires
        operators_agree(left),
    ensures
        reads_agreeing(and_rest(ts, id, left)),
    decreases ts.len(), 13nat,
{
    grammar::unfold_and_rest(ts, id, left);
    if check(ts, SpecTokenType::And) {
        let ts1 = ts.drop_first();
        lemma_ops_equality(ts1, id);
        let q = equality(ts1, id);
        if let Ok(right) = q.result {
            let node = mk(
                q.next_id,
                SpecExprKind::Logical {
                    left: Box::new(left),
                    op: LogicalOpType::And,
                    token: ts[0],
                    right: Box::new(right),
                },
            );
            lemma_ops_and_rest(within(ts1, q.rest), q.next_id + 1, node);
        }
    }
}

proof fn lemma_ops_equality(ts: Seq<SpecToken>, id: nat)
    ensures
        reads_agreeing(equality(ts, id)),
    decreases ts.len(), 12nat,
{
    grammar::unfold_equality(ts, id);
    lemma_ops_comparison(ts, id);
    let p = comparison(ts, id);
    if let Ok(left) = p.result {
        lemma_ops_equality_rest(within(ts, p.rest), p.next_id, left);
    }
}

proof fn lemma_ops_equality_rest(ts: Seq<SpecToken>, id: nat, left: SpecExpr)
    requires
        operators_agree(left),
    ensures
        reads_agreeing(equality_rest(ts, id, left)),
    decreases ts.len(), 11nat,
{
    grammar::unfold_equality_rest(ts, id, left);
    if let Some(op) = next_op(ts, 0) {
        law_binary_operator_is_its_token(ts, 0, op);
        let ts1 = ts.drop_first();
        lemma_ops_comparison(ts1, id);
        let q = comparison(ts1, id);
        if let Ok(right) = q.result {
            lemma_ops_equality_rest(
                within(ts1, q.rest),
                q.next_id + 1,
                binary(left, op, ts[0], right, q.next_id),
            );
        }
    }
}

proof fn lemma_ops_comparison(ts: Seq<SpecToken>, id: nat)
    ensures
        reads_agreeing(comparison(ts, id)),
    decreases ts.len(), 10nat,
{
    grammar::unfold_comparison(ts, id);
    lemma_ops_term(ts, id);
    let p = term(ts, id);
    if let Ok(left) = p.result {
        lemma_ops_comparison_rest(within(ts, p.rest), p.next_id, left);
    }
}

proof fn lemma_ops_comparison_rest(ts: Seq<SpecToken>, id: nat, left: SpecExpr)
    requires
        operators_agree(left),
    ensures
        reads_agreeing(comparison_rest(ts, id, left)),
    decreases ts.len(), 9nat,
{
    grammar::unfold_comparison_rest(ts, id, left);
    if let Some(op) = next_op(ts, 1) {
        law_binary_operator_is_its_token(ts, 1, op);
        let ts1 = ts.drop_first();
        lemma_ops_term(ts1, id);
        let q = term(ts1, id);
        if let Ok(right) = q.result {
            lemma_ops_comparison_rest(
                within(ts1, q.rest),
                q.next_id + 1,
                binary(left, op, ts[0], right, q.next_id),
            );
        }
    }
}

proof fn lemma_ops_term(ts: Seq<SpecToken>, id: nat)
    ensures
        reads_agreeing(term(ts, id)),
    decreases ts.len(), 8nat,
{
    grammar::unfold_term(ts, id);
    lemma_ops_factor(ts, id);
    let p = factor(ts, id);
    if let Ok(left) = p.result {
        lemma_ops_term_rest(within(ts, p.rest), p.next_id, left);
    }
}

proof fn lemma_ops_term_rest(ts: Seq<SpecToken>, id: nat, left: SpecExpr)
    requires
        operators_agree(left),
    ensures
        reads_agreeing(term_rest(ts, id, left)),
    decreases ts.len(), 7nat,
{
    grammar::unfold_term_rest(ts, id, left);
    if let Some(op) = next_op(ts, 2) {
        law_binary_operator_is_its_token(ts, 2, op);
        let ts1 = ts.drop_first();
        lemma_ops_factor(ts1, id);
        let q = factor(ts1, id);
        if let Ok(right) = q.result {
            lemma_ops_term_rest(
                within(ts1, q.rest),
                q.next_id + 1,
                binary(left, op, ts[0], right, q.next_id),
            );
        }
    }
}

proof fn lemma_ops_factor(ts: Seq<SpecToken>, id: nat)
    ensures
        reads_agreeing(factor(ts, id)),
    decreases ts.len(), 6nat,
{
    grammar::unfold_factor(ts, id);
    lemma_ops_unary(ts, id);
    let p = unary(ts, id);
    if let Ok(left) = p.result {
        lemma_ops_factor_rest(within(ts, p.rest), p.next_id, left);
    }
}

proof fn lemma_ops_factor_rest(ts: Seq<SpecToken>, id: nat, left: SpecExpr)
    requires
        operators_agree(left),
    ensures
        reads_agreeing(factor_rest(ts, id, left)),
    decreases ts.len(), 5nat,
{
    grammar::unfold_factor_rest(ts, id, left);
    if let Some(op) = next_op(ts, 3) {
        law_binary_operator_is_its_token(ts, 3, op);
        let ts1 = ts.drop_first();
        lemma_ops_unary(ts1, id);
        let q = unary(ts1, id);
        if let Ok(right) = q.result {
            lemma_ops_factor_rest(
                within(ts1, q.rest),
                q.next_id + 1,
                binary(left, op, ts[0], right, q.next_id),
            );
        }
    }
}

proof fn lemma_ops_unary(ts: Seq<SpecToken>, id: nat)
    ensures
        reads_agreeing(unary(ts, id)),
    decreases ts.len(), 4nat,
{
    grammar::unfold_unary(ts, id);
    if let Some(op) = unary_op(ts) {
        law_unary_operator_is_its_token(ts, op);
        lemma_ops_unary(ts.drop_first(), id);
    } else {
        lemma_ops_call(ts, id);
    }
}

proof fn lemma_ops_call(ts: Seq<SpecToken>, id: nat)
    ensures
        reads_agreeing(call(ts, id)),
    decreases ts.len(), 3nat,
{
    grammar::unfold_call(ts, id);
    lemma_ops_primary(ts, id);
    let p = primary(ts, id);
    if let Ok(e) = p.result {
        lemma_ops_call_rest(within(ts, p.rest), p.next_id, e);
    }
}

proof fn lemma_ops_call_rest(ts: Seq<SpecToken>, id: nat, callee: SpecExpr)
    requires
        operators_agree(callee),
    ensures
        reads_agreeing(call_rest(ts, id, callee)),
    decreases ts.len(), 2nat,
{
    grammar::unfold_call_rest(ts, id, callee);
    if let Some(t) = peek(ts) {
        if t.kind is LeftParen {
            let ts1 = ts.drop_first();
            lemma_ops_finish_call(ts1, id, callee);
            let q = finish_call(ts1, id, callee);
            if let Ok(e) = q.result {
                lemma_ops_call_rest(within(ts1, q.rest), q.next_id, e);
            }
        } else if t.kind is Dot {
            let ts1 = ts.drop_first();
            if ts1.len() > 0 && ts1[0].kind is Identifier {
                lemma_ops_call_rest(
                    ts1.drop_first(),
                    id + 1,
                    mk(id, SpecExprKind::Get { object: Box::new(callee), token: ts1[0] }),
                );
            }
        }
    }
}

proof fn lemma_ops_close_call(ts: Seq<SpecToken>, id: nat, callee: SpecExpr, arguments: Seq<SpecExpr>)
    requires
        operators_agree(callee),
        all_operators_agree(arguments),
    ensures
        reads_agreeing(close_call(ts, id, callee, arguments)),
{
    grammar::unfold_close_call(ts, id, callee, arguments);
}

proof fn lemma_ops_finish_call(ts: Seq<SpecToken>, id: nat, callee: SpecExpr)
    requires
        operators_agree(callee),
    ensures
        reads_agreeing(finish_call(ts, id, callee)),
    decreases ts.len(), 20nat,
{
    grammar::unfold_finish_call(ts, id, callee);
    if !check(ts, SpecTokenType::RightParen) {
        lemma_ops_expression(ts, id);
        let q = expression(ts, id);
        if let Ok(a) = q.result {
            lemma_all_agree_push(seq![], a);
            assert(seq![a] =~= Seq::<SpecExpr>::empty().push(a));
            lemma_ops_arguments_rest(within(ts, q.rest), q.next_id, callee, seq![a]);
        }
    } else {
        lemma_ops_close_call(ts, id, callee, seq![]);
    }
}

proof fn lemma_ops_arguments_rest(
    ts: Seq<SpecToken>,
    id: nat,
    callee: SpecExpr,
    arguments: Seq<SpecExpr>,
)
    requires
        operators_agree(callee),
        all_operators_agree(arguments),
    ensures
        reads_agreeing(arguments_rest(ts, id, callee, arguments)),
    decreases ts.len(), 19nat,
{
    grammar::unfold_arguments_rest(ts, id, callee, arguments);
    if let Some(t) = peek(ts) {
        if t.kind is Comma {
            let ts1 = ts.drop_first();
            lemma_ops_expression(ts1, id);
            let q = expression(ts1, id);
            if let Ok(a) = q.result {
                lemma_all_agree_push(arguments, a);
                lemma_ops_arguments_rest(within(ts1, q.rest), q.next_id, callee, arguments.push(a));
            }
        } else {
            lemma_ops_close_call(ts, id, callee, arguments);
        }
    }
}

proof fn lemma_ops_primary(ts: Seq<SpecToken>, id: nat)
    ensures
        reads_agreeing(primary(ts, id)),
    decreases ts.len(), 1nat,
{
    grammar::unfold_primary(ts, id);
    if peek(ts) is Some {
        let ts1 = ts.drop_first();
        if ts[0].kind is LeftParen {
            lemma_ops_expression(ts1, id);
        }
    }
}

/// In every expression the parser reads, each operator node holds the
/// operator its token is written as, at any depth: `a > b` is a
/// greater-than, `a - b` a subtraction, `!a` a not, `a and b` an `and`.
pub proof fn law_parsed_operators_agree(ts: Seq<SpecToken>, id: nat)
    ensures
        expression(ts, id).result matches Ok(e) ==> operators_agree(e),
{
    lemma_ops_expression(ts, id);
}

} // verus!
