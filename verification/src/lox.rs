use vstd::prelude::*;

use std::collections::HashMap;

use crate::ast::{names_id, stmts_ids, stmts_view, SpecStmt, Stmt};
use crate::errors::{LoxError, SpecError};
use crate::grammar;
use crate::parser::Parser;
use crate::parse_laws::{ids_between, law_parsed_ids_distinct};
use crate::resolution::{
    law_statements_record_their_own, law_statements_resolve_their_uses, resolve_stmts,
    scoped_uses_resolved, stmts_scoped_uses, word_distinct, ClassType, FunctionType,
    ResolveState,
};
use crate::resolver::Resolver;
use crate::scanner::{spec_scan, Scanner};

verus! {

/// What a resolver knows before it reads a program.
pub open spec fn top_level() -> ResolveState {
    ResolveState {
        scopes: Seq::empty(),
        function: FunctionType::TopLevel,
        class: ClassType::NoClass,
        locals: Map::empty(),
    }
}

/// What the front end makes of a source text: its statements and, for
/// each expression that uses a local variable, how many scopes out that
/// variable lives; or the first error of scanning, parsing or resolving.
pub open spec fn spec_analyze(source: Seq<char>) -> Result<
    (Seq<SpecStmt>, Map<usize, usize>),
    SpecError,
> {
    match spec_scan(source, 0, 1) {
        Err(e) => Err(e),
        Ok(tokens) => match grammar::program(tokens, 0).result {
            Err(e) => Err(e),
            Ok(stmts) => {
                let resolved = resolve_stmts(top_level(), stmts);
                match resolved.0 {
                    Err(e) => Err(e),
                    Ok(_) => Ok((stmts, resolved.1.locals)),
                }
            },
        },
    }
}

/// A program that the front end accepts has expressions whose identifiers
/// are all different, and every distance it records is for one of them: an
/// identifier names at most one expression of the program.
pub proof fn law_analysis_keys_name_expressions(source: Seq<char>)
    ensures
        spec_analyze(source) matches Ok((stmts, locals)) ==> {
            &&& stmts_ids(stmts).no_duplicates()
            &&& forall|k: usize| #[trigger]
                locals.contains_key(k) ==> names_id(stmts_ids(stmts), k)
        },
{
    if let Ok(tokens) = spec_scan(source, 0, 1) {
        law_parsed_ids_distinct(tokens, 0);
        if let Ok(stmts) = grammar::program(tokens, 0).result {
            law_statements_record_their_own(top_level(), stmts);
        }
    }
}

/// Identifiers that are all different and lie below `hi`, with `hi` no
/// more than one past the largest machine word, are different words.
proof fn lemma_ids_word_distinct(ids: Seq<nat>, lo: nat, hi: nat)
    requires
        ids_between(ids, lo, hi),
        hi <= usize::MAX + 1,
    ensures
        word_distinct(ids),
{
    assert forall|a: int, b: int|
        0 <= a < ids.len() && 0 <= b < ids.len() && a != b implies #[trigger] ids[a] as usize
        != #[trigger] ids[b] as usize by {
        assert(ids[a] < hi && ids[b] < hi);
        assert(ids[a] != ids[b]);
    }
}

/// The model of what `analyze` returns.
pub open spec fn analysis_view(r: Result<(Vec<Stmt>, HashMap<usize, usize>), LoxError>) -> Result<
    (Seq<SpecStmt>, Map<usize, usize>),
    SpecError,
> {
    match r {
        Ok((stmts, locals)) => Ok((stmts_view(stmts@), locals@)),
        Err(e) => Err(e@),
    }
}

/// Scans, parses and resolves a source text, stopping at the first error.
pub fn analyze(source: &str) -> (r: Result<(Vec<Stmt>, HashMap<usize, usize>), LoxError>)
    requires
        source@.len() < usize::MAX,
    ensures
        analysis_view(r) == spec_analyze(source@),
        analysis_view(r) matches Ok((stmts, locals)) ==> scoped_uses_resolved(
            locals,
            stmts_scoped_uses(Seq::empty(), stmts),
        ),
{
    let mut scanner = Scanner::new(source);
    let tokens = match scanner.scan_tokens() {
        Ok(tokens) => tokens,
        Err(e) => {
            return Err(e);
        },
    };
    let mut parser = Parser::new(tokens);
    let ghost ts = parser.remaining();
    let statements = match parser.parse() {
        Ok(statements) => statements,
        Err(e) => {
            return Err(e);
        },
    };
    proof {
        Parser::lemma_next_id_fits(&parser);
        law_parsed_ids_distinct(ts, 0);
        lemma_ids_word_distinct(
            stmts_ids(stmts_view(statements@)),
            0,
            grammar::program(ts, 0).next_id,
        );
        law_statements_resolve_their_uses(top_level(), stmts_view(statements@));
    }
    let mut resolver = Resolver::new();
    match resolver.resolve_multiple_statements(&statements) {
        Ok(()) => {},
        Err(e) => {
            return Err(e);
        },
    }
    Ok((statements, resolver.into_locals()))
}

} // verus!
