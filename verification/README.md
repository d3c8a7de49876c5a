# rlox

A tree-walking interpreter for the Lox language, whose front end and run-time
bookkeeping are verified with Verus.

`src/` is the verified library:

- `scanner.rs`: turns source text into tokens. `spec_scan` states the lexical
  grammar; `Scanner::scan_tokens` and `Scanner::next_token` are proved to
  follow it.
- `grammar.rs`, `parser.rs`: the grammar of Lox as spec functions over token
  sequences, and the recursive-descent parser proved against it. Every
  expression gets an identifier from a counter; `parse_laws.rs` proves that
  the identifiers of a parsed program are all different and that a program
  that parses was read to its end.
- `resolution.rs`, `resolver.rs`: static resolution of local variables (how
  many scopes out each use lives), as spec functions and as the `Resolver`
  that is proved to compute them.
- `lox.rs`: the front end as one step (`analyze`: scan, parse, resolve),
  with the law that every distance it records names exactly one expression.
- `environment.rs`: the scopes of a running program, with reads and writes by
  name and at a distance.
- `function.rs`, `class.rs`, `native_functions.rs`: functions, classes and
  instances, over any type of value.
- `ast.rs`, `token.rs`, `operator_type.rs`, `errors.rs`, `text.rs`: the data
  the phases share, with their mathematical models.

`app/` holds the command-line program and the evaluator, whose numbers are
floating point. `tests/` exercises the library.
