# light_nix

The front end of the LightNix configuration language, verified with Verus:
lexing, error-recovering parsing, comment ownership, the canonical
formatter, name resolution, value dependency graphs and the vocabulary of
the typed constraint model.

## Layout

- `src/text.rs`, `src/pattern.rs`, `src/lexer.rs`: UTF-8 text helpers,
  the rule patterns compiled with the `regex` crate, and the lexer with a
  spec-level scanning model.
- `src/ast.rs`, `src/parse_error.rs`, `src/parser.rs`, `src/syntax.rs`: the
  syntax tree, recoverable syntax errors, and the parser (leaf constructs in
  `parser.rs`, the recursive statement/expression grammar in `syntax.rs`).
- `src/comments.rs`: which statement, header or footer owns each comment.
- `src/formatter.rs`: the canonical layout and the edits that produce it.
- `src/names.rs`, `src/scope.rs`, `src/resolver.rs`: identities, scopes and
  module interfaces, and name resolution of one module.
- `src/graph.rs`, `src/graph_order.rs`, `src/builder.rs`: dependency graphs,
  their strongly connected components, cycles and evaluation order, and
  building a module's graph from its resolved names.
- `src/model.rs`: ids, origins, output paths, constraints, objectives.
- `tests/`: behaviour tests on concrete inputs.
- `app/`: the formatter's error with `Display` and `std::error::Error`.

## Data structures

Tables keyed by names or ids are vectors searched by key rather than hash
maps: the scopes, the module interfaces and the import environment, the
resolver's declaration and reference logs, and the dependency graph's
nodes and edges keep their entries in insertion order. Every lookup is then
specified over a sequence (a later entry of a name replaces an earlier
one, and nothing is found twice), which a hash map keyed by strings would
not give the verifier.

## Not in this crate

Lowering to the constraint model, the model builder and the evaluator are
not part of this crate: they compute on the results of the LightNix type
checker, which this crate does not include, and the evaluator's values
hold floating-point numbers. `src/model.rs` keeps the ids, origins, output
paths, constraints and objectives that those stages share.

## What is proved

- The lexer takes, at each position, the longest match among its rules.
- The parser yields no statement and no error for a text that holds only
  separators, and otherwise at least one statement or one error; an empty
  list `[]` or `()` parses without error, and a list whose first token
  starts an element yields that element or an error. Which statements a
  text parses to is not specified.
- The formatter, given a parse (`format_parsed`), fails exactly when the
  parse has errors, with one message each, and otherwise gives the
  canonical layout of the parsed statements. `format_source` gives that
  outcome for a parse meeting the parser's contract (so a text of
  separators formats to the empty text); its edits, applied to the input,
  give the formatted text, and a canonical input needs none.
- Name resolution: the module scope binds the built-in type names first,
  each to its built-in type; every module-level declaration has a table
  entry declared by its name (unless that table is full) and its name is
  bound in the module scope; the interface lists exactly the exported module-level
  declarations; every recorded declaration names the table entry its
  literal declared; every resolved name refers to an existing declaration
  when the imports come from other modules; unknown modules and unknown
  exports are reported where they are written; each imported name is bound
  in the module scope to what the other module exports under it; every
  name a statement writes at its own level has its reference recorded
  (which declaration it resolves to is not specified).
- Dependency graphs: every module-level declaration and statement is a
  defined node, edges only point at dependencies, and each use a
  statement's value makes of a binding, function or variant is an edge;
  dependencies and dependents mirror each other; the strongly
  connected components partition the nodes, their members reach each
  other, dependencies come first, and mutually reachable nodes share a
  component; the reported cycles are whole components and hold exactly
  the nodes that lie on a cycle, and any two lists meeting that contract
  are equal; the cycle list is non-empty exactly when some nodes block
  each other, and an evaluation order exists exactly when none do and then
  evaluates every node after all it depends on; extending a graph a second
  time by the same graph changes neither its nodes nor its edges.
