# librho

Semantic analysis of Rholang processes, written in Verus and verified.

The library works on a Rholang syntax tree (`src/ast.rs`) held in a semantic
database (`src/db.rs`) that indexes every process by its PID in preorder.
Over that database it runs:

- name resolution (`resolver`, `resolve_proc`, `resolve_pattern`,
  `pattern_state`, with the specifications in `var_uses` and `scope_sites`):
  binders, scopes, free variables of patterns, variable references,
  duplicates and shadowing;
- the enclosure analysis (`enclosure`), which records for each process the
  nearest enclosing process that opens a scope;
- diagnostics passes (`diagnostics`): unused variables, numeric type
  consistency, disjunction consistency;
- the for-comprehension elaborator and its validators (`elaborator`,
  `resolution`, `patterns`, `bindings`, `sources`, `joins`, `consumption`,
  `type_validation`, `query`, `arrow_validator`);
- the layout of an analysis pipeline (`pipeline`).

Every public function carries a contract; the laws that relate several
operations are proof functions in `laws.rs` and `enclosure_laws.rs`; the
completeness of resolution (every variable of a tree is bound, introduced or
reported, every binding construct gets its scope) and its locality (a tree
binds only to its own binders) are part of the contract of `resolve`.  For a process whose only binding
construct is `new` (`scoping.rs`), the contract of `resolve` also fixes the
result: each use, when the uses sit at distinct positions and the tables
have room, is bound to the innermost binder of its name in scope, or is
reported unbound.  For the other binding constructs (`for`, `match`, `let`,
contracts, patterns) the contracts are exact at the level of one step: one
use (`use_outcome`), one pattern variable or reference, one pattern-only
form outside a pattern, the shadowing reports of one `new`.

`app/` holds what runs around the library: the asynchronous pipeline runner,
the pass traits and the `Display` impls.  `tests/` holds the test suite, with
a small reader that builds syntax trees from Rholang text.
