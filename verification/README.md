# strata

The front end of Strata, a small language with effect types and capability
security, written in Verus: each function states what it computes in a
`requires`/`ensures` contract, and Verus proves it.

## Layout

- `src/` — the verified library.
  - `lexer` — tokens and the lexer, specified by a lexical grammar on bytes.
  - `ast` — spans and the syntax tree.
  - `parser` — recursive descent from source text to a module; binary
    operators grouped by binding power, spans from first to last token.
  - `effects` — effect rows as bitmasks with an optional tail, and their algebra.
  - `ty`, `types` — inference types, schemes, constraints; nominal types.
  - `assoc` — finite maps kept as association lists with distinct keys.
  - `subst`, `shape` — substitutions, their application, and the shape of a
    type under a substitution.
  - `unifier`, `solver` — unification (with Rémy-style row unification) and
    constraint solving.
  - `adt`, `checker`, `ctx`, `constraint` — data type definitions and their
    registry, type errors, conversion of written types, inference contexts,
    the checker's inference of an expression's type, and the two-pass check
    of a module (data types, enum constructors, function headers and the
    effect annotations of functions and extern functions first; then `let`
    bindings and function bodies, each solved and generalized).
  - `infer` — constraint generation for expressions, blocks, statements and
    patterns.
  - `exhaustive` — exhaustiveness and redundancy of matches by pattern matrices.
  - `move_check` — single use of affine values (capabilities).
  - `host`, `summary` — host errors, trace records, SHA-256 digests of outputs,
    timestamps, and the text of trace summaries.
  - `scope`, `runtime` — lexical environments of bindings, and what running a
    module takes from its declarations (extern parameter metadata, the
    capabilities handed to `main`, duplicate pattern bindings).
- `tests/` — tests run against the compiled library.
- `app/` — the command line: type-checks and runs a source file with the tree-walking
  interpreter (optionally writing a JSON-lines trace of host calls), parses
  it and prints its syntax tree, or reads a trace file and prints its summary.
