# mds_lint

A verified linter and fixer for MDS templates, written in Verus.

- `src/lexer.rs`, `src/parser.rs`, `src/parser_helpers.rs`, `src/grammar.rs`: the
  tokenizer and the parser of templates, with contracts over the byte-level grammar.
- `src/facts.rs`: the facts the rules read (variables, calls, imports, defines).
- `src/rules/`: the ten lint rules; `src/tier.rs` says which are fixable.
- `src/lint.rs`: runs the rules over a source.
- `src/fix.rs`: plans fixes from findings (containment dedup, overlap rejection)
  and applies them behind a caller-supplied reverify check, with a per-edit
  fallback.
- `src/report.rs`, `src/diagnostic.rs`, `src/config.rs`, `src/options.rs`: the
  canonical report, diagnostics and their sanitizers, configuration, and option
  validation.
- `app/`: the unverified edge: JSON values and rendered diagnostics.
- `tests/`: the test suite, run against the compiled library.

Laws of the library are public proof functions named `law_*`.
