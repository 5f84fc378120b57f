# Lithium generator

Lithium turns token patterns (regular expressions) into a table-driven
scanner, and PEG grammars into recursive-descent parser code. The library
in `src/` is written in Verus: each public function states what it returns
in `requires` / `ensures`, and the laws of the automata are proof functions.

## Layout

- `src/base/` – shared pieces: text helpers, the error type, bit sets,
  code-point intervals, the regular-expression syntax tree and parser, and
  `{NAME}` template expansion.
- `src/scanner/` – Thompson construction (`nfa`), subset construction,
  minimisation and table compression (`dfa`), the proofs that the subset
  table follows the NFA (`run`), the words a pattern matches and the proof
  that the automaton accepts each of them (`language`), the converse proof
  that it accepts nothing else (`soundness`), the pipeline from patterns to
  a minimal DFA (`pipeline`), the tables a scanner is rendered from (`generator`),
  Graphviz output (`dot`) and plain-text descriptions of automata
  (`describe`).
- `src/parser/` – the PEG grammar model, its parser, left-recursion
  handling and the code of each rule's parse function.
- `src/args.rs`, `src/config.rs` – the command line and the configuration,
  as plain data.
- `app/` – the command-line program: argument parsing (clap), reading the
  JSON configuration (serde), rendering with handlebars, test mode (it
  writes a driver program around the scanner, with the input escaped by
  `escape_literal`, and runs `rustc`) and logging.
- `tests/` – tests of the library.

## Templates

Rendering needs a handlebars template. No built-in template ships in this
tree: pass one with `--template-file` (or `template_file` in the
configuration). The template receives, for a dense
scanner `transitions`, `accept`, `skip_flags`, `intervals`, ...; for a
compressed one `default_trans` and `special_trans` instead of
`transitions`.
