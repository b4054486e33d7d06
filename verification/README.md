# rockscript

A small programming language about throwing rocks, with its lexer, parser,
interpreter and editor support written in Verus and proved against
specifications.

- `src/` is the library: `lexer` (source text to tokens), `parser`
  (tokens to statements; `parser::grammar` is the grammar as spec functions,
  `parser::laws` and `parser::blocks` what holds of every token sequence), `interpreter` (statements
  to values; `interpreter::model` is the meaning of a run, `interpreter::laws`
  what holds of every run), `pipeline` (source to value), `editor` (line and
  column positions, document problems, hover text, REPL input completeness),
  `tokenizer` (a simpler lexer for an early form of the language), `error`
  and `text`.
- Numbers are `f64`s held by their bits: the lexer and the interpreter ask a
  host, passed in by the caller, for every operation on them (the lexer for
  the `{:?}` text that a number token carries) and for printing.
- `app/` is the command line tool (`run` and `repl`) and the language server.
- `tests/` run the library on concrete programs.
