# Warden

A small language whose one rule is that every binding has a single owner:
using a value after it has been moved is refused before the program runs.
The library is written in Verus, and each stage is proved against a
mathematical model of what it does.

## Layout

- `src/lexer.rs`: characters to tokens; `lex_from` is the model.
- `src/parser.rs`: tokens to a program (`Stmt`, `Expr` in `src/ast.rs`);
  each grammar rule has a spec function of its own. Its error messages show
  a number token by its exact decimal text (`Number(100000000000000000.0)`,
  `Number(0.00001)`), not in the short form a float's `Debug` gives
  (`1e17`, `1e-5`): numbers are held as exact decimals, with no floating
  point in the library.
- `src/checker.rs`: the ownership checker, with the laws of the ownership
  model (what a move leaves, how `if` branches merge, what a loop may move).
- `src/interpreter.rs`: a tree-walking interpreter with fuel (one unit for
  each call and each loop turn that runs the body), whose printed values
  are collected by the caller; laws on fuel and on loops.
- `src/lib.rs`: `check_source` and `run_source`, the whole pipeline.
- `src/number.rs`, `src/names.rs`, `src/sorting.rs`, `src/text.rs`: exact
  decimal numbers, small name maps, name order, and string helpers.
- `app/main.rs`: a demo program run through the pipeline, printing the values
  it produced.
- `tests/`: one file per stage, and one for the pipeline.
