# teleora

The core of a small logic-programming interpreter, verified with Verus.

- `src/statement/statement.rs`, `collection.rs`, `operator_binary.rs`, `operator_unary.rs`:
  the terms of the language and their mathematical values (`model.rs`).
- `src/statement/frame.rs`: frames of variable bindings and the matcher that unifies
  statements, lists and runs of statements, producing the frames in which they match.
  Its contracts are stated over `match_statement` and the functions beside it in `model.rs`;
  each matcher that is defined only on some inputs has a `can_…` companion that
  tells, at run time, whether those inputs are met.
- `src/statement/combinations.rs`, `complement.rs`: splitting a pool into each
  `k`-combination and its complement, in lexicographic order.
- `src/statement/operators`, `add.rs`: negation and integer addition.
- `src/interpret.rs`: programs, goals, heads and rules; goals are grouped by name.
- `app/main.rs`: a small driver that prints the frames a goal's head matches in;
  float arithmetic lives there too. Programs are built by hand: there is no parser for
  program text, as the grammar such a parser is generated from is not part of the crate.
