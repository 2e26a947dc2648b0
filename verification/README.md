# booleanium

A solver for quantified Boolean formulas, verified with Verus.

Every verdict is stated against one mathematical model: the truth of a prenex
formula as a game between the two quantifiers (`src/semantics.rs`). The search
proposes, and what it proposes is certified before it becomes a verdict.

## Layout

- `semantics`, `qcnf`, `literal`, `quantifier`: formulas and their meaning.
- `sat`: the propositional back end (varisat) behind one contract.
- `incdet`: incremental determinization for two blocks, with Skolem functions,
  universal witnesses, and their circuits.
- `incremental`: an assertion stack with assumptions, cores and terms.
- `alternation`, `expand`, `compose`, `strategy`, `strategy_check`: formulas of
  any number of blocks, with winning strategies. `effort` says when a verdict
  is owed, `agreement` why the circuit of a strategy does what it plays.
- `aiger`, `qcir`, `encodings`: circuit inputs, safety games, unrollings.
- `parity`, `random`, `encodings::{relations, words}`, `aiger::families`:
  instance families with known meaning.
- `workloads`: changes to an assertion stack that are solved step by step.
- `bdd`, `qcdcl`, `datastructure`, `clause`: the structures around them.
- `cli`, `probe`: decisions of the command line, measurement counters.
- `app`: the command line itself. `tests`: examples and edge cases.
