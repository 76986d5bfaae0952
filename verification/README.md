# merak_analyzer

The semantic analyses of Merak, a language for smart contracts with refinement
(liquid) types, written and proved in Verus.

## What it does

- **Name resolution** (`resolve`): declares each contract, interface, storage
  variable, constructor, function, parameter and local in a stack of scopes,
  connects every name that a body uses to its declaration, and reports
  undeclared names, redeclarations, invalid modifier combinations and
  `old(..)` outside postconditions. `analyze` runs it over a program and then
  checks base types.
- **Base type checking** (`typechecker`): the typing rules of expressions and
  statements, with the inferred type of unannotated locals recorded.
- **Storage analysis** (`storage`): the fold/unfold states of storage along the
  control-flow graph of a function in SSA form, the insertion of explicit
  `fold`/`unfold` instructions, the checks-effects-interactions rule after
  calls that may re-enter, and the refusal of writes to constants.
- **Refinement inference** (`refinements`): templates for every SSA value,
  constraint generation over the control-flow graph, qualifier instantiation,
  and an iterative solver that asks Z3 about implications.

## Layout

- `src/ast/`: the syntax tree of contracts, with how each node is written.
- `src/symbols.rs`: the symbol table with its scopes and resolved references.
- `src/ir.rs`: the SSA form the storage analysis and inference work on.
- `src/resolve.rs`, `src/typechecker.rs`, `src/storage.rs`, `src/refinements/`:
  the analyses.
- `src/names.rs`: string maps and sets, and the decimal text of numbers.
- `app/`: the thread-local source-reference stack and console messages.
- `tests/`: scenarios built node by node.

Each public function states its result in its `ensures`; laws that relate
several functions are proof functions named `lemma_*`.
