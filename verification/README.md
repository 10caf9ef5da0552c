# theorem_format

An intermediate representation of programs on their way to a theorem prover, and
the passes that work on it. Every function of the library carries a contract that
Verus proves.

Each type has a model for the contracts: an `IRNode` holds a `Node`, a `Type` a
`Ty`, a `Program` a `Prog`, a `Stmt` a `Code`. A pass states in its `ensures` what
the model of its result is, as a spec function of the model of its argument.

## Layout

- `types`, `ir`, `program`, `scope`, `statements`: the representation.
- `traverse`, `parts`, `measure`, `sizes`, `text`, `word`, `sorting`, `assoc`,
  `idents`: walks, sizes, names and numbers.
- `constant_folding`, `logical_simplification`, `dead_code_removal`, `cleanup`,
  `optimize`: simpler expressions.
- `early_return`, `early_return_elimination`, `deep_nesting`: control flow.
- `coalesce`, `shadowing`, `phi_lifting`, `writebacks`, `prop_lifting`: bindings
  that branches and references change.
- `callee_requires_entry`, `callee_requires_precond`, `loop_inv_entry`,
  `lean_termination`, `ghost_threading` (with `threading`, `forwarding`,
  `markers`): what functions hand to each other.
- `inject_arithmetic_aborts`, `decompose_aborts`, `decompose_ensures` (with
  `bundles`, `obligations`, `segments`, `spine_cuts`, `substitution`,
  `cut_types`, `cutting`, `splitting`): companions that say when a function aborts
  and what it ensures.
- `dynamic_field_rewriting`, `df_borrows`, `typed_maps`, `frame_lemmas`: stores.
- `dead_param_elimination`, `loop_body_extraction`, `import_collection`,
  `dependency_order` (with `graph`, `positions`): the program as a whole.

## What is proved about the passes

A public proof function whose name begins with `law_` states a property of a pass
as a whole, in the module of the pass; those on splitting companions are in
`cutting` and `splitting`.

## What is trusted

`word` hands 256-bit arithmetic to `ethnum`, `graph` hands strongly connected
components and topological sorting to `petgraph`, `positions` keeps positions in
an `indexmap::IndexMap`, and `text` and `sizes` call string functions of the
standard library. The comment above each such function says what is claimed
of it.
