# lib — a verified CDCL SAT solver core

A conflict-driven clause-learning SAT solver whose core is written and
proved in Verus: two-watched-literal unit propagation, first-UIP conflict
analysis with clause minimization, non-chronological backjumping, an
activity-ordered decision heap, clause deletion, the Luby restart schedule
and a DIMACS reader.

## Layout

- `src/lit.rs` — literal encoding (`2*(v-1)` / `2*(v-1)+1`), complement,
  DIMACS conversion, literal evaluation.
- `src/semantics.rs` — valuations, models, implied clauses, unsatisfiability.
- `src/clause.rs` — sorting, deduplication and counting on literal vectors.
- `src/heap.rs` — `VarHeap`, a binary max-heap of variables keyed by `u64`
  activities.
- `src/restart.rs` — the exponent of the Luby sequence.
- `src/dimacs.rs` — the DIMACS CNF reader, specified by `dimacs_spec`.
- `src/solver.rs` — the solver state, its invariants, and the operations:
  `add_clause`, `load_clauses`, `propagate`, `analyze`, `learn_clause`,
  `backjump_and_learn`, `decide`, `cancel_until`, `reduce_db`,
  `search_step`.
- `app/main.rs` — the command-line program: reads the file, runs the search
  loop with the floating-point heuristics (VSIDS activities, clause
  activities, restart and deletion schedules) and prints the answer.

## What is proved

- Every stored clause and every level-0 assignment follows from the input
  clauses; the clause learnt from a conflict follows from them too, and
  from the stored clauses together with the level-0 facts (`db_implies`).
- An input clause whose literals are all false at level 0 when it is added
  is recorded; `load_clauses` then answers false, and `search_step`
  answers `Step::Unsat`.  A conflict at level 0 (`Step::Unsat`), or
  `load_clauses` answering false, means the input clauses have no model.
- `Step::Sat` means the final assignment is total and satisfies every input
  clause.
- Conflict analysis is first-UIP analysis with minimization: every marked
  variable is reached from the conflicting clause through the reasons of
  the positions resolved, each position was resolved only while another
  marked current-level position was still open, and the clause asserts the
  complement of the point where the analysis stopped (`first_uip`,
  `uip_learnt`), at the backjump level.
- Propagation keeps the old trail as a prefix, records for every literal it
  adds the clause that implied it, and, run to a fixpoint, leaves no stored
  clause false or unit.
- Backjumping unassigns exactly the variables above the target level and
  clears their reasons.
- The heap moves entries as `sift_up_spec` and `sift_down_spec` say;
  decisions take the heap root when it is unassigned, and a heap filled with
  equal activities holds the variables in increasing order.
- Clause deletion removes at most half as many clauses as the order it is
  given lists, and only learnt clauses that are no variable's reason.
- The DIMACS reader computes exactly `dimacs_spec`; a comment line changes
  nothing, even inside a clause (`lemma_comment_line`).
