# aries

A verified CDCL SAT solver and the verified pieces of a constraint solver around it, written
in Verus.

- `src/sat`: literals and variables (`lits`), the trail of assignments with decision levels
  (`assignments`), the clause database (`clauses`), the variable-activity heuristic
  (`heuristic`), a DIMACS CNF parser (`cnf`), and the solver itself (`solver`): two watched
  literals, first-UIP conflict analysis, learning, restarts, and, once the conflict budget can
  no longer grow, a search through every assignment (`enumerate`), so that the solver always
  answers. `entail` holds the semantic model
  (total assignments, clauses that hold under them) in which the answers are proved sound: a
  model answer satisfies every stored clause, and an answer of unsatisfiability means no
  assignment satisfies them.
- `src/solver`: the branching heuristic of the constraint solver (`brancher`), with staged
  activity queues that backtrack, its statistics, and the wrapper of user theories.
- `src/model`: variables, bounds, domains and writers of the constraint model.
- `src/validator`: timepoints and temporal intervals over exact rationals.
- `app/`: the command-line SAT solver (file reading, options, logging).
- `tests/`: tests of the library.
