# miniplan

A grounded, classical PDDL planner whose core is verified with Verus.

## Layout

- `src/` — the verified library:
  - `pddl_model.rs`, `pddl_io.rs`: the parts of a parsed domain and problem
    that grounding reads, as plain values; choosing a domain and problem
    among those a text defines.
  - `ground/`: types and objects, goal formulas as disjunctions of literal
    sets, effects, costs, derived predicates, and `ground`, which builds a
    task whose facts, initial state, goal and operators are stated exactly.
  - `task.rs`, `plan.rs`, `bitset.rs`, `table.rs`, `queue.rs`: states as
    bitsets, operators and their application, plans and what it means for a
    plan to solve a task, hashed tables and a priority queue.
  - `heuristic/`: blind, goal-count, zero, h^add, h^max and FF.
  - `search/`: breadth-first (shortest plans), A* (cheapest plans under an
    estimate that never overestimates), greedy best-first, bidirectional BFS,
    bidirectional Dijkstra and BAE*, each returning only plans that solve
    the task.
  - `util/interner.rs`: a string interner.
  - `tui.rs`: the decisions of the interactive interface: what a mouse
    event does, the list cursors, domain de-duplication and the initial
    selections.
- `tests/`: tests of the library.
- `app/`: the command-line program (argument parsing, file reading, plan
  output) and the terminal interface's drawing and event loop.
