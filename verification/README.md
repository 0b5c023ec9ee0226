# obddimal

A library for building and manipulating ordered binary decision diagrams (BDDs), verified
with Verus.

## Layout

- `src/` — the verified library:
  - `bdd_node`, `semantics`, `bdd_manager`: nodes, the meaning of a node table (`eval`), and
    the manager with its well-formedness invariant (ordered, reduced, unique tables, caches).
  - `ite`, `apply`, `canonical`, `reachable`, `sat`: the diagram operations, canonicity (one
    node per function), reachability, node removal, and model counting; `big_count` holds
    counts of any size (the exact number of satisfying assignments).
  - `partial_swap`: measuring a further swap after recorded ones on a copy, and carrying out
    the recorded swaps.
  - `range_sifting`: searching the best position of a variable within a range of levels, sifting
    the variables of a range, and trying the orders of a small window, all measured on a swap
    context without changing the manager.
  - `swap`, `sifting`: exchanging adjacent layers in place and sifting variables through all
    levels (also by measured swaps), and the DVO schedules that run sifting while a diagram
    is built; every node keeps its function, and sifting never enlarges a diagram.
  - `dimacs`, `dimacs_text`, `parser`, `building`, `boolean_function`: CNF formulas, reading
    DIMACS text, and building the diagram of a formula.
  - `order`, `static_ordering`, `variable_ordering`, `permutation`, `dvo`, `area`: variable
    orderings, the FORCE heuristic, permutations of levels, the reordering options, merging
    level ranges, and choosing the areas (ranges of levels) in which to reorder.
  - `store`, `dddmp`, `bdd_file`: loading (and so reducing) a diagram from a node list, reading
    DDDMP files (with complemented edges), and writing and reading stored diagrams (a node list
    in text with statistics), with a check that a stored diagram fits its ordering; what is
    written reads back with the same functions.
  - `graphviz`: the diagram of a function in the DOT language.
- `tests/` — tests run against the compiled library.
- `app/` — the command-line program: file input and output around the library, and reading
  and writing stored diagrams as TOML, JSON and XML.
