# air_ir

The intermediate representations of the AirScript compiler, with their passes, written in
Verus and proved against their contracts.

- `typing`, `ast`: the types of AirScript values and the rules between them (subtyping,
  compatibility, result types of operators, what an access gives).
- `syntax`: the syntax tree after semantic analysis: expressions, statements, functions,
  evaluators and programs.
- `symbol_table`, `air`: the symbol table of an AIR and the declarations and constraints that
  make it up; an AIR is made from the sections of a source, declared in order.
- `mir`: the constraint graph and its passes.
  - `graph`, `term`, `eval`: an arena of operations, each referring only to operations
    stored before it; the expression tree each node denotes; and its value at a row.
  - `translate`: lowering of a program's syntax tree into the graph.
  - `duplicate`, `subst`: copying trees, with arguments in place of parameters.
  - `inlining`: the call dependencies, the order in which functions and evaluators are
    inlined, and, for one call, the copy of the callee's body with the arguments in place of
    the parameters that replaces the call.
  - `unrolling`, `loops`: for one node, turning an operation on vectors into operations on
    their elements, and a loop into the vector of its bodies.
  - `constant_propagation`: folding operations on constants, keeping the value of every node.
  - `bus_expand`, `bus_op_expand`: turning buses into boundary and integrity constraints.
  - `visitor`: walking the graph from its roots, boundary roots first: depth first, or in
    post-order (the operands of each node before it, left to right).
- `ir3`: nodes with children and parents, calls built through a builder that checks the
  number of arguments, and function parameters.

`app/` holds what prints.
