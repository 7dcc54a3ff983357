# crdt

Replicated data types built on a DAG of operations, with their reconciliations
verified by Verus.

Each replica keeps a DAG whose vertices are labelled with operations; an operation
issued locally becomes a vertex whose parents are the current heads, and a vertex
received from another replica is added under its causal context once that context is
known. A reconciliation orders the operations of the DAG, and the state is what
applying them in that order to the initial state gives.

Layout:

- `src/dag.rs`: the DAG (adding vertices, heads, parents and children, the walks
  through the past and the future of a vertex), its model and its laws (fresh
  identifiers keep it acyclic; the distance order is a sorted permutation).
- `src/crdt.rs`: a replica (`CRDT`): issuing, receiving, reading; reads depend only
  on the DAG; an issued operation becomes the only head.
- `src/crdt/reconciliation_functions.rs`: the reconciliations (by distance, by
  levels, by operation order, by conflict tables, by process fairness) and
  `src/crdt/fair_walk.rs`, the fair walk by rounds and the proof that it applies
  every vertex but the root exactly once.
- `src/crdt/convergence.rs`: replicas holding the same operations read the same
  state, whatever order the operations arrived in: through the fair walk, and
  through the distance order when the operations commute (the orders that sort by a
  key have their laws beside them).
- `src/process.rs`: messages between replicas, issuing an operation, and the
  messages kept until their causal context arrives.
- `src/metrics.rs`: how the operations settle in the states read.
- `src/rendering.rs`: what a drawing of the DAG holds.
- `src/commands.rs`: the experiment's commands: how they change the state and how
  they are ordered.
- `app/`: the program around the library: settings, the gossip network, the
  replica task, the metrics report, the drawing with graphviz.
