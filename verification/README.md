# frawk_ast

Lowering of a small awk-like statement language into a control-flow graph
(a `petgraph` graph) of primitive three-address statements, and the
depth-first numbering of that graph that starts dominator-tree construction.

- `src/ast1.rs`: the input statements and expressions.
- `src/prim.rs`: primitive values, expressions and statements.
- `src/graph.rs`: the control-flow graph and the `petgraph` calls it makes.
- `src/model.rs`: the mathematical model of a lowering context and of each
  lowering step.
- `src/ast2.rs`: the lowering itself, proved to compute the model.
- `src/lemmas.rs`: facts about the model (what each step keeps).
- `src/reach.rs`: every node of a lowered graph is reachable from the block
  where its statement starts.
- `src/domtree.rs`: the depth-first search, and the proof that it reaches
  exactly the nodes reachable from the entry, numbering them without gaps;
  on a graph lowered from a statement it numbers every node.
- `app/lib.rs`: conversions of numeric literals from and to `f64`.
