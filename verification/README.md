# opencadgraph

A node graph engine for CAD applications, verified with Verus.

Nodes are library operations or host objects whose property rows are the
node's ports. The engine owns ordering, list lacing and value coercion; the
application supplies a `Host` that makes objects and evaluates operation calls.

Layout:

- `src/` is the verified library:
  - `graph.rs`: nodes, links, connecting without loops, reachability, the
    evaluation order, the value arriving at a port, and evaluation, which
    asks the host once per object node, in order;
  - `laws.rs`: what holds across operations (no loops after `connect`, the
    order is a topological sort, ids stay distinct and keep increasing,
    reading after `connect`, a second evaluation changes nothing);
  - `value.rs`: values, their models, coercions and list lacing;
  - `fields.rs`: named values of a node, kept in name order;
  - `ops.rs`: operation signatures and the list, logic and text operations
    (all but case mapping, which follows Unicode tables);
  - `strings.rs`: the string functions the library relies on.
- `app/` is the application side: JSON values through `serde_json`, the
  operation library with its floating-point arithmetic and curve geometry,
  and the bridge from the application's host to the engine.
- `tests/` exercises the library on concrete values.
