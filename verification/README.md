# Context Footprint

How much code has to be read to reason about a unit of code? The library measures
that: it turns a semantic model of a project into a graph of functions, variables and
types, walks the graph in both directions from a unit, and adds up the sizes of the
fragments that are needed on the way. Reliable interfaces are boundaries: of a
documented function with a complete signature only the surface counts.

- `src/domain` holds the graph, the policies that decide on boundaries, the traversal
  and the solver, and the builder that makes graphs from models.
- `src/app` holds requests and responses, and the engine that answers them.
- `app` reads files and JSON, and offers an engine that several callers can share.
- `tests` runs the library on given graphs and models.

Everything under `src` is verified with Verus. What a function returns is stated over
mathematical models: `traversal` describes a walk step by step, `plan` describes the
graph of a model. Proof functions whose names begin with `law_` state what holds of the
library as a whole, such as that a footprint is the sum of both directions less their
overlap, that a limit gives a lower bound, and that every edge of a graph says something
that the model says. Graphs are stored in petgraph; what the library relies on there
stands in `src/domain/digraph.rs`.
