# cfg_pascal

Control-flow graphs of Pascal source, with verified contracts.

- `build_file_cfgs` gives the graphs of the routines and module sections of one
  parsed file, in source order. Loops, `case`, `with`, labels and `goto`,
  `try..finally`, `try..except` and conditional compilation are followed through
  every normal and abrupt path.
- `build_file_cfgs_in_project` does the same for one unit of a `ProjectSnapshot`, in
  which exception classes are known across units through chosen `uses` entries.
- `prepare_source` decides conditional directives and expands includes. Its result,
  a `PreparedSource`, parses cleanly and can be traced back to the original files
  byte by byte through a `SourceMap`.

## Layout

- `src/syntax.rs`: syntax trees as plain values, and the parser behind them.
- `src/scope_graph.rs`, `src/pascal_builder.rs`: what the graphs are, and the code
  that builds them; `src/graph_laws.rs`, `src/graph_facts.rs`: what holds of every
  graph.
- `src/tree_laws.rs`, `src/declaration_laws.rs`, `src/rebuild_laws.rs`: trees with the
  same nodes have the same declarations and the same graphs.
- `src/labels.rs`, `src/flow.rs`, `src/constructs.rs`, `src/graph.rs`: labels and
  their namespaces, pending transfers, recognised calls, and the graph type.
- `src/unit_types.rs`, `src/exception_types.rs`, `src/project_index.rs`: declared
  types, exception matching, and the index of a project.
- `src/project.rs`, `src/prepared.rs`, `src/source_map.rs`: snapshots of projects,
  prepared sources and source maps.
- `src/preparation.rs`, `src/expansion.rs`, `src/directives.rs`, `src/conditions.rs`:
  preparation of sources; `src/expansion_laws.rs`: what holds of every projection.
- `src/text.rs`: text primitives.
- `app/`: the errors as `std::error::Error` values.

Each executable function states its result over the spec functions of its module.
Functions named `law_...` state what holds across functions.
