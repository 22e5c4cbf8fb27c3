# szz

An SZZ tool: for each bug-fixing commit it follows every file the commit
modified back through its history, builds an annotation graph of the file's
lines across versions, and searches that graph for the commit that most
likely introduced the bug.

`src/` is the library, verified with Verus:

- `graph` builds the annotation graph (`try_build_annotation_graph` reports
  where the build cannot go on; the build is stated step by step over a model of
  the graph, and `AnnotationBuild` takes it one pair of versions at a time so
  that each diff is made only when needed) and searches it breadth-first;
  `graph_store` models a `petgraph` graph as its node weights and per-node
  neighbour lists, defines the breadth-first walk over them, and gives the
  `petgraph` calls the library makes their contracts.
- `utils` reads `diff` output into hunks (with `regex`), applies the size
  test to hunks, and picks the most recent candidate commit (dates read
  with `chrono`).
- `git` builds the git and diff command lines and reads their output;
  `text` holds the character-level helpers these rest on.
- `hunk`, `vertex`, `bfc`, `bfc_result`, `config` and `szz` hold the data
  and the per-commit tally.

`app/` is the command-line program: it reads the JSON input, runs git and
diff, and writes `result.json`.
