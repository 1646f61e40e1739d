# crabmap

A code-graph library for Rust projects, verified with Verus. A project is
indexed into a graph of nodes (the project, crates, files, modules and items)
and edges (declarations, calls, type uses, imports, trait dispatch), and the
graph answers questions about the code: where a symbol is, who calls it, what
a change touches, which tests reach it, in what order a set of symbols can be
refactored, how healthy the module structure is.

## Layout

- `src/` — the verified library. Every function has a contract that Verus
  proves; the few calls into `std` and `petgraph` that Verus cannot read stand
  behind small trusted wrappers whose doc comments say what is assumed.
  - `model`, `builder`, `items`, `project`: the graph and how a project is
    indexed into it (nodes, ids, pending references, resolution, dispatch).
  - `query`, `index`, `traversal`, `commands`, `filter`, `ranking`, `risk`,
    `refactor`, `test_impact`, `deps`: queries over a graph.
  - `health`, `ai`, `facts`, `export`: summaries of a graph.
  - `mir`, `semantic`: what enrichment from compiler output reads and selects.
  - `web`: how the viewer's HTTP requests are routed and their query strings
    decoded.
  - `ask`: the API-key check, the prompt put to a language model and the
    answer read from its reply.
  - `retrieval`: the lexical stage of retrieval (nodes read as documents and
    ranked by query terms and kind).
  - `repo_map`: the Markdown map of a graph within a byte budget.
  - `config`: the model-service settings, their update and redacted keys.
  - `laws`: properties that relate several operations.
- `tests/` — tests run against the compiled library.
- `app/` — the command-line program: argument handling, reading sources and
  graphs from disk, parsing Rust with `syn`, running `cargo` and `rustc`, the
  viewer's socket loop, the HTTP call to the language model, and printing
  JSON. It hands plain values to the library and renders its results.
