# elmore

A minimal Elm-architecture framework for interactive web pages compiled to
WebAssembly, and a resource table built with it: a filterable, sortable,
paginated list of web resources.

The decisions both make are a library verified with Verus; the browser
plumbing around it is ordinary Rust.

## Layout

- `src/` — the verified library.
  - `text.rs` — character-level text operations: lowercasing, trimming,
    word splitting, substring search, joining, lexicographic order.
  - `html.rs` — element tags, attributes and event kinds with their DOM names;
    which armed handlers a bubbling event fires.
  - `reconcile.rs` — what the renderer decides when it reconciles a fresh tree
    with the live DOM: which existing child each new child reuses (by key,
    else by position), the steps that put the children in order, which
    attributes disappeared, which form properties to write.
  - `frames.rs` — the runtime's message queue and animation-frame flag.
  - `subscriptions.rs` — the table of named intervals and their generations.
  - `model.rs` — columns, sort rules, table preferences, resources.
  - `table.rs` — sort-rule updates, sort indicators, filtering, stable
    multi-column sorting, pagination.
  - `resource_table.rs` — the table application's state, its update rule, the
    pagination figures, grid template and CSS classes its view shows.
- `tests/` — tests of the library.
- `app/` — the browser side: the `App` trait, commands, the `Html` builder,
  the DOM renderer and runtime loop (`web-sys`, `wasm-bindgen`), and the
  resource-table program with its dataset.
