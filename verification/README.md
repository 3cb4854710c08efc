# luat

Svelte-inspired server-side templating for Rust: templates with `{#if}`,
`{#each}`, components and script blocks compile to Lua modules, which a Lua
runtime renders.

## Layout

- `src/` is the library, verified with Verus: the template parser (the
  template grammar is written out as spec functions, `template_spec` in
  `parser.rs`, and `parse_template` is proved to give exactly what it
  reads), the
  transformation into an intermediate representation, Lua code generation
  with source maps, bundling in dependency order, template resolution
  (in memory and on disk), file-based routing, request bodies, responses,
  form actions, the decisions of request handling, and an in-memory
  key-value store. The contracts state results over spec functions; where
  the disk, the clock or an outside crate decides part of a result, the
  contract says what holds of every answer, and a separate function that
  takes the answer states the rest. The proof functions state the laws (a value read back after a write, the
  order of a bundle, the pages of a listing, a source map read back from its
  comment).
- `app/` runs the generated code: the engine over an mlua state, the runtime
  for `load` functions, API handlers and form actions, the `json` and `KV`
  Lua modules, and the caches in memory and on disk.
- `tests/` exercises the library.
