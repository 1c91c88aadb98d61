# clojure_toolchain

The logic of a Clojure (tools.deps) toolchain plugin for the moon build
system, verified with Verus.

The plugin makes moon understand `deps.edn` / `bb.edn`: `:local/root`
coordinates become implicit project dependencies, task hashes fold in the
content of the transitive `:local/root` closure, dependencies are prepared
with `clojure -P` or `bb prepare`, manifests are mapped onto moon's
dependency model, and a managed `fileGroups.localDeps` block is kept in each
project's `moon.yml`.

## Layout

- `src/` — the verified library.
  - `text.rs`, `sorted.rs` — string comparison, and the ordered string set
    and string-keyed map (with a type invariant: keys strictly increasing).
  - `edn.rs` — the EDN values the manifests are read into, and the call into
    `clojure-reader`.
  - `deps_edn.rs` — the manifest model (`:paths`, `:deps`, alias deps and
    paths) and its laws.
  - `paths.rs` — lexical path normalization and `:local/root` resolution.
  - `sync.rs` — rendering and splicing the managed `moon.yml` block.
  - `closure.rs` — content hashes (via `sha2`) and the two walks over the
    `:local/root` closure, driven from outside because they read files.
  - `tier2.rs` — the decisions of the tier-2 plugin functions: preparation
    commands, project relationships, manifest dependencies, project sync and
    task hash contents.
  - `config.rs` — the settings the logic reads.
- `app/` — the WASM plugin around the library: entry points, file access,
  configuration loading and conversion to moon's types.
- `tests/` — tests of the library, including an in-memory example workspace
  that drives the closure walks.
