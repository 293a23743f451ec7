# devpilot

DevPilot understands code repositories: it opens a repository, scans its
languages, frameworks, dependencies and contributors, parses Rust and
TypeScript/JavaScript into a structural model, draws folder, dependency,
module and call graphs, finds cyclic dependencies, dead code and duplicated
blocks, searches files and symbols, and builds repository-aware prompts for
an LLM chat.

The library under `src/` is written in Verus: each function carries a
contract over mathematical models (sequences, views, spec functions), and
the properties that span functions are proved as `law_*` proof functions.

| Path | Contents |
|---|---|
| `src/entities/` | The domain model: repositories, file trees, ASTs, graphs, reports. |
| `src/analysis/` | tree-sitter parsing and the extraction of functions, classes, interfaces, imports and exports. |
| `src/architecture.rs` | The four architecture graphs. |
| `src/intel/` | Cycles, dead code, duplication and code search. |
| `src/chat.rs` | File relevance, the system prompt and the token budget. |
| `src/detectors.rs`, `src/manifest.rs` | Manifest detectors (npm, Cargo, PyPI, Go) over parsed JSON and TOML. |
| `src/ai.rs` | LLM request bodies, stream framing, token extraction, error mapping. |
| `src/git.rs` | Clone locations, file nodes, branch labels, git error mapping, churn. |
| `src/ports.rs`, `src/usecases.rs` | The ports adapters implement, and the use cases over them. |
| `src/order.rs`, `src/text.rs`, `src/paths.rs` | Orders and stable sorting, text and path helpers. |
| `app/` | The command-line program: libgit2, the filesystem, HTTP providers. |
| `tests/` | Tests of the library. |
