# Alkyon

A portable data workbench: real dialect SQL against PostgreSQL, MySQL, SQL Server,
Microsoft Fabric and MongoDB, folders of data files queried as tables, and federation
through DuckDB where a query needs more than one of them.

The workbench's decisions are a library verified with [Verus](https://github.com/verus-lang/verus):
what a function returns or changes is stated in its contract, over the specification
functions beside it, and what holds of several of them together is stated by the proof
functions whose names begin with `law_`.

## Layout

| Where | What |
| --- | --- |
| `src/model.rs`, `src/error.rs`, `src/json.rs` | sources, credentials, columns, rows, errors, JSON |
| `src/state.rs`, `src/vault.rs`, `src/settings.rs` | the registry of sources, where secrets are kept, settings |
| `src/workspace.rs`, `src/tree.rs`, `src/paths.rs` | the open folder and what may be reached in it |
| `src/schema.rs` | schema snapshots and searching them |
| `src/connectors/` | what is asked of each kind of source, and what its answers mean |
| `src/federation/` | the directives of a federated buffer, and the session that runs it |
| `src/azure/` | signing in with Microsoft Entra, and Azure storage |
| `src/llm/` | the text sent to a model, and what is kept of its answer |
| `src/api/`, `src/assets.rs`, `src/startup.rs` | pages of a result, the query socket, the terminal, the rest of the server |
| `src/text.rs`, `src/order.rs`, `src/table.rs` | strings, sorting and tables of strings, with their lemmas |
| `tests/` | the library on concrete values |
| `app/` | the program: HTTP, drivers, files, the keychain, the window |

Every call into another crate that the library makes stands in a function marked
`#[verifier::external_body]`, with a comment on what its contract takes for granted.

The library does no I/O. A function that needs something from outside takes it as an
argument, or says what is to be done and is told the outcome; `app/` does the rest.

The program also needs `duckdb`, and `tauri` for the window; `keyring` needs the feature of
the platform's own store.
