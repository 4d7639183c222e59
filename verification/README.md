# code_index

The core of a code index: it finds the source files of a repository, extracts functions,
classes, imports, calls and variables from them, keeps a database in step with the disk, and
serves answers to language models within a budget.

The library in `src/` is written in Verus. Every function states what it returns or changes, and
the properties that span functions are public proof functions whose names start with `law_`.

| Module | What it holds |
| --- | --- |
| `parser` | facts out of syntax trees: C, C++, C#, PHP, Ruby, Swift, BSL |
| `indexer` | which files are indexed, what is read, what is written, and in what order |
| `daemon_core` | the daemon, its workers, and how a batch of changes is applied |
| `federation` | other nodes: clients, answers to them, reloading the settings |
| `mcp` | cutting responses down to a budget, watching the settings |
| `serve_cache`, `serve_cache_history` | responses kept until a file they depend on changes; what holds over many calls |
| `serve_dedup` | rows that a session has already been given |
| `logging` | levels, rotation of journals, sizes and times in words |
| `json`, `keyed`, `paths`, `text` | values and texts that the others share |

Work that waits for something outside, such as the database or the network, is decided by state
machines: a value says what is to be done next, and takes how it went. The code around them is
in `app/`.

What other crates compute (`tree_sitter` and its grammars, `serde_json`, `globset`, `sha2`,
`hex`, `zstd`) is called through small functions marked `external_body`; the comment above each
of them says what is taken for granted.
