# lean_ctx

The rules behind token-lean developer tooling, verified with Verus: rewriting
shell commands and tool calls in hooks, checking commands against an allowlist,
indexing and searching source code, searching files for a pattern, and listing
Jira issues.

- `src/` is the library. Every function states what it returns in its contract,
  and the laws that relate several functions are public proof functions whose
  names start with `law_`.
- `tests/` holds examples of all of it, run against the real outside crates.
- `app/` is ordinary Rust around the library: the environment, files, processes,
  the network, the encoding of the index, and the floating-point scores of a
  search.

| module | what it holds |
| --- | --- |
| `text`, `paths`, `ordering`, `string_table`, `base64`, `json` | the ground: text, paths, sorting, tables, encodings |
| `compound_lexer`, `shell_allowlist` | the segments of a shell command, and which commands are allowed |
| `rewrite_registry`, `hook_rewrite`, `hook_output`, `hook_handlers`, `hook_redirect` | the hooks |
| `tokens`, `chunks`, `bm25_index`, `bm25_scan`, `bm25_storage` | the BM25 index |
| `ctx_search` | the search for a pattern |
| `providers`, `jira` | the Jira provider |
