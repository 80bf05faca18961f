# nomo_lsp

A language server for the Nomo programming language whose editor logic is
verified with Verus.

- `src/` is the verified library: text positions and edits (UTF-16 columns),
  formatting edits, semantic-token classification and encoding, inlay hints,
  signature help, hover text, completion, document and workspace symbols,
  navigation and rename edits, quick fixes, module paths, the upward search
  for the nearest `nomo.toml`, and the dependency-aware query cache with its
  SHA-256 fingerprints.
- `tests/` exercises the library on concrete documents.
- `app/` is the server process: the Language Server Protocol transport over
  stdin/stdout, the open documents, and the calls into the Nomo compiler and the
  file system, whose results it hands to the library.

The laws the library proves stand as public proof functions next to the code
they speak of, for example `lemma_fingerprint_ignores_override_order`,
`lemma_hints_sorted_and_in_range` and `lemma_completion_labels_distinct`.
