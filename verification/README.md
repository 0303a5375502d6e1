# ftgrep

grep-like full-text search with automatic indexing, Japanese morphological
analysis (lindera + IPADIC) and a character-bigram fallback, on top of tantivy.

The crate is a verified library with a thin command-line program around it.

- `src/` is checked by Verus:
  - `text.rs`: character-level helpers (trimming, searching, byte offsets).
  - `analyzer.rs`: the normalization shared by indexing and queries (NFKC,
    lowercase, katakana to hiragana, long-vowel-mark removal).
  - `matching.rs`: locating a normalized query in a text and mapping the match
    back to the original characters.
  - `japanese.rs`: the Japanese analyzer (Lindera, IPADIC) as highlighting
    uses it, and the texts of its tokens.
  - `highlight.rs`: which regions of a line are colored, and the rendering.
  - `order.rs`: the `--sort` orders of results.
  - `searcher.rs`: field qualifiers of a query, the rewriting of logical field
    names, the query plan, and the snippets of file results.
  - `indexer.rs`: glob patterns, frontmatter, the documents of a file, binary
    detection and the plan of a differential sync.
  - `meta.rs`, `registry.rs`: index metadata and the registry of named indexes.
  - `dispatch.rs`, `cli.rs`: the decisions of the command line.
- `app/` holds what Verus does not see: argument parsing (clap), the tantivy
  schema and analyzers, file-system walking, index writing and searching, JSON
  files, and output.
- `tests/` exercises the library on concrete values.
