# talon_core

The core of Talon, a search and indexing engine for Obsidian vaults,
written in Verus: the text processing (front matter, wikilinks, inline
tags, markdown chunk assembly, Unicode normalization), the search logic
(query syntax, FTS5 query sanitizing, SQL plans for the retrievers and the
pre-filter, anchors, match text, excerpts, intent alignment, the hybrid
pipeline's decisions, the metadata row of each fused result), the tool
contracts, the sync lock protocol and the `sqlite-vec` table schema.

- `src/` is the verified library. Every public function states in its
  contract what it returns; the laws that relate several functions are
  public proof functions beside them.
- `app/` is plain Rust around it: the SQLite queries, the floating-point
  scores and their fusion, the YAML parse, the markdown splitter run, the
  lock file on disk and the `sqlite-vec` registration. It takes every
  decision on text and integers from the library.
- `tests/` runs the library on concrete values.
