# athenaeum

Verified core of a local-first semantic-search library over personal books
and papers: documents are turned into cited passages (title plus page, or
chapter and section), chunked at sentence boundaries with overlap, and
written to a vector store under a per-document dedup key.

## Layout

- `src/` — the library, verified with Verus.
  - `text.rs`: Unicode whitespace, trimming, words, joining, decimals.
  - `chunking.rs`: sentence splitting, token estimates, overlap, chunking,
    and the laws the chunker keeps.
  - `extract.rs`: reading PDF and EPUB bytes (through pdfium-render and
    epub), PDF page assembly, EPUB spine items (headings, tag stripping),
    Markdown front matter and sections, and the heading attribution law.
  - `ingest.rs`: extractor choice, chunks of a document, citation locations,
    the passages written per document.
  - `store.rs`: passage rows, SQL quoting of the dedup key, batch checks.
  - `embed.rs`: embedder input and response checks, deterministic embedders.
  - `discovery.rs`: supported extensions and the path order of discovered
    files.
  - `spike.rs`: the parser canary, the text of PDF and EPUB bytes.
  - `engine.rs`, `config.rs`, `error.rs`.
- `tests/` — tests of the library.
- `app/` — the command-line program: HTTP embedding, the LanceDB store,
  file reading, directory walks, and the async plumbing around them.

`app/store.rs` uses `lancedb` and the `arrow` crates, which are not among the
dependencies in `Cargo.toml`: with them the lock file grows to some 570
packages, far more than the rest of the project pulls in, so they are left
out and `app/` builds only where they are added.
