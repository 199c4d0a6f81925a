# mnemos

Knowledge storage and recall for Converge formations, with its core verified
by Verus.

## Layout

- `src/` — the verified library.
  - `policy.rs`: prior-consultation policy.
  - `provenance.rs`: the `mnemos` provenance marker.
  - `error.rs`: errors and their messages.
  - `text.rs`: the std character and number-formatting calls the logic uses.
  - `lexical.rs`: lowercase lexical tokenization for exact-term recall.
  - `bm25.rs`: query terms, document and term frequencies for BM25.
  - `fusion.rs`: which 1-based ranks each document contributes to reciprocal
    rank fusion.
  - `entry.rs`: knowledge entries and search scope filters.
  - `table.rs`: the `DashMap` entry table and the `uuid` calls.
  - `knowledge_base.rs`: the in-memory knowledge base, its invariant and laws.
  - `ranking.rs`: the walk from ranked candidates to results.
  - `suggestor.rs`: the decisions and fact names of the knowledge suggestors.
- `app/` — serde and `std::error::Error` forms of library types, the
  floating-point scoring (cosine, BM25, RRF, MMR), search orchestration,
  tracing spans and the Converge suggestor implementations.
- `tests/` — tests of the library.

## Not present

The on-disk storage backend (and so reopening a saved knowledge base and
`flush`), the embedding engine and the learning engine are not part of this
crate: the knowledge base lives in memory, `load_entries` takes entries that
a caller has read from storage, and `app/` is handed an embedding function.
