# pilar_core

The verified core of a knowledge-manifold builder, written in Verus.

- `src/` — the library, every function verified:
  - `text` — white-space splitting, trimming, lower-casing, joining and
    substring search over the character view of strings;
  - `ingest` — character-indexed sliding-window chunking with source lines;
  - `ner` — n-gram term extraction with the edges-only stop-word rule;
  - `tfidf` — corpus-wide occurrence counting with the occurrence floor;
  - `enrich` — model prompts, name validation, stable ranking of a
    concept's chunks by co-occurring high-signal terms;
  - `embed` — embedding-service configuration, errors and endpoint;
  - `geometry` — the three-way geometry class decision;
  - `sharding` — shard ids and the shard catalog that routes concepts.
- `app/` — the command-line program around it: file and HTTP I/O, TOML
  persistence, and everything computed in floating point (distances,
  eigenvalues, projections, TF-IDF scores and strengths).
- `tests/` — tests of the library on concrete values.
