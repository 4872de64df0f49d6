# hhm-libs, verified

Runtime-light libraries for Hacker House Medellín, written in Verus.

- `src/contracts.rs` — event envelopes: namespaced event kinds and envelope validation.
- `src/routing.rs` — severity classification and deterministic event partitioning.
- `src/intelligence.rs` — fail-closed chat/search surface authorization, opaque
  identifier rules, and the non-numeric checks on embeddings, candidates and
  regression cohorts; laws of the surface policy as proof functions.
- `src/ranking.rs` — the candidate order (score, then id, then position), the
  top-k selection, and the proofs that this order is unique and does not
  depend on the order in which the candidates come.
- `src/text.rs` — character classes, `trim`, ASCII lowercasing, string equality
  and decimal text, each stated over the `Seq<char>` view.
- `app/lib.rs` — the floating-point half (embedding normalization, cosine
  similarity, similarity ranking, linear regression), which calls the verified
  checks and ordering in `src/`.
