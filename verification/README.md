# ferricula

A thermodynamic memory engine for agents: memories are rows with tags and
vectors, they decay, are forgiven, consolidated and archived in dream cycles
driven by radio entropy, and they are linked in a knowledge graph and a
prime-partitioned term hierarchy.

## Layout

- `src/` — the library, written in Verus. Every function carries a contract
  that Verus proves: tokenising and stemming, Pali term expansion, the
  I-Ching and zodiac casting of an identity, archetype state, the entropy
  reservoir and clock decisions, HTTP routing and JSON escaping, the query
  planner's rules, the memory graph, the prime tree, the tag index, SQL
  queries from their text to the ids they select (parsed with `sqlparser`),
  the lifecycle phases of a dream and the bookkeeping of a knowledge-graph
  update, BM25 corpus counts, the WAL framing, the vector transform and key
  derivation. Laws that relate several operations
  (a disconnect undoes a connect, a delete undoes an upsert, decryption
  undoes encryption, a WAL reads back what was appended, consolidation moves
  edges to the survivor, the answer to an SQL text is determined by the text
  and the computed leaves, ...) are public proof functions beside the code
  they speak of.
- `tests/` — tests of the library on concrete values.
- `app/` — the program around the library: the REPL and HTTP service, file
  and network I/O, the radio clock thread, persistence with `postcard` and
  `serde_json`, and the floating-point parts (fidelity decay, BM25 scores,
  cosine similarity and vector search, comparisons on floating-point virtual
  columns, SKG dynamics).

Calls into outside crates that the library makes (`roaring`, `hex`, `hkdf`,
`x25519-dalek`, `sqlparser`, `serde_json`, parts of `std`) go through small trusted wrappers whose
contracts state what those crates document.
