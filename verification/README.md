# nylon

A memory engine for agents: memories are nodes of filaments (fact, emotion,
time, relations, confidence, frequency) in a graph, recalled by context
resonance and vector search, persisted through a write-ahead log and
snapshots.

- `src/` is the verified library (Verus): the `.nylon` wire format, the CSR +
  delta memory graph with tombstones and compaction, the log record and
  snapshot formats with their replay, CRC-32, API-key tables and
  authorization, the audit ring, tenant isolation of every read and link,
  reply reading for the chat model, heuristic relation tags, and the request
  checks of the service. Real-valued filaments are carried as `f32` bit
  patterns.
- `app/` is the process around it: files and the log writer thread, the
  HTTP gateway (axum), the MCP server (rmcp), the embedding and chat clients
  (reqwest), the HNSW index, and the real-valued scoring (tension,
  resonance spreading, similarity).
- `tests/` exercises the library.
