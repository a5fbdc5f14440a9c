# lms_server

A headless, OpenAI-compatible server for local language models, with
workspaces of documents that answers can cite.

`src/` is the verified library: every function there carries a contract
that Verus proves.

- `documents`, `chunk_spec` — sentence-aligned chunking of text, page
  lookup, and parsing of text, PDF (lopdf) and DOCX (docx-rs) files.
- `document_manager`, `vector_store`, `rag` — file types of uploads, chunk
  metadata, the vector search query, and prompts with numbered citations.
- `models`, `inference` — the registry of model files, and the decisions
  around `llama-server` processes (accelerator, binary, command line,
  ports, readiness polling, streamed payloads).
- `auth`, `rate_limit`, `metrics` — API keys, per-client token buckets,
  request metrics and their Prometheus export.
- `api`, `types`, `workspace`, `chat_sessions`, `repository`, `db`,
  `config` — API records, error bodies, replies, workspace settings and
  start-up settings.
- `strutil`, `paths`, `clock`, `assoc` — string and clock helpers, and
  association lists (the value of the first entry for a key).

Public proof functions state the library's laws (chunking, token-bucket
bursts and retry times, path normalization, authentication, search
placeholders, page positions, the port table, workspace updates, the
histogram buckets, the citations in a prompt); `TextChunker::chunk_text`
carries the chunking laws in its own contract: every chunk is a run of
the text's Unicode sentences, from where its first sentence starts to
where its last one ends. Stateful types (metrics, rate
limiter, token bucket, model registry, port table) keep their invariants
as Verus type invariants.

`app/` is the program around the library: the HTTP server (axum), the
SQLite database (sqlx), the model server processes and their HTTP API
(tokio, reqwest), directory scanning (walkdir), the floating-point
parts (embeddings, similarity ranking, sampling temperatures), and the
PDF and DOCX readers (lopdf, docx-rs). Both readers panic on some
malformed files, so `app/readers.rs` runs them under `catch_unwind` and
hands the library what they read (page texts, Info strings, paragraph
texts) as plain values; `DocumentParser::parse` builds the document from
those.

Types that the API serialises exist twice: the library holds the bare
type its contracts speak of, and `app/wire.rs` holds a copy with the
serde and sqlx derives and conversions both ways. The stored-document
record is `DocumentRecord` in the library and `Document` in
`app/wire.rs`.
