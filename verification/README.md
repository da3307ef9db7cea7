# opendocu

Document parsing, structured extraction and chunking, verified with Verus.

- `src/` is the verified library: format detection; plain-text, Markdown,
  HTML, Word-body and EPUB-spine parsing into a document model; table,
  key-value and entity extraction; chunking strategies with byte offsets and
  token estimates; the hash embedder's tokens and features; and in-memory
  security primitives (rate limiting, role assignments, audit log). Each
  public function states its result in its `ensures`; the library's laws
  (chunk numbering, entity order, table shape, rate limits, role
  assignment, key-value lookup, encryption round trip) are proof functions.
- `app/` holds what stays outside the proofs: JSON serialisation, timed and
  parallel extraction, the PDF/DOCX/EPUB readers, float-valued embeddings,
  vector search and retrieval, environment configuration and the C ABI.
- `tests/` exercises the library on concrete inputs.

Not included: document reduction (`reduce`, `batch_reduce`, `reduce_stream`
and the C entry point `opendocu_reduce`), which rests on a summariser
(TextRank, key points, compression) and a document-structure library that
are not among this crate's dependencies; and the RAG pipeline's answer step
(`RagPipeline` with its `Generator` and `LocalEchoGenerator`), which needs
an answer generator that this crate does not have. Chunking, embedding, vector
search and retrieval, the other steps of that pipeline, are here. The
event-stream collector in `app/stream.rs` hands back the reduced document
its `Done` event carries as JSON text.
