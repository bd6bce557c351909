# search_index

A small full-text search library, verified with Verus.

- `src/` — the verified library: text splitting (`text`), tokenizer
  strategies (`tokenizer`), word filters (`filter`), documents with their
  word counts and sentences (`document`), the in-memory storage engine with
  its reverse index (`storage_engine`), query options and grouped query
  results, and which documents a search over all documents scores
  (`index`: the query's tokens and the stored documents listed for them).
- `app/` — what the verifier does not see: the file-backed asynchronous
  storage engine and its JSON records, the embedding model and the qdrant
  vector database, tf-idf scoring in floating point, and the `Index` that
  ties them together.
- `tests/` — tests of the library on concrete values.
