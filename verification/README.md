# query_trace

Trace context and SQL comments for database queries, verified with Verus.

A query carries an optional W3C `traceparent` and user-provided key/value
comments. Before a statement is sent to the database they are rendered into one
sqlcommenter comment: `key='value'` pairs sorted by key, keys and values
URL-encoded, then `traceparent='…'` when the trace is sampled.

Layout:

- `src/traceparent.rs`: parsing and rendering of the `traceparent` header, with
  the proof that the two are inverse.
- `src/ordering.rs`: the lexicographic order of keys and the stable sort by key,
  with proofs that it sorts, keeps every entry, is stable, and ignores input
  order when keys are distinct.
- `src/sql_comment.rs`: URL encoding and the construction of the comment.
- `src/sql_trace.rs`, `src/query_context.rs`: the trace information carried by a
  query.
- `src/json_body.rs`, `src/selection.rs`: the JSON request (single query or
  batch, selection sets) and the SQL comments of each query. The action of a
  query is kept as its text.
- `app/`: serde forms of the request types and `Display` for the trace types.
  JSON (de)serialization lives only there, so the tests under `tests/`, which
  see the library alone, do not cover it.
- `tests/`: tests run against the compiled library.
