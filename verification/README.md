# mcp_session_journal

A durable, append-only JSONL journal of investigation sessions. Each
session lives in `<dir>/<session_id>.jsonl`; when a file reaches the size
limit, writes roll over to `<session_id>.jsonl.1`, `.2`, and so on.

- `src/` is the verified library (Verus). It decides file names and which
  fragment a line goes to, finds a session's fragments in a directory
  listing, replays fragments into one chronologically ordered list
  (stable by timestamp), reports the first corrupt line with its 1-based
  number, rebuilds a session's state and summarizes sessions. `src/laws.rs`
  states and proves properties that span these operations: rotation is
  invisible to replay, a corrupt line is never skipped, an appended entry
  is read back, summaries agree with loaded state, and file names and
  sessions correspond one to one.
- `app/` is the file-system layer: it lists the directory, reads and
  appends lines, and encodes and decodes entries as JSON with serde.
- `tests/` exercises the library on concrete journals held in memory.
