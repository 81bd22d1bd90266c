# log_print

A local tool that collects, reads, transforms and archives logs for developers
and agents. A Core process keeps a bounded in-memory buffer per stream and
forwards records between Input and Output plugins over a small JSON protocol
(`log-print/2`, TCP by default, UDP optional).

This crate is written in Verus. Its library (`src/`) holds the logic with
machine-checked contracts:

- `stream`, `registry`: per-stream buffers that overwrite their oldest records
  when full, writer ownership, read authorization, stream creation and
  re-association of Output plugins without feedback cycles.
- `config`: the configuration rules, including the absence of stream cycles.
- `proto`, `limits`, `text`, `order`: bounded newline framing, datagram limits,
  option ranges and small text utilities.
- `saved`, `history`: streams whose history is kept on disk: idempotent
  publication by key, cursor and epoch checks on reads, blocking after a
  failed write, and the checks on saved segments, their catalog and room.
- `reorder`, `reorder_laws`: the transform output's source reordering, with
  its conservation laws (every record fed is released, waiting or counted as
  a duplicate) and its ordering laws (each channel releases strictly
  increasing source sequences across feeds, expiries and flushes).
- `archive`: archive configuration, its stop after a target's error,
  per-target confirmed and written cursors,
  gaps, index replay, the check of confirmed file prefixes against their
  digests, the audit of stored SQLite history (rows read from their stored
  text and content hashes), and commit batching of the file output.
- `plugins`, `plot`, `replay`, `supervisor`, `frames`: plugin configuration
  checks and control answers, shell quoting, line framing and counters of
  plotted streams, the plot sessions' limits, point budget, revisions and
  bounded retention, replayed line timestamps, the supervisor's start-up
  checks and plugin readiness, and the frame types of the first protocol.
- `proto` also decides a plugin's registration from the Core's welcome.

`app/` is ordinary Rust around the library: serde forms of the wire types,
async framing, the Core's TCP service and the supervisor's readiness wait.
`tests/` exercises the library on concrete values.
