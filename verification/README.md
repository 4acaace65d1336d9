# claude_code_trace

The verified core of a viewer for the session transcripts (JSONL files) of a
coding agent: it reads a transcript's lines, resolves the live conversation
chain, detects whether a session is still working, orders and caches the
session picker, joins the running-session registry, reconciles bookmarks,
accounts for token usage, and formats version strings. Every function in
`src/` carries a contract that Verus proves, except the trusted wrappers:
the functions marked `#[verifier::external_body]`, each of which makes one
call into `serde_json`, `chrono` or `std` and whose contract Verus takes on
trust. Their doc comments say what each claims of the call.

Layout:

- `src/` — the library, verified with Verus.
  - `lines.rs` — complete-line framing of transcript bytes.
  - `json.rs` — the JSON values the logic reads.
  - `live_chain.rs` — live-chain resolution and entry selection.
  - `ongoing.rs` — one-pass ongoing detection.
  - `meta.rs` — session metadata: working directory, branch, mode, recap,
    model, turn count.
  - `tokens.rs` — token accounting: the incremental scanner with one best
    snapshot per request id over the main file and its subagent
    transcripts, and the token scan of the metadata.
  - `metadata.rs` — duration, first message, and the metadata of a session
    composed from all the scans.
  - `picker.rs`, `state.rs`, `dategroup.rs` — ordering, merging, caching and
    grouping of the session list.
  - `registry.rs`, `session.rs` — the running-session registry and its joins.
  - `bookmarks.rs`, `version.rs`, `net.rs`, `api.rs` — bookmarks, version
    strings, bind address and request checks.
  - `text.rs`, `strmap.rs`, `strset.rs`, `time.rs` — text, maps and sets of
    strings, time formatting.
- `tests/` — tests of the library.
- `app/` — the I/O around the library: files, environment, processes, clock,
  and JSON forms of its records.
