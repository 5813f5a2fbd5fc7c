# wicket_guard

Admissibility preflight for agent-authored diffs, verified with Verus.

A unified diff is parsed into per-file added and removed lines; each file
whose last path component names an authority-bearing surface (LICENSE,
COPYING, NOTICE, CODEOWNERS, SECURITY.md, in any ASCII case) yields one
`Bind` intent that cites the diff's content hash as caller-asserted
evidence. An admissibility kernel then judges each intent; the verdicts are
folded into one outcome and an exit status.

Layout:

- `src/diff.rs` — the diff parser, specified line by line over the text's
  lines as `str::lines` splits them.
- `src/surfaces.rs` — path classification.
- `src/cook.rs` — intents for the surfaces a diff touches.
- `src/digest.rs` — the SHA-256 content hash (through `sha2`) in hex.
- `src/clock.rs` — the system clock, and timestamps rendered through `chrono`.
- `src/intent.rs`, `src/verdict.rs` — the intent record, standings and
  verdicts, and how verdicts combine.
- `src/text.rs`, `src/order.rs` — character-level helpers and string order.
- `app/` — the command line: reading input, calling the kernel, printing.
