# stagepal

Verified core of a stage pad player: musical keys and their spellings, presets
that map pad audio files to keys, the folder scan that builds them, the merge
that keeps manual key assignments across re-scans, settings with per-device
routing memory, and the script given to the Windows speech engine for spoken
cues.

- `src/` — the verified library: `key`, `text`, `order`, `model`,
  `library`, `cues`, `clock`, `pad`.
- `tests/` — tests that run the compiled library.
- `app/` — unverified glue: serde copies of the data types, folder listing,
  the PowerShell speech process, and the floating-point pad synthesizer.
