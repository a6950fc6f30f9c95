# beacon_core

The browser core of the Gosub Beacon browser, minus the window: tab bookkeeping and the
tab strip, recently-used and recently-closed tabs, the reaction to engine events and to
user gestures, downloads, the developer panel's data (log buffer, folded network
requests, body eviction, size and duration formatting), the generated pages (error page,
`view-source:`, bookmarks), the session file, and how text typed into a settings
editor becomes a value of the setting's type. Everything in `src/` is verified with
Verus: each public function states what it returns or changes, and the laws that tie the
operations together are proved as public proof functions.

Layout:

- `src/` — the verified library, one module per concern (`tab`, `state`, `beacon`,
  `download`, `devtools`, `session`, `error_page`, `source_page`, `pages`, `paths`,
  `settings`, `cli`, `event`, `command`, `platform`, `text`).
- `tests/` — ordinary Rust tests of the library, including comparisons of the integer
  formatting of sizes and durations against Rust's own float formatting.
- `app/` — the command-line program around the library: argument parsing, the
  environment, the clock, the file system, the process logger, and the few floating-point
  views a frontend draws.
