# slack_adapter

Search over Slack's web app, as a verified library.

- `src/query.rs` — `Scope` and `SearchQuery`, and the rendering of a query to
  one Slack search string per scope: modifier, `in:#channel`, exclusive
  `after:`/`before:` bounds for an inclusive date window, free text.
- `src/date.rs` — calendar dates (year, month, day) with chrono's range and
  neighbours; chrono computes the previous/next day and the `YYYY-MM-DD` text.
- `src/search.rs` — the in-page search script, reading the endpoint's answer
  (errors, rows, truncation notice, Slack `ts` to RFC 3339), and merging the
  per-scope results: first result per permalink, sorted by timestamp.
- `src/map.rs` — filling the site-map template with workspace and team id.
- `src/text.rs` — char-level helpers (trim, replace, decimal rendering, order).
- `app/` — the CLI and the browser session (I/O), which hand plain values to
  the library.
