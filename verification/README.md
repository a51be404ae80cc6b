# costree

A disk-usage browser for the COSMIC desktop, built around a library whose
logic is proved with Verus.

## Layout

- `src/` — the verified library.
  - `path.rs`: paths as normalized components, with `starts_with`, `join`,
    `parent`, `file_name` and rebasing.
  - `entry.rs`: the scanned tree (`Entry`): building directory entries,
    finding, removing and renaming entries, and the laws that keep sizes
    consistent.
  - `index.rs`: the flat, lowercased search index and the search itself.
  - `pathset.rs`: a hashed set of paths.
  - `format.rs`, `text.rs`: human-readable sizes and times, text helpers.
  - `roots.rs`: the quick-pick roots read from the mount table.
  - `saved.rs`: the saved-index snapshot.
  - `status.rs`: the scan generation that cancels background scans.
  - `walk.rs`: a recursive scan run one path at a time, for the program
    around it to read each path it asks for.
  - `app.rs`, `driver.rs`: the application state as a step function from
    state and message to new state and effects.
  - `rows.rs`, `view.rs`: what the window shows.
- `app/` — the program around it: the COSMIC window, background tasks and
  all filesystem work.
- `tests/` — tests of the library.
