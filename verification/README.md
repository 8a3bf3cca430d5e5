# ophelia

The download engine of a download manager, written in Verus.

- `src/` is the verified library: byte ranges and their canonical form
  (`ranges`), chunk-map snapshots (`chunk_map`), work stealing (`steal`),
  error classification, retries and the drain loop (`task`), chunk plans,
  resume and completion (`plan`), the transfers list and link helpers
  (`transfers`, `links`, `icon`), text helpers (`text`) and shared types.
- `app/` is a small command-line program that runs the HTTP pipeline
  (network, disk, timers, tasks) around the library's decisions.
- `tests/` exercises the library on concrete values.
