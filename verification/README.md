# Verified logic for terminal widgets

This crate holds the state, geometry, text and document logic of a set of terminal
widgets (lists, tables, command palette, calendar, charts, code and diff views, a JSON
inspector, selectable text, a message composer and others), written in Verus. Every
executable function has a `requires`/`ensures` contract that Verus checks, and the laws
that tie several functions together are public proof functions next to them.

## Layout

- `src/` — one module per widget family; `text.rs` holds the shared text helpers and the
  few trusted specifications of `String` and `Arc` methods.
- `tests/` — ordinary Rust tests against the compiled library.

## What the crate does not do

- It builds no terminal nodes, styles, action descriptors or event handlers. Each widget's
  decisions (which rows are shown, what a row reads, which row a key moves to, what a copy
  request holds) are functions here; drawing them and wiring events is left to the caller.
- It does not segment text into grapheme clusters or measure terminal widths. Functions
  that need them take the clusters, their widths or their counts as arguments, and state
  in `requires` how those arguments must cover the text.
- Layouts are built afresh on each call: there is no memo of the last layout.
- Input events are the crate's own `InputEvent`, holding only what the widgets read:
  the key, the shift, control, alt and meta modifiers, key press, repeat or release,
  typed text, and the left or right mouse button.
- A JSON document finds a value by pointer with a scan of its preorder records rather than
  a hash map keyed by path. Objects never repeat a key, so no two records share a path and
  the scan finds the one record that has it.
