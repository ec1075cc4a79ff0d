# fux

The logic of `fux`, a terminal multiplexer, as a library whose behaviour is
stated in contracts and proved with Verus.

- `src/layout.rs`: a tab's layout, a tree of weighted splits whose leaves are
  panes: splitting, removing, swapping, normalizing, resizing, and placing
  the panes in an area. `src/layout/laws.rs` proves what these do to the
  panes in tree order; `src/layout/tiling.rs` proves that placed panes lie
  inside the area, never share a cell, and all get a rectangle when the area
  holds the tree's minimum size, and that then every pane is at least
  `MIN` cells either way and every cell lies in a pane or on a separator;
  separators lie inside the area and share no cell with a pane or with
  each other.
- `src/keys.rs`: key presses and their names (`C-b`, `S-Up`, `BTab`, `F5`),
  read and printed; a printed name reads back as the same key press.
- `src/encode.rs`: the xterm bytes for key presses and bracketed pastes,
  whose body never holds an end marker.
- `src/host/router.rs`: the input router that splits a client's bytes into
  what goes to the pane, commands after the prefix key, and mouse reports.
- `src/host.rs`, `src/host/session.rs`: mouse reports in a pane's encoding,
  key bindings, the command a pane starts with, and output event pacing.
- `src/host/geometry.rs`: the viewport laid out for, the popup stack, popup
  and pane sizes, and which pane a mouse event reaches and what it does.
- `src/host/input.rs`, `src/host/output.rs`: the operations routed input
  asks of the host, and what a pane's output changes in the shared
  metadata.
- `src/host/budget.rs`, `src/host/tabs.rs`: the resource budget that pane
  admission, scrollback and captures obey; moving between tabs and naming
  new ones.
- `src/local.rs`: the local attachment protocol's frames, handshake and the
  checks on a client's messages.
- `src/cli.rs`: what the program's arguments ask for; `rpc` parameters
  must be JSON, as `serde_json` reads it.
- `src/model.rs`: the session's model by entity number: selections,
  pane states, the registered identities, the structural checks every step
  must pass, and viewers attaching and leaving, with proofs that both keep
  those checks passing.
- `src/lifecycle.rs`: a pane's process from reservation to exit, and how
  reports and termination requests move it.
- `src/observer.rs`: how an observer child is started and which of its
  lines are reports.
- `src/pane.rs`: the input queue bounded by cost, the modes tracked from a
  pane's output, and a command line held until the shell is quiet.
- `src/json.rs`, `src/ids.rs`, `src/overlay.rs`, `src/pty.rs`,
  `src/numbers.rs`, `src/text.rs`: JSON and base64 output; identities, the
  counters that hand them out and workspace names; the prompt editor and
  other overlay rules; PTY write decisions and tracked-write receipts; and
  the number and text helpers they share. Base64 text is proved to read
  back as its bytes and to end in exactly the padding its length calls for.

`app/` holds the program around the library: its entry point, the clock,
locks, the PTY writer loop, and the serialized forms of the identities.
`tests/` runs the library on concrete values.
