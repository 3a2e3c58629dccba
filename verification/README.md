# retsend

The core of a LocalSend client for retro handhelds, verified with Verus: the
rules for names a peer sends, the path model, the file browser, folder walks,
the stale-part sweep, the outbound send and the input mapping.

## Layout

- `src/` — the verified library.
  - `text.rs`, `fspath.rs`: characters, splitting, and the path model (a root
    flag and components), with the order `std::path::Path` sorts by.
  - `files.rs`: file-name hygiene for received files, destinations, MIME types,
    part files, and the directory listing.
  - `walk.rs`, `expand.rs`: a folder walk, the expansion of picked sources, and
    the sweep of stale part files, as machines that ask for one directory
    listing at a time.
  - `selection.rs`, `browser.rs`: the file browser's picks and its state
    machine; directory loads are left pending for the caller to serve.
  - `outbound.rs`: an outbound send as a state machine over the peer's replies.
  - `protocol.rs`: the wire types, peer-name clamping and random tokens.
  - `keyboard.rs`, `gamepad.rs`, `command.rs`: input to commands.
  - `disk.rs`: the two disk queries the library asks itself.
- `tests/` — tests run against the compiled library.
- `app/` — the edges: JSON, SDL input and signals, display settings, and the
  disk and network work that serves the library's machines.
