# flexfind

The indexing and search core of FlexFind, a tray-resident file-name search
tool for Windows, written in Verus: the functions in `src/` carry contracts
that Verus proves, except the small wrappers marked
`#[verifier::external_body]` around calls into chrono, memchr, image,
base64 and std (lowercasing, `String::push`, `Arc::clone`, the system clock). Their contracts
are trusted, not proved: each one's doc comment says what it claims of the
outside function, and everything else is proved on top of those claims.

## Layout

- `src/types.rs` — the packed per-root index (`IndexArena`): string tables,
  interned directories and extensions, the builder, structural validation.
- `src/query.rs` — the query language (`ext:`, `path:`, `size:`, `dm:`,
  `!negation`, quoted phrases), its parser and the compiled per-arena
  matcher, with the laws that tie the compiled form to the query's meaning.
- `src/engine.rs` — the multi-root engine: search (scope filter, top-k
  selection, UTF-16 highlight spans), scan bookkeeping with generations,
  and installing persisted indexes.
- `src/pathmatch.rs`, `src/walker.rs` — path-prefix matching on separator
  boundaries and the walk's exclusion and filter decisions.
- `src/persist.rs` — index file names, header and payload acceptance.
- `src/settings.rs` — the settings model, column normalization and drive
  reconciliation.
- `src/reindex.rs` — the refresh schedule as a state machine.
- `src/icons.rs`, `src/shell.rs`, `src/windows.rs`, `src/tray.rs`,
  `src/sibling.rs` — the decisions behind icons, dated copies, the hotkey,
  the tray menu and the exit policy.
- `src/text.rs`, `src/order.rs` — byte-string helpers and orderings.
- `app/` — ordinary Rust around the library: files on disk, drive
  detection, the directory walk, threads and timers, shell actions.
- `tests/` — tests of the library on concrete values.
