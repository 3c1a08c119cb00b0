# swaymnesia

Saves the layout of a sway session and brings it back on the next login.

```
usage: swaymnesia <save|restore|watch|dump> [path]

  save     write the current sway session to 'path'
  restore  start the programs recorded in 'path' and lay their windows out
  watch    rewrite 'path' whenever the session changes
  dump     print the session stored in 'path' as text
```

The path defaults to `$XDG_DATA_HOME/swaymnesia/session.swmn`, falling back to
`~/.local/share/swaymnesia/session.swmn`. Rules in
`$XDG_CONFIG_HOME/swaymnesia/config.toml` say which windows are left out:

```
[[ignore]]
app_id = "^org\\.example\\."

[[allow]]
title = 'Notes$'
```

## Layout

- `src/` is the library. All of it is verified with Verus.
  - `session.rs`: sessions, and their text form
  - `format.rs`, `format_laws.rs`: the session file, and what holds of writing and reading it
  - `capture.rs`, `capture_laws.rs`, `process.rs`: from sway's tree to a session
  - `restore.rs`, `restore_laws.rs`: from a session to commands for sway
  - `config.rs`, `toml.rs`: the rules, and the strings in them
  - `lib.rs`: loading a session file, and deciding when to rewrite it
  - `path.rs`, `text.rs`: paths and strings
- `app/` is the program around it: arguments, files, processes, and the connection to sway.
- `tests/` runs the library on concrete values.

What the proofs take on trust is stated in the contracts of a few small functions: compiling and
matching regular expressions (`config.rs`), turning bytes into strings (`format.rs`, `process.rs`),
quoting a string for `dump` (`session.rs`), and three operations of `String` and `char` (`text.rs`,
`toml.rs`).
