# bcachefs_top

The verified core of the bcachefs `json` and `top` subcommands, which read
the stable counters of a mounted bcachefs filesystem and show them once as
JSON, as the difference of two snapshots, or in an interactive table.

- `src/counters.rs`: counter values by name (a vector of entries with
  distinct names, seen as a map), the order of `String` and the two sorts
  the table needs.
- `src/commands.rs`: dropping the program name from the command line.
- `src/commands/json.rs`, `src/commands/top.rs`: the command lines; which
  mode `top` runs in.
- `src/commands/top/json.rs`: one snapshot; reading counter values out of
  what the kernel wrote; the UUID answer, formatted by the `uuid` crate.
- `src/commands/top/utils.rs`: the difference of two snapshots and its laws.
- `src/commands/top/app.rs`, `events.rs`, `components.rs`: the state of the
  interactive view, what keys do to it, when it refreshes, and the rows and
  scroll position of the table.
- `app/`: command-line parsing (clap), the ioctls (nix, libc), JSON output
  (serde), and the terminal (ratatui, crossterm).
