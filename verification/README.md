# Sulafat core

The verified core of Sulafat, a GTK front end for `~/.ssh/config`.

- `src/` is the library, verified with Verus:
  - `ssh_config/`: a fidelity-preserving model of the config file (parsing, rendering,
    editing a host block in place, listing hosts) with its laws in `ssh_config/laws.rs`;
  - `command.rs`: the `ssh` argv for a saved alias or a quick-connect entry;
  - `metadata.rs`: per-host UI metadata (group, color, notes);
  - `i18n.rs`: placeholder filling and session-locale selection;
  - `ui/`: what the desktop window decides (copy names, `sftp://` locations, row order,
    search, colors, the session badge, terminal settings, and what each host action does
    to the config and the metadata);
  - `text.rs`, `num.rs`: the character and decimal building blocks.
- `app/` is the desktop program: widgets, file and D-Bus I/O, and the serde forms of the
  library's types.
- `tests/` exercise the library.
