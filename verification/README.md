# Wynn Browser

A privacy-focused web browser with vertical tabs, workspaces, a command palette
and a password manager. What the browser decides and computes is a library,
written in Verus and proved against its contracts; the program around it draws
the windows, talks to WebKit and keeps the database.

## Layout

- `src/`: the library.
  - `command_palette`, `settings`, `history`, `bookmarks`, `downloads`,
    `window`, `browser_tab`, `webview`, `database`: the browser's features, as
    tables and decisions on plain values.
  - `adblocker`: the blocklist, and the scripts and rules made of it.
  - `passwords`: the encrypted credential store.
  - `keepassxc`: a client for KeePassXC's browser protocol.
  - `crypto`, `json`: the outside functions that these rest on, each with the
    contract that is believed of it.
  - `text`, `encoding`, `script`, `sorting`, `records`, `number`: what they
    share.
- `app/`: the GTK program.
- `tests/`: the library on concrete values.

Each module ends with its laws: proof functions named `law_..` that state what
holds of several operations together.
