# zellij_core

The parts of a terminal multiplexer's server that decide things, written in
Verus: each function states what it returns, and Verus proves it.

- `fd_daemon`, `fd_client`, `fd_table`: the daemon that keeps PTY master
  descriptors across upgrades of the server, its protocol, and its clients.
- `hot_reload`: which descriptors are stored, taken back and claimed.
- `retry_budget`: how often and how fast a client retries.
- `tab_jump`: the letters and digits by which tabs are jumped to.
- `session_layout_metadata`, `client_metadata`, `layout`, `manifest`: what a
  session tells of its tabs, panes and clients; `session_laws` states what
  holds across its updates.
- `logging`: where the log goes.
- `path`, `text`, `utf8`, `json`, `json_reader`: texts and paths.

`app/` is the daemon's process and the I/O around the library; `tests/` runs
the library on concrete values.

Descriptors are numbers here, paths are texts, and the environment, the clock
and the sockets stay in `app/`.
