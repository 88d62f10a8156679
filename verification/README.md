# tmux-mcp-rs

The core of a server through which agents use tmux: they make sessions, windows and panes, run
commands and learn how they end, and explore large paste buffers by searching them.

`src/` is a library in Verus. What it computes is stated in contracts and proved:

- `tmux::args`, `tmux::keys`: the arguments of the tmux commands, keys in chunks, bytes in
  hexadecimal.
- `tmux::invoke`: the socket, the connection over `ssh`, the command line, the reply.
- `tmux::parse`, `tmux::recover`, `tmux::buffers`: what replies and listings mean.
- `tmux::matching`, `tmux::search`, `tmux::subsearch`, `tmux::window`: searching buffers.
- `commands`: markers around commands, the record of commands, asking how far one has got.
- `text`, `bytes`, `numbers`, `offsets`, `score`, `sequences`, `shell`, `types`, `errors`: what
  these are built on.
- `outside`: every call into another crate, with what is relied on.

`tmux::parse_laws` and `tmux::search_laws`, and the functions named `law_..` elsewhere, state what
holds of the library as a whole.

`app/` is the program around the library: arguments, configuration, processes and files. It serves
no tools, and it refuses a configuration with security settings, since it enforces none. `tests/`
holds the tests.
