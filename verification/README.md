# wslforward

The logic of WSLForward, a Windows desktop tool that manages the WSL2 port
forwarding rules of `netsh interface portproxy`, written in Verus with its
contracts proved.

- `src/` is the verified library:
  - `text` — the string handling the parsers rest on (lines, trimming, words,
    splitting, `u16` parsing, decimal printing), each against a spec function;
  - `netsh`, `firewall`, `wsl`, `docker` — the readers of the tools' output,
    the firewall scripts, and the fallback searches for listening ports and
    containers, as state machines that say which command runs next;
  - `command` — command lines, and what a finished command reports;
  - `data` — one refresh of the window, put together from those findings;
  - `watch` — the decisions of the registry watcher;
  - `types` — the data the window receives, with their models;
  - `unicode` — the trusted calls into std's case mapping and lossy UTF-8
    decoding.
- `tests/` runs the library on concrete inputs.
- `app/` is the Tauri app around it: it runs the processes, probes sockets,
  watches the registry, and carries the serde copies of the data types.
