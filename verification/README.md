# tuzi-proxy

A TCP proxy that watches the first bytes of each connection to tell which
protocol it speaks (HTTP/1 or Redis), logs what it reads, and forwards the
bytes unchanged.

- `src/` is the library, checked by Verus: the streaming grammars of HTTP/1
  request lines, header lines and status lines and of Redis commands and
  replies (`grammar`, `parse::http1`, `parse::redis`), the receive loop state
  (`parse::ReceiveParser`), protocol detection on a complete first packet
  (`detect`), the per-connection decisions of the upstream and downstream
  sides (`bound`), and the shared buffer view (`stream`).
- `app/` is the program around it: command line, sockets, channels, tasks and
  logging.
- `tests/` exercise the library on concrete inputs.
