# cursor-bridge, verified

A local HTTP proxy that lets the coding assistant's command-line client run on
Cursor's agent. The library under `src/` holds the proxy's logic, each function
with a contract that Verus proves:

- `text`, `number`: trimming (Unicode `White_Space`), literal comparison, base-10
  and base-16 parsing as `usize::from_str_radix` does it, base-10 rendering.
- `http`: the request line, the headers (`Content-Length`, chunked transfer),
  chunk sizes, routing, and the fixed and JSON responses.
- `json`: JSON string literals (through `serde_json`) and the Anthropic
  messages-API objects, keys in `serde_json`'s sorted order.
- `prompt`: the request as the prompt reads it, and the prompt itself.
- `agent`: the agent's command line, the streaming state machine, and the
  whole-message reply, with the laws that hold of every stream.
- `session`: the client's command line and environment, and the token sources.

`app/main.rs` is the program: sockets, threads, child processes, serde
deserialisation of the request and of the agent's output lines.
