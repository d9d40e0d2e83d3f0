# codex-mcp-server

The Codex MCP server's own logic, verified with Verus: which transport a
`--listen` URL names, what a command line asks for, what an HTTP path is
answered with, and where each message of a session goes.

- `src/` is the library. Every function in it carries a contract that Verus
  proves, except for two small calls into rmcp whose contracts are believed.
  - `transport`, `socket_addr`: `stdio://` and `http://IP:PORT[/PATH]`
  - `args`: `--listen`, `-c`, `--config`
  - `session_runtime`, `outgoing_message`, `server_info`: one session
  - `session_laws`: what holds of whole sessions
  - `http_runtime`: the paths of the HTTP server
  - `text`, `number`: strings and numerals
- `app/` is the program: it reads the command line, opens the transport, and
  performs what the library decides.
- `tests/` runs the library.
