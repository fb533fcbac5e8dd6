# control_daemon

A daemon that keeps track of a Counter-Strike server over RCON and answers
chat commands (`!ping`, `!map <name>`, `!restart`) read from the server's UDP
log.

- `src/` is the verified library (Verus):
  - `text` — a character-level model of the `str` operations the parsers use
    (`find`, `trim`, `lines`, `split_whitespace`, unsigned parsing, decimal
    printing) and verified implementations of them;
  - `status` — the server state and the parser for the `status` command's
    output;
  - `chat` — reading chat messages from log lines, splitting commands, and
    deciding what to do with them;
  - `commands` — the command router and the RCON command each handler sends;
  - `config` — settings from the environment's values, and the RCON address;
  - `retry` — the retry decisions (tries, doubling delay capped at 5 s);
  - `monitor` — the polling monitor's record.
- `app/` is the program: environment, sockets, RCON connections, timers and
  the global state.
- `tests/` holds scenario tests and tests that compare the library's text
  handling with the standard library's.
