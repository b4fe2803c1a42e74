# rudis

A toy redis-compatible server and its test clients, with the protocol code
and the request logic verified by Verus.

- `src/de.rs` — the reader: one value from the front of a byte buffer, in the
  three variants of the protocol that the programs use (`Dialect`).
- `src/ser.rs` — the writer: strings, null, arrays of strings, tables.
- `src/value.rs` — protocol values and their model.
- `src/store.rs` — a string-keyed table (the server's data and subscriber lists).
- `src/server.rs` — what a request (`subscribe`, `GET`, `SET`, `PUBLISH`, in
  any case) does to the server and how it is answered; the published-message
  frames; the clock's text.
- `src/laws.rs` — what the reader gives back of what the writer wrote, that
  later bytes never change a decided read, and the laws of GET/SET/subscribe.
- `src/text.rs` — decimal numerals and UTF-8 validation of received bytes.
- `app/` — the programs: `serve`, `serve-key-value`, `client {basic|sub|pub}`,
  `raw-client` (sockets, threads, channels, and the redis crate).
