# soup-engine

A game-agnostic server engine for real-time games. Clients speak a datagram protocol over UDP
(or TCP, or WebSocket); the game rules live in a logic server behind a Unix socket. The engine
does what every such game needs: handshakes, sessions that survive silence and address changes,
reliable and unreliable channels, fragments, budgets, and a link to the logic server that may
restart at any time.

The rules of the engine are a Verus library under `src/`: executable Rust whose contracts are
proved. It performs no I/O. Time comes in as nanoseconds, datagrams and frames come in as bytes,
and what is to be sent comes back as values.

| Module | What it holds |
|---|---|
| `protocol` | client datagrams, link frames, TLV messages |
| `reliable` | serial numbers, retransmission, round-trip times, fragments |
| `session` | sessions, handshakes, the session table, and what channel 2 promises |
| `engine` | the decisions between clients and the logic server |
| `transport` | stream framing, virtual peers, the way to each peer, a simulated network |
| `buffer`, `stats`, `routing`, `client` | buffers, metrics, handlers by id, reading TLV streams |
| `outside` | the functions of other crates that the proofs rely on, and what is assumed of each |

What holds of several functions together is stated in public proof functions, next to the
functions they speak of and in `session::ordering`, `session::window`, `session::table::budget`,
`session::table::laws` and `engine::laws`.

`app/` is the host: sockets, timers and tasks on tokio. `tests/` run the library as it is.
