# protohackers

Small network services whose logic is verified with Verus.

- `src/` — the verified library: binary searches and the price store
  (`binary_search`, `price_store`), the primality answerer (`prime`), the
  key-value store (`kv_store`), the chat room, its sessions and line framing
  (`chat`, `line`), the read buffer (`buffer`, over `bytes::BytesMut`) and
  text helpers (`text`).
- `app/` — the servers: sockets, tasks, JSON and logging around the library.
  Run with the number of a service: 0 echo, 1 primes, 2 prices, 3 chat
  (mutex version), 4 key-value store over UDP, 5 chat (message passing).
- `tests/` — tests of the library.
