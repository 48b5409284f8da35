# st-sync

Beat-window synchronisation protocol. A producer publishes a sliding window
of absolute beat frames; consumers receive it over a length-prefixed,
little-endian wire format and keep a validated copy.

- `src/` — the verified library: wire format, consumer window, producer
  window, the producer's per-event decisions, the consumer's buffer
  draining and read API, and the protocol laws (`src/laws.rs`).
- `app/` — the TCP/tokio shell (listener, per-client writers, receiver
  task) and the floating-point beat position.
- `tests/` — executable tests of the library.
