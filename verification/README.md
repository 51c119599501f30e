# wiregraph

Traffic aggregation behind a network visualiser, written in Verus.

- `src/` is the verified library:
  - `models.rs`: addresses, hosts, flows, events, protocol classification, subnet rendering.
  - `topology.rs`: the live host/flow topology, its event buffer, and the conservation laws.
  - `packet_store.rs`: the bounded packet store (oldest-first eviction), filters, paginated queries and conversation summaries.
  - `server.rs`: request URL splitting and endpoint routing.
  - `capture.rs`: what the capture loop does with each parsed frame.
  - `text.rs`: character-level helpers.
- `app/` is the program around it: command line, capture with netgrep, the tiny_http server,
  and the JSON copies of the library's values (times in seconds, addresses as text).
- `tests/` exercises the library.

Times inside the library are microseconds since the Unix epoch.
