# ws_bench

A WebSocket + Protobuf throughput benchmark: a client sends requests of
growing payload size and measures bytes and messages per second; a server
answers each request with a short receipt and charts what it receives.

- `src/` is the verified library (Verus):
  - `wire` — Protobuf varints, field keys and string fields, over `prost::encoding`;
  - `messages` — the `Request` and `Response` messages, their encoding, decoding
    (with the round-trip proved), and the texts they carry;
  - `decimal` — decimal notation of counts;
  - `metrics` — the server's counters, sample series and chart bounds;
  - `server` — what the server answers each WebSocket message with;
  - `burst` — the client's burst limit and how it adapts;
  - `bench` — the client's state and the state machine of a benchmark run.
- `app/` is the program around it: the actix-web server with its terminal view,
  and the egui client (WebSocket driver for the web build, a stand-in run for
  the native build).
- `tests/` runs the library on concrete values.
