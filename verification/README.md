# kymux

A media transport over QUIC: audio, video, data, input and metrics
endpoints multiplexed on one connection, with forward error correction
(RaptorQ) for the unreliable media protocols, clock synchronisation and a
local IPC server.

- `src/` is the library, verified with Verus: packet headers and record
  framing, sequence unrolling, FEC admission checks and object layout, the
  receive state machines of the audio and video FEC protocols, the GOP
  stream protocol, the control channel state, endpoint id allocation, the
  datagram pacer, clock synchronisation messages and estimates, URL parsing
  and the telemetry line. Calls into `raptorq`, `url` and `byteorder` go
  through small trusted wrappers whose contracts are stated in their doc
  comments.
- `app/` is the asynchronous side (tokio, quinn, rustls): TLS and transport
  configuration, connections, routing, the I/O loops of each protocol and
  the IPC sockets. The protocol decisions (what to send, what to hand out,
  what to refuse) come from the library; the count of repair symbols, which
  is computed in floating point, stays in `app/`.
- `tests/` exercises the library on concrete values.
