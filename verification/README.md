# dope_quic

The deterministic core of a QUIC endpoint, verified with Verus: what the bytes of a packet
mean, what a connection sends and when, which connection a datagram belongs to, and in which
order connections are served.

## Layout

- `src/varint.rs`, `src/wire.rs`, `src/frame/`, `src/packet/`: numbers, frames and packet
  headers on the wire. What is encoded decodes to itself.
- `src/qkdf.rs`, `src/hp.rs`, `src/packet_protection.rs`, `src/secrets.rs`: keys, header and
  packet protection, stateless reset tokens and Retry tokens. `src/primitives.rs` holds the
  cryptographic operations of other crates, each with the contract that is believed of it.
- `src/pn_space.rs`, `src/rtt.rs`, `src/new_reno.rs`, `src/pacer.rs`, `src/pmtud.rs`: packet
  numbers, round trip times, congestion control, pacing and the search for the longest packet.
- `src/range_buffer.rs`, `src/conn/`: streams. Bytes that arrive in any order are put together,
  bytes that are sent stay until they are acknowledged, and both sides keep to their limits.
- `src/conn/transmit/`: packets of a connection, from the choice of frames to the record that
  is kept of each packet.
- `src/mux/`: the router. It finds the connection of a datagram, answers with Retry packets and
  stateless resets, drives the connections in turn and keeps what waits to go out.
- `src/endpoint.rs`, `src/early_data.rs`, `src/errors.rs`: limits of an endpoint, what it does
  next, and protection against replayed early data.
- `app/`: the socket, the clocks, TLS storage and the callbacks of an application.
- `tests/`: examples that run against the compiled library.

The router takes no callbacks and reads no clock. A step that needs the application, TLS or
loss detection is handed out as a `Step`, and the caller hands back what came of it.

## Laws

Functions whose names begin with `law_` state what holds across several functions: that a frame
or a header is read as it was written, that a packet number is not accepted twice, that what is
written on a stream is what its reader gets, that a handle of a connection or a stream that is
gone stays without effect whatever is opened and closed afterwards, and others.

No more is sent to an unproven address than three times what came from it, with one exception:
a probe that repeats handshake bytes after a timeout goes out whole, though it may be longer
than what is left.
