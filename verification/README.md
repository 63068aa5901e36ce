# skingetbe

A Minecraft Bedrock Edition skin catcher: a small RakNet + Bedrock server that lets a
client log in, saves the skin it sends as a PNG with a JSON sidecar, and disconnects it.

The protocol logic is a library verified with Verus (`src/`); the program around it
(`app/`) does the sockets, the clock, the files and the console.

- `src/util/` — the byte buffer (integers, VarInts), text helpers, `config.jsonc`
  handling (comment stripping, normalisation, formatting), STUN request/response,
  log levels.
- `src/crypto/` — JWT splitting, base64url payload decoding, JSON value lookup.
- `src/bedrock/` — batches (compression framing, VarInt packet lists), Bedrock packet
  ids, responses, the protocol/version table, Login parsing and skin extraction, PNG
  encoding and capture file names.
- `src/raknet/` — frame-set parsing, outgoing frames and fragmentation, sessions with
  ordered channels and pending reliable frames, ACK/NACK and retransmission, the
  unconnected handshake, and the server that routes each datagram and says what to send.
- `src/cli.rs` — command-line options.

The server never touches the network: `RakNetServer::handle_packet` takes a datagram,
the peer's address and the time, updates its state and returns the actions to carry out
(`Outgoing`: datagrams, frames to send, pauses, a capture to save, a session to drop).
`app/main.rs` runs the UDP loop and the resend worker and performs those actions.

Tests are in `tests/`.
