# hypforward

The verified core of HypForward, a Minecraft forwarding proxy that listens on
local TCP ports, rewrites the target host and port of each client's first
handshake packet, and then forwards both directions.

- `src/varint.rs`: the VarInt codec (`encode_varint`, `read_varint`, and a
  byte-at-a-time `VarIntDecoder`), with the proof that reading gives back what
  was written.
- `src/handshake.rs`: the handshake format, `rewrite_handshake` (which keeps a
  Forge/FML NUL suffix of the host field), the frame-length check, and proofs
  that a rewritten packet reads back as the intended handshake and that
  rewriting is idempotent.
- `src/config.rs` and `src/text.rs`: forwarding rules `LISTEN=TARGET` from the
  command line or the `HYPFORWARD_SERVERS` environment variable, target
  parsing and formatting, and the proof that accepted rules never listen on the
  same address twice.
- `src/error.rs`: protocol errors as plain values.
- `app/main.rs`: the Tokio program: sockets, listen-address parsing with
  `std::net`, and the forwarding loop.
