//! Verified core of a Minecraft forwarding proxy: the VarInt codec, the
//! rewrite of a client's handshake towards another server, and the reading
//! of forwarding rules.
pub mod config;
pub mod error;
pub mod handshake;
pub mod text;
pub mod varint;

pub use config::{
    check_forwards, parse_forwards, parse_selected, parse_target, rule_listen_text, select_rules, ConfigError,
    Forward, ListenAddr, ResolvedListen, DEFAULT_SERVERS, SERVERS_ENV,
};
pub use error::{invalid_data, unexpected_eof, ErrorKind, WireError, UNEXPECTED_EOF, VARINT_TOO_LONG};
pub use handshake::{
    connection_mode, frame_length, rewrite_handshake, HANDSHAKE_PACKET_ID, HOST_TOO_LONG, INVALID_HANDSHAKE_LENGTH,
    INVALID_NEXT_STATE, MAX_HANDSHAKE_SIZE, MAX_HOST_SIZE, NEGATIVE_HANDSHAKE_LENGTH, NEGATIVE_HOST_LENGTH,
    NOT_HANDSHAKE, REWRITTEN_HOST_TOO_LONG, TRAILING_DATA,
};
pub use varint::{encode_varint, read_varint, VarIntDecoder, MAX_VARINT_LEN};
