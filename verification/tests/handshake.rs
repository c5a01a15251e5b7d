use hypforward::{
    connection_mode, encode_varint, frame_length, read_varint, rewrite_handshake, ErrorKind, HANDSHAKE_PACKET_ID,
    HOST_TOO_LONG, INVALID_HANDSHAKE_LENGTH, INVALID_NEXT_STATE, NEGATIVE_HANDSHAKE_LENGTH, NEGATIVE_HOST_LENGTH,
    NOT_HANDSHAKE, REWRITTEN_HOST_TOO_LONG, TRAILING_DATA,
};

fn handshake(host: &[u8], protocol: i32, state: i32) -> Vec<u8> {
    let mut packet = Vec::new();
    encode_varint(HANDSHAKE_PACKET_ID, &mut packet);
    encode_varint(protocol, &mut packet);
    encode_varint(host.len() as i32, &mut packet);
    packet.extend_from_slice(host);
    packet.extend_from_slice(&12345_u16.to_be_bytes());
    encode_varint(state, &mut packet);
    packet
}

fn decode_framed_handshake(packet: &[u8]) -> (i32, Vec<u8>, u16, i32) {
    let (frame_length, pos) = read_varint(packet, 0).unwrap();
    assert_eq!(frame_length as usize, packet.len() - pos);
    let (id, pos) = read_varint(packet, pos).unwrap();
    assert_eq!(id, HANDSHAKE_PACKET_ID);
    let (protocol, pos) = read_varint(packet, pos).unwrap();
    let (host_length, pos) = read_varint(packet, pos).unwrap();
    let host = packet[pos..pos + host_length as usize].to_vec();
    let pos = pos + host_length as usize;
    let port = u16::from_be_bytes([packet[pos], packet[pos + 1]]);
    let (state, end) = read_varint(packet, pos + 2).unwrap();
    assert_eq!(end, packet.len());
    (protocol, host, port, state)
}

#[test]
fn rewrites_host_and_port() {
    let packet = handshake(b"proxy.example.com", 47, 2);

    let (rewritten, protocol, state, has_fml) = rewrite_handshake(&packet, "play.example.com", 25566).unwrap();
    let decoded = decode_framed_handshake(&rewritten);

    assert_eq!(protocol, 47);
    assert_eq!(state, 2);
    assert!(!has_fml);
    assert_eq!(decoded, (47, b"play.example.com".to_vec(), 25566, 2));
}

#[test]
fn preserves_forge_suffix() {
    let packet = handshake(b"proxy.example.com\0FML\0", 47, 2);

    let (rewritten, _, _, has_fml) = rewrite_handshake(&packet, "play.example.com", 25565).unwrap();
    let (_, host, _, _) = decode_framed_handshake(&rewritten);

    assert!(has_fml);
    assert_eq!(host, b"play.example.com\0FML\0");
}

#[test]
fn rejects_invalid_next_state() {
    let packet = handshake(b"proxy.example.com", 47, 3);

    let error = rewrite_handshake(&packet, "play.example.com", 25565).unwrap_err();

    assert_eq!(error.kind, ErrorKind::InvalidData);
    assert_eq!(error.message, INVALID_NEXT_STATE);
}

#[test]
fn rejects_trailing_bytes() {
    let mut packet = handshake(b"proxy.example.com", 47, 1);
    packet.push(0);

    let error = rewrite_handshake(&packet, "play.example.com", 25565).unwrap_err();

    assert_eq!(error.kind, ErrorKind::InvalidData);
    assert_eq!(error.message, TRAILING_DATA);
}

#[test]
fn rewritten_packet_has_exact_bytes() {
    let packet = handshake(b"a", 47, 1);
    let (rewritten, protocol, state, has_fml) = rewrite_handshake(&packet, "bc", 25565).unwrap();
    assert_eq!(protocol, 47);
    assert_eq!(state, 1);
    assert!(!has_fml);
    assert_eq!(rewritten, vec![8, 0, 47, 2, b'b', b'c', 0x63, 0xdd, 1]);
}

#[test]
fn keeps_large_protocol_versions() {
    let packet = handshake(b"host", -1, 2);
    let (rewritten, protocol, _, _) = rewrite_handshake(&packet, "target", 1).unwrap();
    assert_eq!(protocol, -1);
    assert_eq!(decode_framed_handshake(&rewritten), (-1, b"target".to_vec(), 1, 2));
}

#[test]
fn rewriting_again_changes_nothing() {
    let packet = handshake(b"proxy.example.com\0FML2\0", 340, 2);
    let first = rewrite_handshake(&packet, "play.example.com", 25565).unwrap();
    let (_, body_start) = read_varint(&first.0, 0).unwrap();
    let second = rewrite_handshake(&first.0[body_start..], "play.example.com", 25565).unwrap();
    assert_eq!(first, second);
}

#[test]
fn rejects_other_packets() {
    let mut packet = Vec::new();
    encode_varint(1, &mut packet);
    let error = rewrite_handshake(&packet, "play.example.com", 25565).unwrap_err();
    assert_eq!(error.kind, ErrorKind::InvalidData);
    assert_eq!(error.message, NOT_HANDSHAKE);
}

#[test]
fn rejects_negative_host_length() {
    let mut packet = Vec::new();
    encode_varint(0, &mut packet);
    encode_varint(47, &mut packet);
    encode_varint(-1, &mut packet);
    let error = rewrite_handshake(&packet, "play.example.com", 25565).unwrap_err();
    assert_eq!(error.message, NEGATIVE_HOST_LENGTH);
}

#[test]
fn rejects_long_client_host() {
    let host = vec![b'a'; 256];
    let packet = handshake(&host, 47, 2);
    let error = rewrite_handshake(&packet, "play.example.com", 25565).unwrap_err();
    assert_eq!(error.message, HOST_TOO_LONG);
}

#[test]
fn accepts_longest_client_host() {
    let host = vec![b'a'; 255];
    let packet = handshake(&host, 47, 2);
    assert!(rewrite_handshake(&packet, "play.example.com", 25565).is_ok());
}

#[test]
fn rejects_long_rewritten_host() {
    let mut host = b"proxy".to_vec();
    host.push(0);
    host.extend(vec![b'x'; 240]);
    let packet = handshake(&host, 47, 2);
    let error = rewrite_handshake(&packet, "play.example.com", 25565).unwrap_err();
    assert_eq!(error.kind, ErrorKind::InvalidData);
    assert_eq!(error.message, REWRITTEN_HOST_TOO_LONG);
}

#[test]
fn rejects_truncated_handshake() {
    let packet = handshake(b"proxy.example.com", 47, 2);
    let error = rewrite_handshake(&packet[..10], "play.example.com", 25565).unwrap_err();
    assert_eq!(error.kind, ErrorKind::UnexpectedEof);
    let error = rewrite_handshake(&[], "play.example.com", 25565).unwrap_err();
    assert_eq!(error.kind, ErrorKind::UnexpectedEof);
}

#[test]
fn frame_length_limits() {
    assert_eq!(frame_length(-5).unwrap_err().message, NEGATIVE_HANDSHAKE_LENGTH);
    assert_eq!(frame_length(0).unwrap_err().message, INVALID_HANDSHAKE_LENGTH);
    assert_eq!(frame_length(16 * 1024 + 1).unwrap_err().message, INVALID_HANDSHAKE_LENGTH);
    assert_eq!(frame_length(16 * 1024).unwrap(), 16 * 1024);
    assert_eq!(frame_length(1).unwrap(), 1);
}

#[test]
fn mode_names() {
    assert_eq!(connection_mode(1), "status");
    assert_eq!(connection_mode(2), "login");
}
