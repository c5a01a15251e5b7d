//! The first packet a Minecraft client sends: its handshake, and the rewrite
//! that points it at another server while keeping a Forge/FML host suffix.
use vstd::prelude::*;
use vstd::string::StringSliceAdditionalSpecFns;

use crate::error::{invalid_data, spec_invalid_data, spec_unexpected_eof, unexpected_eof, WireError};
use crate::varint::{
    encode_varint, encoded_varint, lemma_encoded_varint_len, lemma_read_varint_advances, lemma_varint_roundtrip,
    read_varint, spec_read_varint,
};

verus! {

/// Packet id of the handshake.
pub const HANDSHAKE_PACKET_ID: i32 = 0;

/// Largest handshake frame the proxy accepts.
pub const MAX_HANDSHAKE_SIZE: usize = 16 * 1024;

/// Largest host field, in bytes, before and after the rewrite.
pub const MAX_HOST_SIZE: usize = 255;

pub const NOT_HANDSHAKE: &'static str = "first packet is not a handshake";

pub const NEGATIVE_HOST_LENGTH: &'static str = "negative host length";

pub const HOST_TOO_LONG: &'static str = "handshake host is too long";

pub const INVALID_NEXT_STATE: &'static str = "invalid handshake next state";

pub const TRAILING_DATA: &'static str = "trailing data outside the handshake host";

pub const REWRITTEN_HOST_TOO_LONG: &'static str = "rewritten handshake host is too long";

pub const NEGATIVE_HANDSHAKE_LENGTH: &'static str = "negative handshake length";

pub const INVALID_HANDSHAKE_LENGTH: &'static str = "invalid handshake length";

/// The port as the handshake carries it: two bytes, most significant first.
pub open spec fn port_bytes(port: u16) -> Seq<u8> {
    seq![(port / 256) as u8, (port % 256) as u8]
}

/// The port that two big-endian bytes carry.
pub open spec fn port_of(high: u8, low: u8) -> u16 {
    (high * 256 + low) as u16
}

/// A handshake packet body: id, protocol version, host (length first), port
/// and next state.
pub open spec fn handshake_payload(protocol_version: i32, host: Seq<u8>, port: u16, next_state: i32) -> Seq<u8> {
    encoded_varint(HANDSHAKE_PACKET_ID) + encoded_varint(protocol_version) + encoded_varint(host.len() as i32) + host
        + port_bytes(port) + encoded_varint(next_state)
}

/// A packet body behind its VarInt length.
pub open spec fn framed(payload: Seq<u8>) -> Seq<u8> {
    encoded_varint(payload.len() as i32) + payload
}

/// The body of a framed packet when its length prefix reads and covers
/// exactly the rest.
pub open spec fn frame_body(packet: Seq<u8>) -> Option<Seq<u8>> {
    match spec_read_varint(packet, 0) {
        Ok((length, start)) => if length >= 0 && start + length == packet.len() {
            Some(packet.subrange(start, packet.len() as int))
        } else {
            None
        },
        Err(_) => None,
    }
}

/// The fields of a handshake body: protocol version, host bytes, port and next
/// state; or the first thing wrong with it, in the order it is read.
pub open spec fn spec_parse_handshake(packet: Seq<u8>) -> Result<(i32, Seq<u8>, u16, i32), WireError> {
    match spec_read_varint(packet, 0) {
        Err(e) => Err(e),
        Ok((id, after_id)) => if id != HANDSHAKE_PACKET_ID {
            Err(spec_invalid_data(NOT_HANDSHAKE))
        } else {
            match spec_read_varint(packet, after_id) {
                Err(e) => Err(e),
                Ok((protocol_version, after_version)) => match spec_read_varint(packet, after_version) {
                    Err(e) => Err(e),
                    Ok((host_length, host_start)) => if host_length < 0 {
                        Err(spec_invalid_data(NEGATIVE_HOST_LENGTH))
                    } else if host_length > MAX_HOST_SIZE {
                        Err(spec_invalid_data(HOST_TOO_LONG))
                    } else if host_start + host_length > packet.len() {
                        Err(spec_unexpected_eof())
                    } else if host_start + host_length + 2 > packet.len() {
                        Err(spec_unexpected_eof())
                    } else {
                        let host_end = host_start + host_length;
                        match spec_read_varint(packet, host_end + 2) {
                            Err(e) => Err(e),
                            Ok((next_state, end)) => if next_state != 1 && next_state != 2 {
                                Err(spec_invalid_data(INVALID_NEXT_STATE))
                            } else if end != packet.len() {
                                Err(spec_invalid_data(TRAILING_DATA))
                            } else {
                                Ok(
                                    (
                                        protocol_version,
                                        packet.subrange(host_start, host_end),
                                        port_of(packet[host_end], packet[host_end + 1]),
                                        next_state,
                                    ),
                                )
                            },
                        }
                    },
                },
            }
        },
    }
}

/// The Forge/FML marker of a host field: everything from its first NUL byte
/// on, or nothing when it has none.
pub open spec fn forge_suffix(host: Seq<u8>) -> Seq<u8> {
    match host.index_of_first(0u8) {
        Some(i) => host.subrange(i, host.len() as int),
        None => Seq::empty(),
    }
}

/// Rewriting a handshake body for `target_host` and `target_port`: the framed
/// new packet, the protocol version, the next state and whether a Forge
/// suffix was kept; or why the packet is refused.
pub open spec fn spec_rewrite_handshake(packet: Seq<u8>, target_host: Seq<u8>, target_port: u16) -> Result<
    (Seq<u8>, i32, i32, bool),
    WireError,
> {
    match spec_parse_handshake(packet) {
        Err(e) => Err(e),
        Ok((protocol_version, host, _, next_state)) => {
            let suffix = forge_suffix(host);
            let new_host = target_host + suffix;
            if new_host.len() > MAX_HOST_SIZE {
                Err(spec_invalid_data(REWRITTEN_HOST_TOO_LONG))
            } else {
                Ok(
                    (
                        framed(handshake_payload(protocol_version, new_host, target_port, next_state)),
                        protocol_version,
                        next_state,
                        suffix.len() > 0,
                    ),
                )
            }
        },
    }
}

/// Appends `bytes` to `output`.
fn append_bytes(output: &mut Vec<u8>, bytes: &[u8])
    ensures
        final(output)@ == old(output)@ + bytes@,
{
    let mut i: usize = 0;
    while i < bytes.len()
        invariant
            i <= bytes.len(),
            output@ == old(output)@ + bytes@.subrange(0, i as int),
        decreases bytes.len() - i,
    {
        output.push(bytes[i]);
        i = i + 1;
        assert(bytes@.subrange(0, i as int) == bytes@.subrange(0, i - 1) + seq![bytes@[i - 1]]);
    }
    assert(bytes@.subrange(0, bytes.len() as int) == bytes@);
}

/// Index of the first NUL byte of `host`, or its length when it has none.
fn forge_suffix_start(host: &[u8]) -> (start: usize)
    ensures
        start <= host.len(),
        host@.subrange(start as int, host.len() as int) == forge_suffix(host@),
{
    let mut i: usize = 0;
    while i < host.len()
        invariant
            i <= host.len(),
            forall|j: int| 0 <= j < i ==> host@[j] != 0u8,
        decreases host.len() - i,
    {
        if host[i] == 0 {
            proof {
                host@.index_of_first_ensures(0u8);
            }
            return i;
        }
        i = i + 1;
    }
    proof {
        host@.index_of_first_ensures(0u8);
    }
    i
}

/// Reads the handshake in `packet` (without its length prefix) and builds the
/// framed handshake that names `target_host` and `target_port` instead, keeping
/// the client's protocol version, next state and Forge/FML host suffix.
/// Also gives the protocol version, the next state, and whether a suffix was
/// kept.
pub fn rewrite_handshake(packet: &[u8], target_host: &str, target_port: u16) -> (result: Result<
    (Vec<u8>, i32, i32, bool),
    WireError,
>)
    ensures
        match result {
            Ok((bytes, protocol_version, next_state, has_fml_suffix)) => spec_rewrite_handshake(
                packet@,
                target_host.spec_bytes(),
                target_port,
            ) == Ok::<(Seq<u8>, i32, i32, bool), WireError>(
                (bytes@, protocol_version, next_state, has_fml_suffix),
            ),
            Err(error) => spec_rewrite_handshake(packet@, target_host.spec_bytes(), target_port) == Err::<
                (Seq<u8>, i32, i32, bool),
                WireError,
            >(error),
        },
        result matches Ok((_, protocol_version, next_state, _)) ==> spec_parse_handshake(packet@) matches Ok(
            (client_version, _, _, client_state),
        ) && protocol_version == client_version && next_state == client_state,
{
    proof {
        lemma_rewrite_keeps_version_and_state(packet@, target_host.spec_bytes(), target_port);
    }
    let ghost s = packet@;
    let (packet_id, after_id) = match read_varint(packet, 0) {
        Ok(read) => read,
        Err(error) => {
            return Err(error);
        },
    };
    proof {
        lemma_read_varint_advances(s, 0);
    }
    if packet_id != HANDSHAKE_PACKET_ID {
        return Err(invalid_data(NOT_HANDSHAKE));
    }
    let (protocol_version, after_version) = match read_varint(packet, after_id) {
        Ok(read) => read,
        Err(error) => {
            return Err(error);
        },
    };
    proof {
        lemma_read_varint_advances(s, after_id as int);
    }
    let (host_length, host_start) = match read_varint(packet, after_version) {
        Ok(read) => read,
        Err(error) => {
            return Err(error);
        },
    };
    proof {
        lemma_read_varint_advances(s, after_version as int);
    }
    if host_length < 0 {
        return Err(invalid_data(NEGATIVE_HOST_LENGTH));
    }
    let host_length = host_length as usize;
    if host_length > MAX_HOST_SIZE {
        return Err(invalid_data(HOST_TOO_LONG));
    }
    if host_length > packet.len() - host_start {
        return Err(unexpected_eof());
    }
    let host_end = host_start + host_length;
    if 2 > packet.len() - host_end {
        return Err(unexpected_eof());
    }
    let (next_state, end) = match read_varint(packet, host_end + 2) {
        Ok(read) => read,
        Err(error) => {
            return Err(error);
        },
    };
    if next_state != 1 && next_state != 2 {
        return Err(invalid_data(INVALID_NEXT_STATE));
    }
    if end != packet.len() {
        return Err(invalid_data(TRAILING_DATA));
    }
    let client_host = vstd::slice::slice_subrange(packet, host_start, host_end);
    let suffix_start = forge_suffix_start(client_host);
    let suffix = vstd::slice::slice_subrange(client_host, suffix_start, client_host.len());
    let has_fml_suffix = suffix.len() > 0;

    let mut rewritten_host: Vec<u8> = Vec::new();
    append_bytes(&mut rewritten_host, target_host.as_bytes());
    append_bytes(&mut rewritten_host, suffix);
    if rewritten_host.len() > MAX_HOST_SIZE {
        return Err(invalid_data(REWRITTEN_HOST_TOO_LONG));
    }
    let mut payload: Vec<u8> = Vec::new();
    encode_varint(HANDSHAKE_PACKET_ID, &mut payload);
    encode_varint(protocol_version, &mut payload);
    encode_varint(rewritten_host.len() as i32, &mut payload);
    append_bytes(&mut payload, rewritten_host.as_slice());
    let port_high = (target_port >> 8) as u8;
    let port_low = (target_port & 0xff) as u8;
    assert(target_port >> 8 == target_port / 256 && target_port & 0xff == target_port % 256) by (bit_vector);
    payload.push(port_high);
    payload.push(port_low);
    encode_varint(next_state, &mut payload);
    proof {
        lemma_encoded_varint_len(protocol_version);
        lemma_encoded_varint_len(next_state);
        lemma_encoded_varint_len(HANDSHAKE_PACKET_ID);
        lemma_encoded_varint_len(rewritten_host@.len() as i32);
        assert(payload@ == handshake_payload(protocol_version, rewritten_host@, target_port, next_state));
    }
    let mut framed_packet: Vec<u8> = Vec::new();
    encode_varint(payload.len() as i32, &mut framed_packet);
    append_bytes(&mut framed_packet, payload.as_slice());
    Ok((framed_packet, protocol_version, next_state, has_fml_suffix))
}

/// The handshake length that a client announced, when the proxy accepts it:
/// positive and at most `MAX_HANDSHAKE_SIZE`.
pub fn frame_length(announced: i32) -> (result: Result<usize, WireError>)
    ensures
        announced < 0 ==> result == Err::<usize, WireError>(spec_invalid_data(NEGATIVE_HANDSHAKE_LENGTH)),
        announced == 0 || announced > MAX_HANDSHAKE_SIZE ==> result == Err::<usize, WireError>(
            spec_invalid_data(INVALID_HANDSHAKE_LENGTH),
        ),
        0 < announced <= MAX_HANDSHAKE_SIZE ==> result == Ok::<usize, WireError>(announced as usize),
{
    if announced < 0 {
        return Err(invalid_data(NEGATIVE_HANDSHAKE_LENGTH));
    }
    let length = announced as usize;
    if length == 0 || length > MAX_HANDSHAKE_SIZE {
        return Err(invalid_data(INVALID_HANDSHAKE_LENGTH));
    }
    Ok(length)
}

/// The name of the connection mode that a handshake's next state selects.
pub fn connection_mode(next_state: i32) -> (mode: &'static str)
    ensures
        next_state == 1 ==> mode == "status",
        next_state != 1 ==> mode == "login",
{
    if next_state == 1 {
        "status"
    } else {
        "login"
    }
}

/// A handshake body built from its fields reads back as those fields, when
/// the host fits and the next state is one the protocol allows.
pub proof fn lemma_handshake_payload_parses(protocol_version: i32, host: Seq<u8>, port: u16, next_state: i32)
    requires
        host.len() <= MAX_HOST_SIZE,
        next_state == 1 || next_state == 2,
    ensures
        spec_parse_handshake(handshake_payload(protocol_version, host, port, next_state)) == Ok::<
            (i32, Seq<u8>, u16, i32),
            WireError,
        >((protocol_version, host, port, next_state)),
{
    let e0 = encoded_varint(HANDSHAKE_PACKET_ID);
    let e1 = encoded_varint(protocol_version);
    let e2 = encoded_varint(host.len() as i32);
    let pb = port_bytes(port);
    let e3 = encoded_varint(next_state);
    let p = handshake_payload(protocol_version, host, port, next_state);
    assert(p == Seq::<u8>::empty() + e0 + (e1 + e2 + host + pb + e3));
    lemma_varint_roundtrip(HANDSHAKE_PACKET_ID, Seq::empty(), e1 + e2 + host + pb + e3);
    assert(p == e0 + e1 + (e2 + host + pb + e3));
    lemma_varint_roundtrip(protocol_version, e0, e2 + host + pb + e3);
    assert(p == (e0 + e1) + e2 + (host + pb + e3));
    lemma_varint_roundtrip(host.len() as i32, e0 + e1, host + pb + e3);
    assert(p == (e0 + e1 + e2 + host + pb) + e3 + Seq::<u8>::empty());
    lemma_varint_roundtrip(next_state, e0 + e1 + e2 + host + pb, Seq::empty());
    let host_start = e0.len() + e1.len() + e2.len();
    let host_end = host_start + host.len();
    assert(p.subrange(host_start as int, host_end as int) == host);
    assert(p[host_end as int] == pb[0] && p[host_end + 1int] == pb[1]);
    assert(port_of(pb[0], pb[1]) == port);
}

/// The packet that a rewrite produces is framed with its exact length, and its
/// body reads as a handshake with the client's protocol version and next state,
/// the target port, and a host made of the target host followed by the
/// Forge/FML suffix that the client sent.
pub proof fn lemma_rewrite_reads_back(packet: Seq<u8>, target_host: Seq<u8>, target_port: u16)
    requires
        spec_rewrite_handshake(packet, target_host, target_port) is Ok,
    ensures
        ({
            let (bytes, protocol_version, next_state, has_fml_suffix) = spec_rewrite_handshake(
                packet,
                target_host,
                target_port,
            ).unwrap();
            let client_host = spec_parse_handshake(packet).unwrap().1;
            &&& frame_body(bytes) is Some
            &&& spec_parse_handshake(frame_body(bytes).unwrap()) == Ok::<(i32, Seq<u8>, u16, i32), WireError>(
                (protocol_version, target_host + forge_suffix(client_host), target_port, next_state),
            )
            &&& has_fml_suffix == (forge_suffix(client_host).len() > 0)
        }),
{
    let (protocol_version, host, _, next_state) = spec_parse_handshake(packet).unwrap();
    let new_host = target_host + forge_suffix(host);
    let payload = handshake_payload(protocol_version, new_host, target_port, next_state);
    lemma_encoded_varint_len(protocol_version);
    lemma_encoded_varint_len(next_state);
    lemma_encoded_varint_len(HANDSHAKE_PACKET_ID);
    lemma_encoded_varint_len(new_host.len() as i32);
    let length = payload.len() as i32;
    assert(framed(payload) == Seq::<u8>::empty() + encoded_varint(length) + payload);
    lemma_varint_roundtrip(length, Seq::empty(), payload);
    assert(framed(payload).subrange(encoded_varint(length).len() as int, framed(payload).len() as int) == payload);
    lemma_handshake_payload_parses(protocol_version, new_host, target_port, next_state);
}

/// The Forge suffix of a target host followed by a suffix is that suffix, when
/// the target host has no NUL byte.
proof fn lemma_forge_suffix_after_target(target_host: Seq<u8>, host: Seq<u8>)
    requires
        !target_host.contains(0u8),
    ensures
        forge_suffix(target_host + forge_suffix(host)) == forge_suffix(host),
{
    let suffix = forge_suffix(host);
    let joined = target_host + suffix;
    host.index_of_first_ensures(0u8);
    joined.index_of_first_ensures(0u8);
    match host.index_of_first(0u8) {
        Some(i) => {
            assert(joined[target_host.len() as int] == 0u8);
            assert(joined.contains(0u8));
            let k = joined.index_of_first(0u8).unwrap();
            if k < target_host.len() {
                assert(target_host[k] == 0u8);
            }
            assert(joined.subrange(target_host.len() as int, joined.len() as int) == suffix);
        },
        None => {
            assert(joined == target_host);
            if joined.contains(0u8) {
                let k = joined.index_of_first(0u8).unwrap();
                assert(target_host[k] == 0u8);
            }
        },
    }
}

/// Rewriting is idempotent: rewriting the body of a rewritten packet again for
/// the same target, whose host has no NUL byte, gives the same packet and the
/// same reported fields.
pub proof fn lemma_rewrite_idempotent(packet: Seq<u8>, target_host: Seq<u8>, target_port: u16)
    requires
        spec_rewrite_handshake(packet, target_host, target_port) is Ok,
        !target_host.contains(0u8),
    ensures
        spec_rewrite_handshake(
            frame_body(spec_rewrite_handshake(packet, target_host, target_port).unwrap().0).unwrap(),
            target_host,
            target_port,
        ) == spec_rewrite_handshake(packet, target_host, target_port),
{
    lemma_rewrite_reads_back(packet, target_host, target_port);
    let host = spec_parse_handshake(packet).unwrap().1;
    lemma_forge_suffix_after_target(target_host, host);
}

/// What the proxy checks of an accepted handshake: its next state is status
/// (1) or login (2), and its host field has at most `MAX_HOST_SIZE` bytes,
/// before the rewrite and after it.
pub proof fn lemma_accepted_handshake_bounds(packet: Seq<u8>, target_host: Seq<u8>, target_port: u16)
    requires
        spec_rewrite_handshake(packet, target_host, target_port) is Ok,
    ensures
        ({
            let (_, client_host, _, next_state) = spec_parse_handshake(packet).unwrap();
            &&& next_state == 1 || next_state == 2
            &&& client_host.len() <= MAX_HOST_SIZE
            &&& (target_host + forge_suffix(client_host)).len() <= MAX_HOST_SIZE
        }),
{
    lemma_read_varint_advances(packet, 0);
    if let Ok((_, after_id)) = spec_read_varint(packet, 0) {
        lemma_read_varint_advances(packet, after_id);
        if let Ok((_, after_version)) = spec_read_varint(packet, after_id) {
            lemma_read_varint_advances(packet, after_version);
        }
    }
}

/// A rewrite keeps what the client said: the protocol version and next state
/// it reports, and those its new packet carries, are the ones in the client's
/// handshake; the protocol version is the second VarInt of the client's packet.
pub proof fn lemma_rewrite_keeps_version_and_state(packet: Seq<u8>, target_host: Seq<u8>, target_port: u16)
    ensures
        spec_rewrite_handshake(packet, target_host, target_port) matches Ok((bytes, protocol_version, next_state, _))
            ==> {
            &&& spec_parse_handshake(packet) matches Ok((client_version, _, _, client_state))
            &&& protocol_version == client_version
            &&& next_state == client_state
            &&& spec_read_varint(packet, 0) matches Ok((_, after_id))
            &&& spec_read_varint(packet, after_id) matches Ok((second, _))
            &&& second == protocol_version
            &&& frame_body(bytes) matches Some(body)
            &&& spec_parse_handshake(body) matches Ok((new_version, _, new_port, new_state))
            &&& new_version == protocol_version
            &&& new_state == next_state
            &&& new_port == target_port
        },
{
    if spec_rewrite_handshake(packet, target_host, target_port) is Ok {
        lemma_rewrite_reads_back(packet, target_host, target_port);
    }
}

/// Any well-formed handshake, whatever its protocol version, is rewritten to
/// a packet that reports and carries that same version and next state, as
/// long as the new host fits.
pub proof fn lemma_rewrite_of_built_handshake(
    protocol_version: i32,
    host: Seq<u8>,
    port: u16,
    next_state: i32,
    target_host: Seq<u8>,
    target_port: u16,
)
    requires
        host.len() <= MAX_HOST_SIZE,
        next_state == 1 || next_state == 2,
        target_host.len() + host.len() <= MAX_HOST_SIZE,
    ensures
        ({
            &&& spec_rewrite_handshake(
                handshake_payload(protocol_version, host, port, next_state),
                target_host,
                target_port,
            ) matches Ok((bytes, reported_version, reported_state, _))
            &&& reported_version == protocol_version
            &&& reported_state == next_state
            &&& frame_body(bytes) matches Some(body)
            &&& spec_parse_handshake(body) matches Ok((carried_version, _, carried_port, carried_state))
            &&& carried_version == protocol_version
            &&& carried_state == next_state
            &&& carried_port == target_port
        }),
{
    let packet = handshake_payload(protocol_version, host, port, next_state);
    lemma_handshake_payload_parses(protocol_version, host, port, next_state);
    let suffix = forge_suffix(host);
    host.index_of_first_ensures(0u8);
    assert(suffix.len() <= host.len());
    lemma_rewrite_reads_back(packet, target_host, target_port);
}

} // verus!
