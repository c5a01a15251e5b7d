use hypforward::{encode_varint, invalid_data, read_varint, ErrorKind, VarIntDecoder, VARINT_TOO_LONG};

fn encoded(value: i32) -> Vec<u8> {
    let mut out = Vec::new();
    encode_varint(value, &mut out);
    out
}

#[test]
fn encodes_known_values() {
    assert_eq!(encoded(0), vec![0x00]);
    assert_eq!(encoded(1), vec![0x01]);
    assert_eq!(encoded(127), vec![0x7f]);
    assert_eq!(encoded(128), vec![0x80, 0x01]);
    assert_eq!(encoded(300), vec![0xac, 0x02]);
    assert_eq!(encoded(25565), vec![0xdd, 0xc7, 0x01]);
    assert_eq!(encoded(2147483647), vec![0xff, 0xff, 0xff, 0xff, 0x07]);
    assert_eq!(encoded(-1), vec![0xff, 0xff, 0xff, 0xff, 0x0f]);
    assert_eq!(encoded(i32::MIN), vec![0x80, 0x80, 0x80, 0x80, 0x08]);
}

#[test]
fn encoding_appends() {
    let mut out = vec![9, 9];
    encode_varint(300, &mut out);
    assert_eq!(out, vec![9, 9, 0xac, 0x02]);
}

#[test]
fn reads_back_what_was_written() {
    for value in [0, 1, 127, 128, 255, 300, 25565, 2097151, 2097152, i32::MAX, -1, -128, i32::MIN] {
        let mut bytes = vec![7];
        encode_varint(value, &mut bytes);
        bytes.push(42);
        let (read, next) = read_varint(&bytes, 1).unwrap();
        assert_eq!(read, value);
        assert_eq!(next, bytes.len() - 1);
    }
}

#[test]
fn reading_reports_short_input() {
    let error = read_varint(&[0x80, 0x80], 0).unwrap_err();
    assert_eq!(error.kind, ErrorKind::UnexpectedEof);
    let error = read_varint(&[0x01], 1).unwrap_err();
    assert_eq!(error.kind, ErrorKind::UnexpectedEof);
    let error = read_varint(&[0x01], 5).unwrap_err();
    assert_eq!(error.kind, ErrorKind::UnexpectedEof);
}

#[test]
fn reading_rejects_six_byte_values() {
    let error = read_varint(&[0x80, 0x80, 0x80, 0x80, 0x80, 0x01], 0).unwrap_err();
    assert_eq!(error.kind, ErrorKind::InvalidData);
    assert_eq!(error.message, VARINT_TOO_LONG);
}

#[test]
fn reading_wraps_fifth_byte() {
    assert_eq!(read_varint(&[0xff, 0xff, 0xff, 0xff, 0x7f], 0).unwrap(), (-1, 5));
    assert_eq!(read_varint(&[0x80, 0x80, 0x80, 0x80, 0x10], 0).unwrap(), (0, 5));
}

#[test]
fn decoder_takes_bytes_one_at_a_time() {
    let mut decoder = VarIntDecoder::new();
    assert!(decoder.push(0xdd).is_none());
    assert!(decoder.push(0xc7).is_none());
    assert_eq!(decoder.push(0x01).unwrap().unwrap(), 25565);

    let mut decoder = VarIntDecoder::new();
    for _ in 0..4 {
        assert!(decoder.push(0x80).is_none());
    }
    let error = decoder.push(0x80).unwrap().unwrap_err();
    assert_eq!(error.message, VARINT_TOO_LONG);
}

#[test]
fn invalid_data_keeps_message() {
    let error = invalid_data("bad");
    assert_eq!(error.kind, ErrorKind::InvalidData);
    assert_eq!(error.message, "bad");
}

#[test]
fn decoder_agrees_with_reader() {
    let inputs: [&[u8]; 7] = [
        &[0x00],
        &[0xdd, 0xc7, 0x01, 0x55],
        &[0xff, 0xff, 0xff, 0xff, 0x0f],
        &[0x80, 0x80],
        &[],
        &[0x80, 0x80, 0x80, 0x80, 0x80, 0x01],
        &[0xff, 0xff, 0xff, 0xff, 0x7f, 0x00],
    ];
    for input in inputs {
        let mut decoder = VarIntDecoder::new();
        let mut fed = None;
        for (index, byte) in input.iter().enumerate() {
            if let Some(outcome) = decoder.push(*byte) {
                fed = Some((outcome, index + 1));
                break;
            }
        }
        match (fed, read_varint(input, 0)) {
            (Some((Ok(value), taken)), Ok((read, next))) => assert_eq!((value, taken), (read, next)),
            (Some((Err(fed_error), taken)), Err(error)) => {
                assert_eq!(fed_error.message, error.message);
                assert_eq!(error.message, VARINT_TOO_LONG);
                assert_eq!(taken, 5);
            },
            (None, Err(error)) => assert_eq!(error.kind, ErrorKind::UnexpectedEof),
            (fed, read) => panic!("decoder {fed:?} disagrees with reader {read:?}"),
        }
    }
}
