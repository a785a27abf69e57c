use obiwan::tftp::{Packet, ParseError, RequestMode, RequestOption};

fn opt(name: &[u8], value: &[u8]) -> RequestOption {
    RequestOption { name: name.to_vec(), value: value.to_vec() }
}

#[test]
fn parse_rrq_without_options() {
    assert_eq!(
        Packet::try_from(b"\x00\x01\0octet\0".as_ref()),
        Ok(Packet::Rrq {
            filename: b"".to_vec(),
            mode: RequestMode::Octet,
            options: vec![]
        })
    );

    assert_eq!(
        Packet::try_from(b"\x00\x01foo\0NeTAscIi\0".as_ref()),
        Ok(Packet::Rrq {
            filename: b"foo".to_vec(),
            mode: RequestMode::Netascii,
            options: vec![]
        })
    );

    assert_eq!(
        Packet::try_from(b"\x00\x01zOo\0oCtet\0".as_ref()),
        Ok(Packet::Rrq {
            filename: b"zOo".to_vec(),
            mode: RequestMode::Octet,
            options: vec![]
        })
    )
}

#[test]
fn serialize_rrq_without_options() {
    assert_eq!(
        (Packet::Rrq {
            filename: b"".to_vec(),
            mode: RequestMode::Octet,
            options: vec![]
        })
        .to_vec(),
        b"\x00\x01\0octet\0"
    );

    assert_eq!(
        (Packet::Rrq {
            filename: b"zOo".to_vec(),
            mode: RequestMode::Octet,
            options: vec![]
        })
        .to_vec(),
        b"\x00\x01zOo\0octet\0"
    )
}

#[test]
fn parse_rrq_with_options() {
    assert_eq!(
        Packet::try_from(b"\x00\x01\0octet\0key1\0value1\0key2\0value2\0".as_ref()),
        Ok(Packet::Rrq {
            filename: b"".to_vec(),
            mode: RequestMode::Octet,
            options: vec![opt(b"key1", b"value1"), opt(b"key2", b"value2")]
        })
    );
}

#[test]
fn serialize_rrq_with_options() {
    assert_eq!(
        (Packet::Rrq {
            filename: b"".to_vec(),
            mode: RequestMode::Octet,
            options: vec![opt(b"key1", b"value1"), opt(b"key2", b"value2")]
        })
        .to_vec(),
        b"\x00\x01\0octet\0key1\0value1\0key2\0value2\0"
    );
}

#[test]
fn parse_wrq_without_options() {
    assert_eq!(
        Packet::try_from(b"\x00\x02\0octet\0".as_ref()),
        Ok(Packet::Wrq {
            filename: b"".to_vec(),
            mode: RequestMode::Octet,
            options: vec![]
        })
    );

    assert_eq!(
        Packet::try_from(b"\x00\x02foo\0NeTAscIi\0".as_ref()),
        Ok(Packet::Wrq {
            filename: b"foo".to_vec(),
            mode: RequestMode::Netascii,
            options: vec![]
        })
    );

    assert_eq!(
        Packet::try_from(b"\x00\x02zOo\0oCtet\0".as_ref()),
        Ok(Packet::Wrq {
            filename: b"zOo".to_vec(),
            mode: RequestMode::Octet,
            options: vec![]
        })
    )
}

#[test]
fn serialize_wrq_without_options() {
    assert_eq!(
        (Packet::Wrq {
            filename: b"".to_vec(),
            mode: RequestMode::Octet,
            options: vec![]
        })
        .to_vec(),
        b"\x00\x02\0octet\0",
    );

    assert_eq!(
        (Packet::Wrq {
            filename: b"foo".to_vec(),
            mode: RequestMode::Netascii,
            options: vec![]
        })
        .to_vec(),
        b"\x00\x02foo\0netascii\0",
    );
}

#[test]
fn parse_wrq_with_options() {
    assert_eq!(
        Packet::try_from(b"\x00\x02\0octet\0key1\0value1\0key2\0value2\0".as_ref()),
        Ok(Packet::Wrq {
            filename: b"".to_vec(),
            mode: RequestMode::Octet,
            options: vec![opt(b"key1", b"value1"), opt(b"key2", b"value2")]
        })
    );
}

#[test]
fn serialize_wrq_with_options() {
    assert_eq!(
        (Packet::Wrq {
            filename: b"".to_vec(),
            mode: RequestMode::Octet,
            options: vec![opt(b"key1", b"value1"), opt(b"key2", b"value2")]
        })
        .to_vec(),
        b"\x00\x02\0octet\0key1\0value1\0key2\0value2\0",
    );
}

#[test]
fn parse_data() {
    assert_eq!(
        Packet::try_from(b"\x00\x03\x12\x34hello world".as_ref()),
        Ok(Packet::Data {
            block: 0x1234,
            data: b"hello world".to_vec(),
        })
    )
}

#[test]
fn serialize_data() {
    assert_eq!(
        (Packet::Data {
            block: 0x1234,
            data: b"hello world".to_vec(),
        })
        .to_vec(),
        b"\x00\x03\x12\x34hello world",
    )
}

#[test]
fn parse_ack() {
    assert_eq!(
        Packet::try_from(b"\x00\x04\x12\x34".as_ref()),
        Ok(Packet::Ack { block: 0x1234 })
    )
}

#[test]
fn serialize_ack() {
    assert_eq!((Packet::Ack { block: 0x1234 }).to_vec(), b"\x00\x04\x12\x34",)
}

#[test]
fn parse_error() {
    assert_eq!(
        Packet::try_from(b"\x00\x05\x01\x02Some error!\0".as_ref()),
        Ok(Packet::Error {
            error_code: 0x0102,
            error_msg: b"Some error!".to_vec()
        })
    )
}

#[test]
fn serialize_error() {
    assert_eq!(
        (Packet::Error {
            error_code: 0x0102,
            error_msg: b"Some error!".to_vec()
        })
        .to_vec(),
        b"\x00\x05\x01\x02Some error!\0",
    )
}

#[test]
fn parse_oack() {
    assert_eq!(
        Packet::try_from(b"\x00\x06".as_ref()),
        Ok(Packet::OAck { options: vec![] })
    );

    assert_eq!(
        Packet::try_from(b"\x00\x06key1\0value1\0key2\0value2\0".as_ref()),
        Ok(Packet::OAck {
            options: vec![opt(b"key1", b"value1"), opt(b"key2", b"value2")]
        })
    );
}

#[test]
fn serialize_oack() {
    assert_eq!((Packet::OAck { options: vec![] }).to_vec(), b"\x00\x06");

    assert_eq!(
        (Packet::OAck {
            options: vec![opt(b"key1", b"value1"), opt(b"key2", b"value2")]
        })
        .to_vec(),
        b"\x00\x06key1\0value1\0key2\0value2\0"
    );
}

#[test]
fn parse_rejects_malformed_packets() {
    // Too short for an opcode.
    assert_eq!(
        Packet::try_from(b"".as_ref()),
        Err(ParseError::UnrecognizedPacket)
    );
    assert_eq!(
        Packet::try_from(b"\x00".as_ref()),
        Err(ParseError::UnrecognizedPacket)
    );
    // Unknown opcode.
    assert_eq!(
        Packet::try_from(b"\x00\x07abc".as_ref()),
        Err(ParseError::UnrecognizedPacket)
    );
    // Missing string terminators.
    assert_eq!(
        Packet::try_from(b"\x00\x01foo".as_ref()),
        Err(ParseError::UnrecognizedPacket)
    );
    assert_eq!(
        Packet::try_from(b"\x00\x01foo\0octet".as_ref()),
        Err(ParseError::UnrecognizedPacket)
    );
    // An option value without its terminator.
    assert_eq!(
        Packet::try_from(b"\x00\x01foo\0octet\0name\0value".as_ref()),
        Err(ParseError::UnrecognizedPacket)
    );
    // Truncated fixed layouts.
    assert_eq!(
        Packet::try_from(b"\x00\x04\x12".as_ref()),
        Err(ParseError::UnrecognizedPacket)
    );
    assert_eq!(
        Packet::try_from(b"\x00\x03\x12".as_ref()),
        Err(ParseError::UnrecognizedPacket)
    );
    // An error message without its terminator.
    assert_eq!(
        Packet::try_from(b"\x00\x05\x00\x00oops".as_ref()),
        Err(ParseError::UnrecognizedPacket)
    );
}

#[test]
fn parse_rejects_invalid_mode() {
    assert_eq!(
        Packet::try_from(b"\x00\x01foo\0mail\0".as_ref()),
        Err(ParseError::InvalidMode)
    );
    assert_eq!(
        Packet::try_from(b"\x00\x02foo\0\0".as_ref()),
        Err(ParseError::InvalidMode)
    );
}

#[test]
fn parse_rejects_invalid_strings() {
    // An error message that is not UTF-8.
    assert_eq!(
        Packet::try_from(b"\x00\x05\x00\x00\xff\xfe\0".as_ref()),
        Err(ParseError::InvalidString)
    );
    // An option name that is not UTF-8.
    assert_eq!(
        Packet::try_from(b"\x00\x01f\0octet\0\xff\0v\0".as_ref()),
        Err(ParseError::InvalidString)
    );
    // An option value that is not UTF-8.
    assert_eq!(
        Packet::try_from(b"\x00\x06n\0\x80\0".as_ref()),
        Err(ParseError::InvalidString)
    );
    // A filename that is not UTF-8 is fine: it stays raw bytes.
    assert_eq!(
        Packet::try_from(b"\x00\x01\xff\xfe\0octet\0".as_ref()),
        Ok(Packet::Rrq {
            filename: b"\xff\xfe".to_vec(),
            mode: RequestMode::Octet,
            options: vec![]
        })
    );
}

#[test]
fn parse_ignores_trailing_bytes_after_fixed_layout() {
    assert_eq!(
        Packet::try_from(b"\x00\x04\x00\x01xyz".as_ref()),
        Ok(Packet::Ack { block: 1 })
    );
    assert_eq!(
        Packet::try_from(b"\x00\x05\x00\x02done\0extra".as_ref()),
        Ok(Packet::Error {
            error_code: 2,
            error_msg: b"done".to_vec()
        })
    );
}

#[test]
fn parse_data_with_empty_payload() {
    assert_eq!(
        Packet::try_from(b"\x00\x03\x00\x05".as_ref()),
        Ok(Packet::Data { block: 5, data: vec![] })
    );
}

#[test]
fn codec_round_trips() {
    let packets = vec![
        Packet::Rrq {
            filename: b"dir/boot.img".to_vec(),
            mode: RequestMode::Netascii,
            options: vec![opt(b"blksize", b"1428")],
        },
        Packet::Wrq {
            filename: b"x".to_vec(),
            mode: RequestMode::Octet,
            options: vec![],
        },
        Packet::Data { block: 0xffff, data: b"\x00\x01\x02".to_vec() },
        Packet::Ack { block: 0 },
        Packet::Error { error_code: 4, error_msg: b"nope".to_vec() },
        Packet::OAck { options: vec![opt(b"blksize", b"8")] },
    ];
    for p in packets {
        let wire = p.to_vec();
        assert_eq!(Packet::try_from(wire.as_slice()), Ok(p));
    }
}
