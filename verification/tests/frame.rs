use bytes::Bytes;
use deerquic::frame::{
    parse_frame, read_bytes, read_exact, read_u8, read_varint, read_varint_bytes, write_frame,
    AckRange, ConnectionId, EcnCounts, Frame, FrameError,
};
use deerquic::varint::VarIntError;

fn round_trip(frame: Frame) {
    let mut buf = Vec::new();
    write_frame(&frame, &mut buf).unwrap();
    let (decoded, n) = parse_frame(&buf).unwrap();
    assert_eq!(n, buf.len(), "consumed all bytes");
    assert_eq!(decoded, frame, "round-trip match for {frame:?}");
}

#[test]
fn round_trip_padding() {
    round_trip(Frame::Padding);
}

#[test]
fn round_trip_ping() {
    round_trip(Frame::Ping);
}

#[test]
fn round_trip_ack() {
    round_trip(Frame::Ack {
        largest_ack: 1000,
        ack_delay: 42,
        ranges: vec![AckRange { gap: 0, range: 5 }],
        ecn: None,
    });
}

#[test]
fn round_trip_ack_with_ecn() {
    round_trip(Frame::Ack {
        largest_ack: 200,
        ack_delay: 10,
        ranges: vec![AckRange { gap: 0, range: 3 }, AckRange { gap: 2, range: 4 }],
        ecn: Some(EcnCounts {
            ect0: 1,
            ect1: 2,
            ecn_ce: 0,
        }),
    });
}

#[test]
fn round_trip_reset_stream() {
    round_trip(Frame::ResetStream {
        stream_id: 4,
        error_code: 123,
        final_size: 4096,
    });
}

#[test]
fn round_trip_stop_sending() {
    round_trip(Frame::StopSending {
        stream_id: 2,
        error_code: 99,
    });
}

#[test]
fn round_trip_crypto() {
    round_trip(Frame::Crypto {
        offset: 0,
        data: Bytes::from_static(b"hello"),
    });
}

#[test]
fn round_trip_new_token() {
    round_trip(Frame::NewToken {
        token: Bytes::from_static(b"abc123"),
    });
}

#[test]
fn round_trip_stream() {
    round_trip(Frame::Stream {
        stream_id: 0,
        offset: 0,
        data: Bytes::from_static(b"payload"),
        fin: false,
    });
}

#[test]
fn round_trip_stream_with_offset_and_fin() {
    round_trip(Frame::Stream {
        stream_id: 10,
        offset: 2048,
        data: Bytes::from_static(b"end"),
        fin: true,
    });
}

#[test]
fn round_trip_max_data() {
    round_trip(Frame::MaxData { maximum: 1_000_000 });
}

#[test]
fn round_trip_max_stream_data() {
    round_trip(Frame::MaxStreamData {
        stream_id: 4,
        maximum: 65536,
    });
}

#[test]
fn round_trip_max_streams() {
    round_trip(Frame::MaxStreams {
        bidi: true,
        maximum: 100,
    });
    round_trip(Frame::MaxStreams {
        bidi: false,
        maximum: 50,
    });
}

#[test]
fn round_trip_data_blocked() {
    round_trip(Frame::DataBlocked { limit: 2000 });
}

#[test]
fn round_trip_stream_data_blocked() {
    round_trip(Frame::StreamDataBlocked {
        stream_id: 2,
        limit: 4096,
    });
}

#[test]
fn round_trip_streams_blocked() {
    round_trip(Frame::StreamsBlocked {
        bidi: true,
        limit: 100,
    });
    round_trip(Frame::StreamsBlocked {
        bidi: false,
        limit: 50,
    });
}

#[test]
fn round_trip_new_connection_id() {
    round_trip(Frame::NewConnectionId {
        sequence: 1,
        retire_prior_to: 0,
        id: ConnectionId::new(Bytes::from_static(&[1, 2, 3, 4, 5, 6, 7, 8])).unwrap(),
        reset_token: [0xab; 16],
    });
}

#[test]
fn round_trip_retire_connection_id() {
    round_trip(Frame::RetireConnectionId { sequence: 2 });
}

#[test]
fn round_trip_path_challenge() {
    round_trip(Frame::PathChallenge { data: *b"abcdefgh" });
}

#[test]
fn round_trip_path_response() {
    round_trip(Frame::PathResponse { data: *b"12345678" });
}

#[test]
fn round_trip_connection_close_quic() {
    round_trip(Frame::ConnectionClose {
        error_code: 0x0a,       // PROTOCOL_VIOLATION
        frame_type: Some(0x06), // triggered by a CRYPTO frame
        reason: Bytes::from_static(b"bad crypto frame"),
    });
}

#[test]
fn round_trip_connection_close_app() {
    round_trip(Frame::ConnectionClose {
        error_code: 0,
        frame_type: None,
        reason: Bytes::new(),
    });
}

#[test]
fn round_trip_handshake_done() {
    round_trip(Frame::HandshakeDone);
}

#[test]
fn all_frames_round_trip() {
    // Ensure every frame variant round-trips at least once
    let frames = vec![
        Frame::Padding,
        Frame::Ping,
        Frame::Ack {
            largest_ack: 10,
            ack_delay: 1,
            ranges: vec![AckRange { gap: 0, range: 10 }],
            ecn: None,
        },
        Frame::ResetStream {
            stream_id: 0,
            error_code: 1,
            final_size: 2,
        },
        Frame::StopSending {
            stream_id: 0,
            error_code: 1,
        },
        Frame::Crypto {
            offset: 0,
            data: Bytes::from_static(b"a"),
        },
        Frame::NewToken {
            token: Bytes::from_static(b"t"),
        },
        Frame::Stream {
            stream_id: 0,
            offset: 0,
            data: Bytes::from_static(b"x"),
            fin: false,
        },
        Frame::MaxData { maximum: 1 },
        Frame::MaxStreamData {
            stream_id: 0,
            maximum: 1,
        },
        Frame::MaxStreams {
            bidi: true,
            maximum: 1,
        },
        Frame::DataBlocked { limit: 1 },
        Frame::StreamDataBlocked {
            stream_id: 0,
            limit: 1,
        },
        Frame::StreamsBlocked {
            bidi: true,
            limit: 1,
        },
        Frame::NewConnectionId {
            sequence: 0,
            retire_prior_to: 0,
            id: ConnectionId::new(Bytes::from_static(b"\x01\x02\x03\x04")).unwrap(),
            reset_token: [0; 16],
        },
        Frame::RetireConnectionId { sequence: 0 },
        Frame::PathChallenge { data: [0; 8] },
        Frame::PathResponse { data: [0; 8] },
        Frame::ConnectionClose {
            error_code: 0,
            frame_type: None,
            reason: Bytes::new(),
        },
        Frame::HandshakeDone,
    ];
    for f in frames {
        round_trip(f);
    }
}

#[test]
fn unknown_frame_type() {
    let buf = [0x3fu8]; // 0x3f = 63, not a defined frame
    let err = parse_frame(&buf).unwrap_err();
    assert!(matches!(err, FrameError::UnknownType(0x3f)));
}

#[test]
fn rfc_ping_example() {
    let buf = [0x01u8];
    let (frame, n) = parse_frame(&buf).unwrap();
    assert_eq!(n, 1);
    assert_eq!(frame, Frame::Ping);
}

#[test]
fn rfc_padding_example() {
    let buf = [0x00u8, 0x00, 0x00];
    let (frame, n) = parse_frame(&buf).unwrap();
    assert_eq!(n, 1); // PADDING consumes 1 byte
    assert_eq!(frame, Frame::Padding);
    // Remaining PADDING frames can be parsed one by one
    let (frame2, n2) = parse_frame(&buf[1..]).unwrap();
    assert_eq!(n2, 1);
    assert_eq!(frame2, Frame::Padding);
}

#[test]
fn non_minimal_type_is_refused() {
    // PING spelled as a two-byte varint.
    let err = parse_frame(&[0x40, 0x01]).unwrap_err();
    assert!(matches!(err, FrameError::NonMinimalType(1)));
    // PADDING spelled as a four-byte varint.
    let err = parse_frame(&[0x80, 0, 0, 0]).unwrap_err();
    assert!(matches!(err, FrameError::NonMinimalType(0)));
}

#[test]
fn type_above_one_byte_is_unknown() {
    let err = parse_frame(&[0x41, 0x01, 0x00]).unwrap_err();
    assert!(matches!(err, FrameError::UnknownType(0x101)));
    let err = parse_frame(&[0x1f]).unwrap_err();
    assert!(matches!(err, FrameError::UnknownType(0x1f)));
}

#[test]
fn truncated_frames() {
    assert!(matches!(
        parse_frame(&[]).unwrap_err(),
        FrameError::VarInt(VarIntError::BufferTooShort { needed: 1, actual: 0 })
    ));
    // CRYPTO, offset 0, length 5, two bytes of data.
    assert!(matches!(
        parse_frame(&[0x06, 0x00, 0x05, 1, 2]).unwrap_err(),
        FrameError::Underflow { frame_type: 0, expected: 5 }
    ));
    // PATH_CHALLENGE with seven bytes.
    assert!(matches!(
        parse_frame(&[0x1a, 1, 2, 3, 4, 5, 6, 7]).unwrap_err(),
        FrameError::Underflow { frame_type: 0, expected: 8 }
    ));
    // NEW_CONNECTION_ID that ends before its ID's length.
    assert!(matches!(
        parse_frame(&[0x18, 1, 0]).unwrap_err(),
        FrameError::Underflow { frame_type: 0, expected: 1 }
    ));
}

#[test]
fn connection_id_lengths() {
    for len in [0u8, 21] {
        let mut buf = vec![0x18, 1, 0, len];
        buf.extend_from_slice(&[7u8; 60]);
        let err = parse_frame(&buf).unwrap_err();
        assert!(matches!(err, FrameError::InvalidCidLength(l) if l == len));
    }
    assert!(ConnectionId::new(Bytes::from_static(&[0; 20])).is_ok());
    assert!(ConnectionId::new(Bytes::new()).is_ok());
    let err = ConnectionId::new(Bytes::from_static(&[0; 21])).unwrap_err();
    assert!(matches!(err, FrameError::InvalidCidLength(21)));
}

#[test]
fn ack_with_more_ranges_than_bytes() {
    // The range count alone must not make the parser allocate.
    let mut buf = vec![0x02, 0x01, 0x00];
    buf.extend_from_slice(&[0xff; 8]);
    buf.push(0x00);
    let err = parse_frame(&buf).unwrap_err();
    assert!(matches!(err, FrameError::VarInt(VarIntError::BufferTooShort { .. })));
}

#[test]
fn exact_bytes() {
    let mut buf = Vec::new();
    let n = write_frame(
        &Frame::Crypto {
            offset: 64,
            data: Bytes::from_static(b"hi"),
        },
        &mut buf,
    )
    .unwrap();
    assert_eq!(n, 6);
    assert_eq!(buf, [0x06, 0x40, 0x40, 0x02, b'h', b'i']);

    // FIN, OFF and LEN bits.
    let mut buf = Vec::new();
    write_frame(
        &Frame::Stream {
            stream_id: 4,
            offset: 1,
            data: Bytes::from_static(b"x"),
            fin: true,
        },
        &mut buf,
    )
    .unwrap();
    assert_eq!(buf, [0x0f, 4, 1, 1, b'x']);

    let mut buf = Vec::new();
    write_frame(
        &Frame::Ack {
            largest_ack: 9,
            ack_delay: 0,
            ranges: vec![AckRange { gap: 0, range: 2 }, AckRange { gap: 1, range: 3 }],
            ecn: None,
        },
        &mut buf,
    )
    .unwrap();
    assert_eq!(buf, [0x02, 9, 0, 1, 2, 1, 3]);
}

#[test]
fn empty_stream_frame_runs_to_the_end() {
    let mut buf = Vec::new();
    write_frame(
        &Frame::Stream {
            stream_id: 1,
            offset: 0,
            data: Bytes::new(),
            fin: true,
        },
        &mut buf,
    )
    .unwrap();
    assert_eq!(buf, [0x09, 1]);
    buf.extend_from_slice(b"rest");
    let (frame, n) = parse_frame(&buf).unwrap();
    assert_eq!(n, 6);
    assert_eq!(
        frame,
        Frame::Stream {
            stream_id: 1,
            offset: 0,
            data: Bytes::from_static(b"rest"),
            fin: true,
        }
    );
}

#[test]
fn frames_end_where_the_next_begins() {
    let mut buf = Vec::new();
    write_frame(&Frame::MaxData { maximum: 1 << 20 }, &mut buf).unwrap();
    let first = buf.len();
    write_frame(&Frame::Ping, &mut buf).unwrap();
    let (frame, n) = parse_frame(&buf).unwrap();
    assert_eq!(n, first);
    assert_eq!(frame, Frame::MaxData { maximum: 1 << 20 });
    assert_eq!(parse_frame(&buf[n..]).unwrap(), (Frame::Ping, 1));
}

#[test]
fn field_too_large_to_write() {
    let mut buf = vec![0xee];
    let err = write_frame(
        &Frame::ResetStream {
            stream_id: 3,
            error_code: u64::MAX,
            final_size: 1,
        },
        &mut buf,
    )
    .unwrap_err();
    assert!(matches!(
        err,
        FrameError::VarInt(VarIntError::ValueTooLarge { value: u64::MAX })
    ));
    // What stands before the field has been written.
    assert_eq!(buf, [0xee, 0x04, 3]);
}

#[test]
fn readers_move_their_cursor() {
    let data = [0x07u8, 0x40, 0x01, 0xaa, 0xbb];
    let mut cursor: &[u8] = &data;
    assert_eq!(read_u8(&mut cursor).unwrap(), 7);
    assert_eq!(read_varint(&mut cursor).unwrap(), 1);
    let mut two = [0u8; 2];
    read_exact(&mut cursor, &mut two).unwrap();
    assert_eq!(two, [0xaa, 0xbb]);
    assert!(cursor.is_empty());
    assert!(read_u8(&mut cursor).is_err());

    let data = [0x02u8, 1, 2, 3];
    let mut cursor: &[u8] = &data;
    assert_eq!(&read_varint_bytes(&mut cursor).unwrap()[..], [1, 2]);
    assert_eq!(&read_bytes(&mut cursor, 1).unwrap()[..], [3]);
    assert!(read_bytes(&mut cursor, 1).is_err());
}

#[test]
fn frames_are_read_to_their_end_and_no_further() {
    let frames = [
        Frame::Ping,
        Frame::Ack {
            largest_ack: 100,
            ack_delay: 3,
            ranges: vec![AckRange { gap: 0, range: 5 }, AckRange { gap: 1, range: 70 }],
            ecn: None,
        },
        Frame::Crypto { offset: 300, data: Bytes::from_static(b"hello") },
        Frame::Stream { stream_id: 4, offset: 9, data: Bytes::from_static(b"data"), fin: true },
        Frame::ConnectionClose {
            error_code: 10,
            frame_type: Some(6),
            reason: Bytes::from_static(b"why"),
        },
    ];
    for frame in frames {
        let mut buf = Vec::new();
        write_frame(&frame, &mut buf).unwrap();
        for more in [&[][..], &[0xff; 9], &[0x06, 0x00]] {
            let mut longer = buf.clone();
            longer.extend_from_slice(more);
            assert_eq!(parse_frame(&longer).unwrap(), (frame.clone(), buf.len()));
        }
        for k in 0..buf.len() {
            assert!(parse_frame(&buf[..k]).is_err());
        }
    }
    // Without a length the data of a STREAM frame runs to the end.
    let (frame, n) = parse_frame(&[0x08, 0x04, 1, 2, 3]).unwrap();
    assert_eq!(n, 5);
    assert!(matches!(frame, Frame::Stream { data, .. } if data[..] == [1, 2, 3]));
}
