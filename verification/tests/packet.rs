use bytes::Bytes;
use deerquic::frame::{ConnectionId, FrameError};
use deerquic::packet::{
    decode_packet_number, packet_number_fits, parse_long_header, parse_short_header,
    parse_short_id, read_pn, write_long_header, write_short_header, LongHeader, LongType,
    PacketError, ShortHeader, VERSION_1, VERSION_2, VERSION_NEGOTIATION,
};
use deerquic::varint::VarIntError;

#[test]
fn packet_number_decode_no_wrap() {
    let pn = decode_packet_number(0, 5, 1);
    assert_eq!(pn, 5);
}

#[test]
fn packet_number_decode_wrap() {
    // If expected is 0xa82f30ea and truncated is 0x9b32, with 2-byte encoding:
    let pn = decode_packet_number(0xa82f30ea, 0x9b32, 2);
    assert_eq!(pn, 0xa82f9b32);
}

#[test]
fn packet_number_decode_rfc_example() {
    let pn = decode_packet_number(0xa82f30ea, 0x9b32, 2);
    assert_eq!(pn, 0xa82f9b32);
}

#[test]
fn decode_from_zero() {
    assert_eq!(decode_packet_number(0, 0, 1), 0);
    assert_eq!(decode_packet_number(0, 255, 1), 255);
}

#[test]
fn parse_initial_header() {
    // Build a minimal Initial long header (version 1, empty CIDs, no token, zero length, 1-byte PN).
    let mut buf = Vec::new();
    // Byte 0: 1 (long) | 1 (fixed) | 00 (type=Initial) | 00 (reserved) | 00 (pn_len=1)
    buf.push(0b1100_0000);
    // Version 1
    buf.extend_from_slice(&VERSION_1.to_be_bytes());
    // Dst CID len = 0
    buf.push(0);
    // Src CID len = 0
    buf.push(0);
    // Token length = 0 (for simplicity, but for server it must be 0)
    buf.push(0);
    // Length = 0
    buf.push(0);
    // PN = 0
    buf.push(0);

    let (hdr, n) = parse_long_header(&buf).unwrap();
    assert_eq!(n, buf.len());
    assert_eq!(hdr.ty, LongType::Initial);
    assert_eq!(hdr.version, VERSION_1);
    assert_eq!(hdr.token, Some(Bytes::new()));
    assert_eq!(hdr.length, Some(0));
    assert_eq!(hdr.truncated_pn, Some(0));
    assert_eq!(hdr.pn_len, Some(1));
}

#[test]
fn parse_short_header_basic() {
    // Spin=0, KeyPhase=0, PN len=1, empty CID
    let buf = [0x41, 0x00];
    let (hdr, n) = parse_short_header(&buf, 0).unwrap();
    assert_eq!(n, 2);
    assert!(!hdr.spin);
    assert!(!hdr.key_phase);
    assert_eq!(hdr.pn_len, 1);
    assert_eq!(hdr.truncated_pn, 0);
}

#[test]
fn parse_short_header_spin_keyphase() {
    let buf = [0x65, 0x42];
    let (hdr, _) = parse_short_header(&buf, 0).unwrap();
    assert!(hdr.spin);
    assert!(hdr.key_phase);
    assert_eq!(hdr.pn_len, 1);
    assert_eq!(hdr.truncated_pn, 0x42);
}

#[test]
fn fixed_bit_must_be_set() {
    // Short header without fixed bit
    let buf = [0x01];
    let err = parse_short_header(&buf, 0).unwrap_err();
    assert!(matches!(err, PacketError::FixedBitNotSet));
}

#[test]
fn reserved_bits_must_be_zero() {
    // Short header with reserved bits set (bits 3-4)
    let buf = [0x58];
    let err = parse_short_header(&buf, 0).unwrap_err();
    assert!(matches!(err, PacketError::ReservedBitsSet));
}

#[test]
fn version_negotiation_packet() {
    let mut buf = Vec::new();
    // Byte 0: long header with arbitrary content in unused bits
    buf.push(0b1100_0000);
    // Version = 0
    buf.extend_from_slice(&[0, 0, 0, 0]);
    // Dst CID len = 4
    buf.push(4);
    buf.extend_from_slice(b"\x01\x02\x03\x04");
    // Src CID len = 4
    buf.push(4);
    buf.extend_from_slice(b"\x05\x06\x07\x08");
    // Supported versions: v1
    buf.extend_from_slice(&VERSION_1.to_be_bytes());

    let (hdr, _n) = parse_long_header(&buf).unwrap();
    assert_eq!(hdr.ty, LongType::VersionNegotiation);
    assert_eq!(hdr.version, VERSION_NEGOTIATION);
    assert_eq!(hdr.dst_cid.0, Bytes::from_static(b"\x01\x02\x03\x04"));
    assert_eq!(hdr.src_cid.0, Bytes::from_static(b"\x05\x06\x07\x08"));
}

#[test]
fn packet_number_near_the_window_edges() {
    // Expected 0x1_0080: the window of a one-byte number is 0x1_0001 to 0x1_0100.
    assert_eq!(decode_packet_number(0x1_007f, 0x00, 1), 0x1_0100);
    assert_eq!(decode_packet_number(0x1_007f, 0x01, 1), 0x1_0001);
    assert_eq!(decode_packet_number(0x1_007f, 0xff, 1), 0x1_00ff);
    // Just below: the candidate is one window too high.
    assert_eq!(decode_packet_number(0x1_0000, 0xff, 1), 0xffff);
    for pn in [0u64, 1, 200, 70_000, 1 << 33] {
        for len in 1u8..=4 {
            let half = (1u64 << (8 * len)) / 2;
            let largest = pn.saturating_sub(half / 2);
            assert!(packet_number_fits(largest, pn % (1 << (8 * len)), len));
            assert_eq!(decode_packet_number(largest, pn % (1 << (8 * len)), len), pn);
        }
    }
}

#[test]
fn packet_numbers_out_of_range() {
    assert!(!packet_number_fits(u64::MAX, 0, 1));
    assert!(!packet_number_fits(0, 0, 8));
    assert!(!packet_number_fits(u64::MAX - 1, 0xffff_ffff, 4));
    assert!(packet_number_fits(u64::MAX - 1, 0, 4));
    assert!(packet_number_fits(u64::MAX - (1 << 33), 0, 4));
}

fn cid(bytes: &[u8]) -> ConnectionId {
    ConnectionId::new(Bytes::copy_from_slice(bytes)).unwrap()
}

#[test]
fn long_headers_round_trip() {
    for (ty, token) in [
        (LongType::Initial, Some(Bytes::from_static(b"token"))),
        (LongType::ZeroRtt, None),
        (LongType::Handshake, None),
    ] {
        for pn_len in 1u8..=4 {
            let hdr = LongHeader {
                ty,
                version: VERSION_2,
                dst_cid: cid(&[1, 2, 3]),
                src_cid: cid(&[9; 20]),
                token: token.clone(),
                length: Some(16384),
                truncated_pn: Some(0),
                pn_len: Some(pn_len),
            };
            let mut buf = Vec::new();
            let n = write_long_header(&hdr, &mut buf).unwrap();
            assert_eq!(n, buf.len());
            buf.extend_from_slice(b"payload");
            assert_eq!(parse_long_header(&buf).unwrap(), (hdr.clone(), n));
            // A packet number in place of the zeros is read back.
            buf[n - 1] = 0x2a;
            let (read, _) = parse_long_header(&buf).unwrap();
            assert_eq!(read.truncated_pn, Some(0x2a));
        }
    }
}

#[test]
fn retry_header_ends_with_its_ids() {
    let hdr = LongHeader {
        ty: LongType::Retry,
        version: VERSION_1,
        dst_cid: cid(&[1]),
        src_cid: cid(&[2, 3]),
        token: None,
        length: None,
        truncated_pn: None,
        pn_len: None,
    };
    let mut buf = Vec::new();
    let n = write_long_header(&hdr, &mut buf).unwrap();
    assert_eq!(buf, [0xf0, 0, 0, 0, 1, 1, 1, 2, 2, 3]);
    buf.extend_from_slice(&[0xaa; 30]);
    assert_eq!(parse_long_header(&buf).unwrap(), (hdr, n));
}

#[test]
fn short_headers_round_trip() {
    for pn_len in 1u8..=3 {
        let hdr = ShortHeader {
            spin: true,
            key_phase: true,
            dst_cid: cid(&[5, 6, 7, 8]),
            truncated_pn: 0,
            pn_len,
        };
        let mut buf = Vec::new();
        let n = write_short_header(&hdr, &mut buf).unwrap();
        assert_eq!(n, 5 + pn_len as usize);
        assert_eq!(buf[0], 0x64 + pn_len);
        buf.push(0xff);
        assert_eq!(parse_short_header(&buf, 4).unwrap(), (hdr, n));
    }
}

#[test]
fn four_byte_length_leaves_the_flags_alone() {
    for (spin, key_phase, first) in [
        (false, false, 0x40u8),
        (true, false, 0x60),
        (false, true, 0x44),
        (true, true, 0x64),
    ] {
        let hdr = ShortHeader {
            spin,
            key_phase,
            dst_cid: cid(&[]),
            truncated_pn: 0,
            pn_len: 4,
        };
        let mut buf = Vec::new();
        assert_eq!(write_short_header(&hdr, &mut buf).unwrap(), 5);
        assert_eq!(buf, [first, 0, 0, 0, 0]);
    }
}

#[test]
fn packet_numbers_stay_below_their_limit() {
    let limit = 1u64 << 62;
    assert_eq!(decode_packet_number(limit - 2, 0, 1), limit - 256);
    assert_eq!(decode_packet_number(limit - 300, 0, 1), limit - 256);
    assert_eq!(decode_packet_number(limit - 257, 0, 1), limit - 256);
    assert_eq!(decode_packet_number(limit - 2, 0xfe, 1), limit - 2);
    // Far below, the window is added as ever.
    assert_eq!(decode_packet_number(254, 0, 1), 256);
}

#[test]
fn ids_of_protected_headers() {
    assert_eq!(parse_short_id(&[0x5f, 1, 2, 3], 2).unwrap(), cid(&[1, 2]));
    assert_eq!(parse_short_id(&[0x40], 0).unwrap(), cid(&[]));
    assert!(matches!(
        parse_short_id(&[0x5f, 1, 2], 3).unwrap_err(),
        PacketError::BufferTooShort { needed: 4, actual: 3 }
    ));
    assert!(matches!(
        parse_short_id(&[0x80], 0).unwrap_err(),
        PacketError::InvalidHeaderForm { expected: 0, actual: 1 }
    ));
    assert!(matches!(
        parse_short_id(&[0x3f], 0).unwrap_err(),
        PacketError::FixedBitNotSet
    ));
    assert!(matches!(
        parse_short_id(&[0x41; 40], 21).unwrap_err(),
        PacketError::Frame(FrameError::InvalidCidLength(21))
    ));
}

#[test]
fn long_header_errors() {
    let ok = [0xc0u8, 0, 0, 0, 1, 0, 0, 0, 0, 0];
    assert!(parse_long_header(&ok).is_ok());
    assert!(matches!(
        parse_long_header(&[]).unwrap_err(),
        PacketError::BufferTooShort { needed: 1, actual: 0 }
    ));
    assert!(matches!(
        parse_long_header(&[0x40]).unwrap_err(),
        PacketError::InvalidHeaderForm { expected: 1, actual: 0 }
    ));
    assert!(matches!(
        parse_long_header(&ok[..3]).unwrap_err(),
        PacketError::BufferTooShort { needed: 5, actual: 3 }
    ));
    assert!(matches!(
        parse_long_header(&[0x80, 0, 0, 0, 1, 0, 0]).unwrap_err(),
        PacketError::FixedBitNotSet
    ));
    assert!(matches!(
        parse_long_header(&[0xc0, 0, 0, 0, 1, 21]).unwrap_err(),
        PacketError::InvalidCidLength(21)
    ));
    assert!(matches!(
        parse_long_header(&[0xc0, 0, 0, 0, 1, 0, 21]).unwrap_err(),
        PacketError::InvalidCidLength(21)
    ));
    assert!(matches!(
        parse_long_header(&[0xc0, 0, 0, 0, 1, 4, 1, 2]).unwrap_err(),
        PacketError::BufferTooShort { needed: 11, actual: 8 }
    ));
    // Token of five bytes that is not there.
    assert!(matches!(
        parse_long_header(&[0xc0, 0, 0, 0, 1, 0, 0, 5, 1]).unwrap_err(),
        PacketError::BufferTooShort { needed: 13, actual: 9 }
    ));
    // No length.
    assert!(matches!(
        parse_long_header(&ok[..8]).unwrap_err(),
        PacketError::VarInt(VarIntError::BufferTooShort { needed: 1, actual: 0 })
    ));
    // A packet number of four bytes, of which one is there.
    assert!(matches!(
        parse_long_header(&[0xc3, 0, 0, 0, 1, 0, 0, 0, 0, 0]).unwrap_err(),
        PacketError::BufferTooShort { needed: 13, actual: 10 }
    ));
}

#[test]
fn version_negotiation_with_a_long_id() {
    let mut buf = vec![0x80, 0, 0, 0, 0, 21];
    buf.extend_from_slice(&[1; 30]);
    assert!(matches!(
        parse_long_header(&buf).unwrap_err(),
        PacketError::Frame(FrameError::InvalidCidLength(21))
    ));
}

#[test]
fn short_header_errors() {
    assert!(matches!(
        parse_short_header(&[], 0).unwrap_err(),
        PacketError::BufferTooShort { needed: 1, actual: 0 }
    ));
    assert!(matches!(
        parse_short_header(&[0xc1, 0], 0).unwrap_err(),
        PacketError::InvalidHeaderForm { expected: 0, actual: 1 }
    ));
    assert!(matches!(
        parse_short_header(&[0x40, 0], 0).unwrap_err(),
        PacketError::ReservedBitsSet
    ));
    assert!(matches!(
        parse_short_header(&[0x41, 1, 2], 8).unwrap_err(),
        PacketError::BufferTooShort { needed: 9, actual: 3 }
    ));
    assert!(matches!(
        parse_short_header(&[0x43, 1, 2], 0).unwrap_err(),
        PacketError::BufferTooShort { needed: 4, actual: 3 }
    ));
    assert!(matches!(
        parse_short_header(&[0x41; 40], 21).unwrap_err(),
        PacketError::Frame(FrameError::InvalidCidLength(21))
    ));
}

#[test]
fn lengths_too_large_to_write() {
    let hdr = LongHeader {
        ty: LongType::Handshake,
        version: VERSION_1,
        dst_cid: cid(&[]),
        src_cid: cid(&[]),
        token: None,
        length: Some(u64::MAX),
        truncated_pn: Some(0),
        pn_len: Some(1),
    };
    let mut buf = Vec::new();
    assert!(matches!(
        write_long_header(&hdr, &mut buf).unwrap_err(),
        PacketError::VarInt(VarIntError::ValueTooLarge { value: u64::MAX })
    ));
    assert_eq!(buf, [0xe0, 0, 0, 0, 1, 0, 0]);
}

#[test]
fn type_bits_round_trip() {
    for bits in 0u8..4 {
        assert_eq!(LongType::from_bits(bits).unwrap().to_bits(), bits);
    }
    assert_eq!(LongType::from_bits(4), None);
    assert_eq!(LongType::VersionNegotiation.to_bits(), 0);
}

#[test]
fn packet_number_fields() {
    assert_eq!(read_pn(&[0x12, 0x34, 0x56, 0x78, 0x9a], 4), 0x1234_5678);
    assert_eq!(read_pn(&[0x12, 0x34, 0x56], 3), 0x0012_3456);
    assert_eq!(read_pn(&[], 0), 0);
    assert_eq!(read_pn(&[1, 2, 3, 4, 5], 5), 0);
}

#[test]
fn long_headers_are_read_to_their_end_and_no_further() {
    for ty in [LongType::Initial, LongType::Handshake, LongType::Retry] {
        let numbered = ty != LongType::Retry;
        let hdr = LongHeader {
            ty,
            version: VERSION_1,
            dst_cid: cid(&[1, 2, 3]),
            src_cid: cid(&[4; 8]),
            token: if ty == LongType::Initial { Some(Bytes::from_static(b"t")) } else { None },
            length: if numbered { Some(100) } else { None },
            truncated_pn: if numbered { Some(0) } else { None },
            pn_len: if numbered { Some(2) } else { None },
        };
        let mut buf = Vec::new();
        write_long_header(&hdr, &mut buf).unwrap();
        let (read, n) = parse_long_header(&buf).unwrap();
        assert_eq!(n, buf.len());
        buf.extend_from_slice(&[0xff; 30]);
        assert_eq!(parse_long_header(&buf).unwrap(), (read, n));
        for k in 0..n {
            assert!(parse_long_header(&buf[..k]).is_err());
        }
    }
}
