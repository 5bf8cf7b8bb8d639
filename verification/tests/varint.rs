use deerquic::varint::{decode, encode, encoded_len, VarIntError, VARINT_MAX};

#[test]
fn round_trip_boundaries() {
    let cases = &[
        0, 1, 63, 64, 255, 16383, 16384, 65535, 1073741823, 1073741824, VARINT_MAX,
    ];
    for &v in cases {
        let mut buf = [0u8; 8];
        let n = encode(v, &mut buf).unwrap();
        let (decoded, consumed) = decode(&buf).unwrap();
        assert_eq!(consumed, n, "varint {v}");
        assert_eq!(decoded, v, "varint {v}");
    }
}

#[test]
fn encoded_lengths() {
    assert_eq!(encoded_len(0), 1);
    assert_eq!(encoded_len(63), 1);
    assert_eq!(encoded_len(64), 2);
    assert_eq!(encoded_len(16383), 2);
    assert_eq!(encoded_len(16384), 4);
    assert_eq!(encoded_len(1073741823), 4);
    assert_eq!(encoded_len(1073741824), 8);
}

#[test]
fn rfc_a1_examples() {
    let examples: &[(&[u8], u64)] = &[
        (
            &[0xc2, 0x19, 0x7c, 0x5e, 0xff, 0x14, 0xe8, 0x8c],
            151288809941952652,
        ),
        (&[0x9d, 0x7f, 0x3e, 0x7d], 494878333),
        (&[0x7b, 0xbd], 15293),
        (&[0x25], 37),
        (&[0x40, 0x25], 37), // non-minimal encoding: 37 in 2 bytes (allowed)
    ];
    for (bytes, expected) in examples {
        let (v, n) = decode(bytes).unwrap();
        assert_eq!(v, *expected, "decode {bytes:02x?}");
        assert_eq!(n, bytes.len());
    }
}

#[test]
fn value_too_large() {
    let err = encode(VARINT_MAX + 1, &mut [0u8; 16]);
    assert!(matches!(err, Err(VarIntError::ValueTooLarge { value: _ })));
}

#[test]
fn buffer_too_short() {
    let v = 0x4000u64; // needs 4 bytes
    let err = encode(v, &mut [0u8; 2]);
    assert!(matches!(err, Err(VarIntError::BufferTooShort { .. })));
}

#[test]
fn decode_truncated() {
    // 2-byte varint truncated to 1 byte
    let buf = [0x40u8]; // 01xxxxxx says 2 bytes
    let err = decode(&buf).unwrap_err();
    assert!(matches!(err, VarIntError::BufferTooShort { .. }));
}

#[test]
fn decode_empty() {
    let err = decode(&[]).unwrap_err();
    assert!(matches!(err, VarIntError::BufferTooShort { .. }));
}
