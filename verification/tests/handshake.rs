use deerquic::crypto::{drawn_bytes, random_bytes, server_initial_keys};
use deerquic::frame::{parse_frame, Frame};
use deerquic::handshake::{client_initial, client_session, initial_for_hello, initial_from, HandshakeError};
use deerquic::packet::{parse_long_header, VERSION_1};
use deerquic::protection::{decrypt_initial, MIN_INITIAL_SIZE};
use deerquic::varint::VarIntError;

#[test]
fn client_initial_encrypt_decrypt_roundtrip() {
    let packet = client_initial("localhost").expect("generate initial packet");

    // Verify minimum size
    assert!(packet.len() >= MIN_INITIAL_SIZE, "packet too small");

    // Verify long header form
    assert_eq!(packet[0] & 0x80, 0x80, "must be long header");

    // Verify version = 1
    let version = u32::from_be_bytes([packet[1], packet[2], packet[3], packet[4]]);
    assert_eq!(version, VERSION_1);

    // Extract DCID
    let dcid_len = packet[5] as usize;
    assert!(dcid_len > 0 && dcid_len <= 20);
    let dcid = &packet[6..6 + dcid_len];

    // Extract SCID
    let scid_pos = 6 + dcid_len;
    let scid_len = packet[scid_pos] as usize;
    let _scid = &packet[scid_pos + 1..scid_pos + 1 + scid_len];

    // Get server keys for decryption
    let server_keys = server_initial_keys(dcid).expect("server keys");

    // Calculate pn_offset
    // For Initial packet: header prefix + token_length(1) + length(assume 2 bytes)
    let hdr_prefix = 1 + 4 + 1 + dcid_len + 1 + scid_len;
    let token_len_size = 1;
    let length_field_size = 2;
    let pn_offset = hdr_prefix + token_len_size + length_field_size;

    // Read the PN length from the first byte (before header protection)
    // After HP, the first byte is masked. We need to remove HP first.
    let sample_len = server_keys.local.header.sample_len();
    let sample_offset = pn_offset + 4;
    assert!(packet.len() > sample_offset + sample_len);

    // Remove header protection
    let sample = &packet[sample_offset..sample_offset + sample_len];
    let mut first_byte = packet[0];
    let mut pn_encrypted = [packet[pn_offset]];
    server_keys
        .remote
        .header
        .decrypt_in_place(sample, &mut first_byte, &mut pn_encrypted)
        .expect("header protection decrypt");

    let pn_len = ((first_byte & 0x03) + 1) as usize;
    assert_eq!(pn_len, 1, "first packet has 1-byte PN");

    let pn_full: u64 = pn_encrypted[0] as u64;

    // Rebuild the unprotected header for AEAD AAD
    let header_total = pn_offset + pn_len;
    let mut aad = Vec::from(&packet[..header_total]);
    aad[0] = first_byte;
    aad[pn_offset] = pn_encrypted[0];

    // AEAD decrypt the payload
    let payload_start = header_total;
    let mut encrypted_payload = Vec::from(&packet[payload_start..]);
    let plaintext = server_keys
        .remote
        .packet
        .decrypt_in_place(pn_full, &aad, &mut encrypted_payload)
        .expect("AEAD decrypt");

    // Verify the plaintext contains at least one frame
    assert!(!plaintext.is_empty(), "plaintext must contain frames");

    // Parse the first frame — should be a CRYPTO frame
    let (frame, n) = parse_frame(plaintext).expect("parse frame");
    assert!(n > 0);

    match frame {
        Frame::Crypto { offset, data } => {
            assert_eq!(offset, 0, "CRYPTO frame offset must be 0");
            // Verify we got a TLS ClientHello (starts with 0x01 = client_hello type)
            assert!(
                data.starts_with(&[0x01]),
                "CRYPTO data should start with TLS ClientHello type byte, got {:02x?}",
                &data[..4]
            );
        }
        _ => panic!("expected CRYPTO frame, got {frame:?}"),
    }
}

#[test]
fn invalid_name_is_reported() {
    match client_initial("not a name!") {
        Err(HandshakeError::InvalidServerName(name)) => assert_eq!(name, "not a name!"),
        other => panic!("expected an invalid name, got {other:?}"),
    }
}

#[test]
fn hello_comes_out_whole() {
    let dst = vec![1u8, 2, 3, 4];
    let src = vec![5u8; 20];
    for len in [1usize, 300, 1150, 1151, 1152, 4000] {
        let hello: Vec<u8> = (0..len).map(|i| (i % 251) as u8 + 1).collect();
        let packet = initial_for_hello(Some(dst.clone()), Some(src.clone()), &hello).unwrap();
        assert!(packet.len() >= MIN_INITIAL_SIZE);
        let (hdr, _) = parse_long_header(&packet).unwrap();
        assert_eq!(&hdr.dst_cid.0[..], &dst[..]);
        assert_eq!(&hdr.src_cid.0[..], &src[..]);
        let keys = server_initial_keys(&dst).unwrap();
        let (frames, pn) = decrypt_initial(&packet, &hdr, &keys).unwrap();
        assert_eq!(pn, 0);
        match &frames[0] {
            Frame::Crypto { offset, data } => {
                assert_eq!(*offset, 0);
                assert_eq!(&data[..], &hello[..]);
            }
            other => panic!("expected CRYPTO, got {other:?}"),
        }
        assert!(frames[1..].iter().all(|f| *f == Frame::Padding));
    }
}

#[test]
fn short_hello_makes_a_packet_of_the_minimum_size() {
    let packet = initial_for_hello(Some(vec![1; 8]), Some(vec![2; 8]), &vec![3; 100]).unwrap();
    assert_eq!(packet.len(), MIN_INITIAL_SIZE);
}

#[test]
fn hello_too_long_for_the_length_field() {
    let err = initial_for_hello(Some(vec![1; 8]), Some(vec![2; 8]), &vec![3; 16384]).unwrap_err();
    assert!(matches!(
        err,
        HandshakeError::VarInt(VarIntError::BufferTooShort { needed: 4, actual: 3 })
    ));
}

#[test]
fn empty_hello_is_refused() {
    match initial_for_hello(Some(vec![1; 8]), Some(vec![2; 8]), &vec![]) {
        Err(HandshakeError::Internal(text)) => assert_eq!(text, "TLS produced no ClientHello"),
        other => panic!("expected an internal error, got {other:?}"),
    }
}

#[test]
fn no_random_bytes_are_reported() {
    for (dst, src) in [
        (None, Some(vec![2u8; 8])),
        (Some(vec![1u8; 8]), None),
        (None, None),
    ] {
        match initial_for_hello(dst, src, &vec![3; 100]) {
            Err(HandshakeError::Internal(text)) => assert_eq!(text, "no random bytes"),
            other => panic!("expected an internal error, got {other:?}"),
        }
    }
}

#[test]
fn random_bytes_are_drawn() {
    let a = random_bytes(32).unwrap();
    let b = random_bytes(32).unwrap();
    assert_eq!((a.len(), b.len()), (32, 32));
    assert_ne!(a, b);
    assert_ne!(a, [0u8; 32]);
    assert!(random_bytes(0).unwrap().is_empty());
}

#[test]
fn bytes_that_were_not_drawn_are_not_given() {
    assert_eq!(drawn_bytes(true, vec![1, 2, 3]), Some(vec![1, 2, 3]));
    assert_eq!(drawn_bytes(false, vec![1, 2, 3]), None);
}

#[test]
fn session_is_for_the_name() {
    assert!(matches!(
        client_session("not a name!"),
        Err(HandshakeError::InvalidServerName(name)) if name == "not a name!"
    ));
    let mut session = match client_session("a.deerquic.example") {
        Ok(session) => session,
        Err(e) => panic!("expected a session, got {e:?}"),
    };
    let packet = initial_from(&mut session).unwrap();
    let (hdr, _) = parse_long_header(&packet).unwrap();
    let keys = server_initial_keys(&hdr.dst_cid.0).unwrap();
    let (frames, _) = decrypt_initial(&packet, &hdr, &keys).unwrap();
    match &frames[0] {
        Frame::Crypto { data, .. } => {
            let name = b"a.deerquic.example";
            assert!(data.windows(name.len()).any(|w| w == name));
        }
        other => panic!("expected CRYPTO, got {other:?}"),
    }
}
