use deerquic::crypto::client_initial_keys;
use deerquic::packet::PacketNumberSpace;
use deerquic::protection::{
    encoded_pn_len, hdr_size_long, parse_frames, write_frames, write_pn,
};
use deerquic::frame::{Frame, FrameError};
use deerquic::space::Space;

#[test]
fn send_numbers_are_consecutive() {
    let mut space = Space::new(PacketNumberSpace::Handshake);
    assert_eq!(space.id, PacketNumberSpace::Handshake);
    assert_eq!(space.peek_send_pn(), 0);
    assert_eq!(space.next_send_pn(), 0);
    space.record_recv_pn(77);
    assert_eq!(space.next_send_pn(), 1);
    assert_eq!(space.next_send_pn(), 2);
    assert_eq!(space.peek_send_pn(), 3);
}

#[test]
fn largest_received_never_goes_down() {
    let mut space = Space::new(PacketNumberSpace::Initial);
    assert_eq!(space.largest_recv_pn(), 0);
    assert!(space.time_since_last_recv().is_none());
    assert!(!space.has_pending_acks());
    for (pn, largest) in [(4, 4), (2, 4), (9, 9), (9, 9), (0, 9)] {
        space.record_recv_pn(pn);
        assert_eq!(space.largest_recv_pn(), largest);
    }
    assert!(space.time_since_last_recv().is_some());
    assert!(space.has_pending_acks());
    assert_eq!(space.take_pending_acks(), [4, 2, 9, 9, 0]);
    assert!(space.take_pending_acks().is_empty());
}

#[test]
fn keys_are_installed() {
    let mut space = Space::new(PacketNumberSpace::Initial);
    assert!(!space.has_keys());
    assert!(space.local_keys().is_none());
    assert!(space.remote_keys().is_none());
    space.set_keys(client_initial_keys(b"id").unwrap());
    assert!(space.has_keys());
    assert_eq!(space.local_keys().unwrap().packet.tag_len(), 16);
    assert_eq!(space.remote_keys().unwrap().header.sample_len(), 16);
}

#[test]
fn packet_number_lengths() {
    for (pn, len) in [(0, 1), (255, 1), (256, 2), (65535, 2), (65536, 4), (u64::MAX, 4)] {
        assert_eq!(encoded_pn_len(pn, 0), len);
    }
    let mut buf = [0xffu8; 5];
    write_pn(&mut buf, 0x1122_3344_5566, 4);
    assert_eq!(buf, [0x33, 0x44, 0x55, 0x66, 0xff]);
    write_pn(&mut buf, 0x0102_0304, 3);
    assert_eq!(buf, [2, 3, 4, 0x66, 0xff]);
    write_pn(&mut buf, 0xabcd, 2);
    assert_eq!(buf, [0xab, 0xcd, 4, 0x66, 0xff]);
    write_pn(&mut buf, 0x99, 1);
    assert_eq!(buf, [0x99, 0xcd, 4, 0x66, 0xff]);
    write_pn(&mut buf, 7, 0);
    write_pn(&mut buf, 7, 5);
    assert_eq!(buf, [0x99, 0xcd, 4, 0x66, 0xff]);
}

#[test]
fn header_sizes() {
    assert_eq!(hdr_size_long(8, 8, 0, 63), 25);
    assert_eq!(hdr_size_long(8, 8, 0, 1200), 26);
    assert_eq!(hdr_size_long(0, 0, 0, 16384), 12);
}

#[test]
fn lists_of_frames_round_trip() {
    let frames = vec![
        Frame::Ping,
        Frame::MaxData { maximum: 70_000 },
        Frame::Crypto {
            offset: 3,
            data: bytes::Bytes::from_static(b"abc"),
        },
        Frame::HandshakeDone,
    ];
    let mut payload = write_frames(&frames).unwrap();
    assert_eq!(parse_frames(&payload).unwrap(), frames);
    payload.extend_from_slice(&[0; 3]);
    let parsed = parse_frames(&payload).unwrap();
    assert_eq!(parsed[..4], frames[..]);
    assert_eq!(parsed[4..], [Frame::Padding, Frame::Padding, Frame::Padding]);
    payload.push(0x3f);
    assert!(matches!(
        parse_frames(&payload).unwrap_err(),
        FrameError::UnknownType(0x3f)
    ));
    assert!(parse_frames(&[]).unwrap().is_empty());
}
