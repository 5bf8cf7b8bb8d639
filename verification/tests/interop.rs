use deerquic::interop::{
    is_supported, next_chunk, request_line, request_path, request_text, trim_request, url_path,
    Awaiting, ClientMove, ServerMove, Serving,
};

#[test]
fn supported_testcases() {
    assert!(is_supported("handshake"));
    assert!(is_supported("transfer"));
    assert!(!is_supported("retry"));
    assert!(!is_supported(""));
    assert!(!is_supported("handshakes"));
    assert!(!is_supported("handshakE"));
}

#[test]
fn requests_are_trimmed() {
    assert_eq!(trim_request("GET /a\r\n"), "GET /a");
    assert_eq!(trim_request("  \u{2003}x y\t"), "x y");
    assert_eq!(trim_request(" \r\n "), "");
    assert_eq!(trim_request(""), "");
}

#[test]
fn white_space_is_that_of_unicode() {
    for n in 0..0x11_0000u32 {
        if let Some(c) = char::from_u32(n) {
            let text = format!("{c}x");
            assert_eq!(trim_request(&text), text.trim(), "{n:#x}");
        }
    }
}

#[test]
fn paths_of_requests() {
    assert_eq!(request_path("GET /file1"), "file1");
    assert_eq!(request_path("GET /dir/file1"), "dir/file1");
    assert_eq!(request_path("GET /"), "");
    assert_eq!(request_path("/file1"), "/file1");
    assert_eq!(request_path("GET"), "GET");
    assert_eq!(request_path("GET /a\n\r\r"), "a");
    assert_eq!(request_path("GET /a\r\n"), "a\r");
}

#[test]
fn paths_of_urls() {
    assert_eq!(url_path("https://server/file1"), "file1");
    assert_eq!(url_path("https://server/dir/file1"), "dir/file1");
    assert_eq!(url_path("https://server/"), "");
    assert_eq!(url_path("https://server"), "index.html");
    assert_eq!(url_path(""), "index.html");
}

#[test]
fn requested_path_is_served() {
    let line = request_line("dir/file1");
    assert_eq!(line, "GET /dir/file1\r\n");
    let mut serving = Serving::new();
    match serving.on_received(line.as_bytes()) {
        ServerMove::Serve(path) => assert_eq!(path, "dir/file1"),
        _ => panic!("expected a path"),
    }
}

#[test]
fn server_gives_up_after_waiting() {
    let mut serving = Serving::new();
    for _ in 0..50 {
        assert!(matches!(serving.on_received(b""), ServerMove::Wait));
    }
    assert!(matches!(serving.on_received(b""), ServerMove::GiveUp));
    let mut serving = Serving { idle: 49 };
    assert!(matches!(serving.on_received(b" \r\n"), ServerMove::Finish));
    assert_eq!(serving.idle, 0);
}

#[test]
fn request_that_is_not_utf8_is_empty() {
    assert_eq!(request_text("GET /\u{e4}\r\n".as_bytes()), "GET /\u{e4}\r\n");
    assert_eq!(request_text(b"GET /\xff\r\n"), "");
    // An overlong slash, half of a surrogate pair, and a cut character.
    assert_eq!(request_text(&[0xc0, 0xaf]), "");
    assert_eq!(request_text(&[0xed, 0xa0, 0x80]), "");
    assert_eq!(request_text(&[b'a', 0xe2, 0x82]), "");
    let mut serving = Serving { idle: 7 };
    assert!(matches!(serving.on_received(b"GET /\xff\r\n"), ServerMove::Finish));
    assert_eq!(serving.idle, 0);
}

#[test]
fn files_are_sent_in_chunks() {
    let data: Vec<u8> = (0..2500u32).map(|i| i as u8).collect();
    let mut left = &data[..];
    let mut sizes = Vec::new();
    let mut sent = Vec::new();
    while !left.is_empty() {
        let (chunk, rest) = next_chunk(left);
        sizes.push(chunk.len());
        sent.extend_from_slice(chunk);
        left = rest;
    }
    assert_eq!(sizes, [1024, 1024, 452]);
    assert_eq!(sent, data);
    assert_eq!(next_chunk(&[7; 1024]).1.len(), 0);
    assert!(next_chunk(&[]).0.is_empty());
}

#[test]
fn client_takes_silence_for_the_end() {
    let mut awaiting = Awaiting::new();
    for _ in 0..30 {
        assert_eq!(awaiting.on_received(0), ClientMove::Wait);
    }
    assert_eq!(awaiting.on_received(5), ClientMove::Wait);
    assert_eq!(awaiting.silence, 0);
    for _ in 0..30 {
        assert_eq!(awaiting.on_received(0), ClientMove::Wait);
    }
    assert_eq!(awaiting.on_received(0), ClientMove::Complete);
}
