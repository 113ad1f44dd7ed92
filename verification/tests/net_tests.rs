use qrap::net::{
    content_length_of, derive_node_id, find_header_end, frame, http_ok_response_bytes, parse_http_body,
    push_decimal, testnet_peer_indices, testnet_port, unframe,
};

#[test]
fn test_roundtrip() {
    // a message's bytes framed and read back
    let payload = bincode::serialize(&(42u64, "hello".to_string())).unwrap();
    let encoded = frame(&payload);
    let (decoded, consumed) = unframe(&encoded).unwrap();
    let msg: (u64, String) = bincode::deserialize(&decoded).unwrap();
    assert_eq!(msg, (42u64, "hello".to_string()));
    assert_eq!(consumed, encoded.len());
}

#[test]
fn test_node_id_display() {
    let id = [0xab; 32];
    assert_eq!(hex::encode(&id[..4]), "abababab");
}

#[test]
fn frame_prefixes_big_endian_length() {
    let f = frame(&[9, 8, 7]);
    assert_eq!(f, vec![0, 0, 0, 3, 9, 8, 7]);
    let big = vec![1u8; 0x0102];
    let g = frame(&big);
    assert_eq!(&g[..4], &[0, 0, 1, 2]);
    assert_eq!(g.len(), 4 + 0x0102);
}

#[test]
fn unframe_waits_for_a_whole_frame() {
    assert!(unframe(&[0, 0]).is_none());
    assert!(unframe(&[0, 0, 0, 5, 1, 2]).is_none());
    let mut two = frame(&[1, 2]);
    two.extend_from_slice(&frame(&[3]));
    let (p, n) = unframe(&two).unwrap();
    assert_eq!(p, vec![1, 2]);
    assert_eq!(n, 6);
    let (q, m) = unframe(&two[n..]).unwrap();
    assert_eq!(q, vec![3]);
    assert_eq!(m, 5);
    let (e, k) = unframe(&[0, 0, 0, 0]).unwrap();
    assert!(e.is_empty());
    assert_eq!(k, 4);
}

#[test]
fn header_end_is_after_blank_line() {
    assert_eq!(find_header_end(b"GET / HTTP/1.1\r\nA: b\r\n\r\nbody"), Some(24));
    assert_eq!(find_header_end(b"\r\n\r\n"), Some(4));
    assert_eq!(find_header_end(b"no end\r\n"), None);
    assert_eq!(find_header_end(b"ab"), None);
}

#[test]
fn content_length_is_read_from_its_line() {
    assert_eq!(content_length_of(b"POST / HTTP/1.1\r\nContent-Length: 12\r\n\r\n"), 12);
    assert_eq!(content_length_of(b"POST / HTTP/1.1\r\nContent-Length: +7\r\n"), 7);
    assert_eq!(content_length_of(b"Content-Length: 3"), 3);
    assert_eq!(content_length_of(b"Host: x\r\n\r\n"), 0);
    assert_eq!(content_length_of(b"content-length: 5\r\n"), 0);
    assert_eq!(content_length_of(b"Content-Length: 5x\r\nContent-Length: 6\r\n"), 0);
    assert_eq!(content_length_of(b"Content-Length: 99999999999999999999999\r\n"), 0);
    assert_eq!(content_length_of(b"Content-Length: \r\n"), 0);
    assert_eq!(content_length_of(b"Content-Length: 8\r\r\n"), 0);
}

#[test]
fn http_body_takes_announced_length() {
    let head = "POST / HTTP/1.1\r\nContent-Length: 4\r\n\r\n";
    assert_eq!(parse_http_body(head, b"abcdefgh"), "abcd");
    assert_eq!(parse_http_body(head, b"ab"), "ab");
    assert_eq!(parse_http_body("GET / HTTP/1.1\r\n\r\n", b"abc"), "");
    // invalid UTF-8 is replaced
    assert_eq!(parse_http_body(head, &[0x61, 0xff, 0x62, 0x63]), "a\u{fffd}bc");
}

#[test]
fn testnet_identities() {
    let id = derive_node_id(3);
    assert_eq!(id[0], 3);
    assert_eq!(id[1], 0xAB);
    assert!(id[2..].iter().all(|b| *b == 0));
    assert_eq!(testnet_port(2), 10002);
    assert_eq!(testnet_peer_indices(1), vec![0, 2, 3]);
    assert_eq!(testnet_peer_indices(9), vec![0, 1, 2, 3]);
}

#[test]
fn every_proper_prefix_of_a_frame_is_incomplete() {
    let f = frame(b"hello world");
    for k in 0..f.len() {
        assert!(unframe(&f[..k]).is_none());
    }
    assert!(unframe(&f).is_some());
}

#[test]
fn decimal_digits() {
    let mut out = b"n=".to_vec();
    push_decimal(&mut out, 0);
    assert_eq!(out, b"n=0".to_vec());
    let mut big = Vec::new();
    push_decimal(&mut big, 1234567890);
    assert_eq!(big, b"1234567890".to_vec());
}

#[test]
fn http_response_carries_the_body_length() {
    let body = r#"{"jsonrpc":"2.0","result":1,"id":7}"#;
    let expected = format!(
        "HTTP/1.1 200 OK\r\nContent-Type: application/json\r\nContent-Length: {}\r\nConnection: keep-alive\r\n\r\n{}",
        body.len(),
        body
    );
    assert_eq!(http_ok_response_bytes(body.as_bytes()), expected.into_bytes());
    let empty = http_ok_response_bytes(b"");
    assert!(String::from_utf8(empty).unwrap().contains("Content-Length: 0\r\n"));
}
