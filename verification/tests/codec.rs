use bytes::BytesMut;
use frame_gmix::codec::{Client, Server};

#[test]
fn client_encode_writes_length_then_body() {
    let mut dst = BytesMut::new();
    Client.encode(b"{}", &mut dst);
    assert_eq!(&dst[..], &[0, 2, b'{', b'}']);
}

#[test]
fn client_encode_appends() {
    let mut dst = BytesMut::from(&b"x"[..]);
    Client.encode(b"ab", &mut dst);
    assert_eq!(&dst[..], &[b'x', 0, 2, b'a', b'b']);
}

#[test]
fn client_encode_length_is_big_endian() {
    let body = vec![7u8; 0x0102];
    let mut dst = BytesMut::new();
    Client.encode(&body, &mut dst);
    assert_eq!(dst[0], 0x01);
    assert_eq!(dst[1], 0x02);
    assert_eq!(dst.len(), 0x0104);
}

#[test]
fn client_encode_cuts_length_to_sixteen_bits() {
    let body = vec![1u8; 0x1_0003];
    let mut dst = BytesMut::new();
    Client.encode(&body, &mut dst);
    assert_eq!(&dst[..2], &[0, 3]);
    assert_eq!(dst.len(), 0x1_0005);
}

#[test]
fn client_decode_waits_for_prefix() {
    let mut src = BytesMut::from(&[0u8][..]);
    assert!(Client.decode(&mut src).is_none());
    assert_eq!(&src[..], &[0]);
}

#[test]
fn client_decode_waits_for_body() {
    let mut src = BytesMut::from(&[0u8, 3, 1, 2][..]);
    assert!(Client.decode(&mut src).is_none());
    assert_eq!(&src[..], &[0, 3, 1, 2]);
}

#[test]
fn client_decode_cuts_one_frame() {
    let mut src = BytesMut::from(&[0u8, 2, 9, 8, 0, 1, 5][..]);
    let body = Client.decode(&mut src).unwrap();
    assert_eq!(&body[..], &[9, 8]);
    assert_eq!(&src[..], &[0, 1, 5]);
    let body = Client.decode(&mut src).unwrap();
    assert_eq!(&body[..], &[5]);
    assert!(src.is_empty());
}

#[test]
fn client_decode_empty_body() {
    let mut src = BytesMut::from(&[0u8, 0][..]);
    let body = Client.decode(&mut src).unwrap();
    assert!(body.is_empty());
    assert!(src.is_empty());
}

#[test]
fn client_roundtrip() {
    let mut buf = BytesMut::new();
    Client.encode(br#"{"a":1}"#, &mut buf);
    Client.encode(b"xyz", &mut buf);
    assert_eq!(&Client.decode(&mut buf).unwrap()[..], br#"{"a":1}"#);
    assert_eq!(&Client.decode(&mut buf).unwrap()[..], b"xyz");
    assert!(Client.decode(&mut buf).is_none());
}

#[test]
fn server_encode_counts_prefix_in_length() {
    let mut dst = BytesMut::new();
    Server::default().encode(b"{}", &mut dst);
    assert_eq!(&dst[..], &[0, 0, 0, 6, b'{', b'}']);
}

#[test]
fn server_encode_appends_after_existing_bytes() {
    let mut dst = BytesMut::from(&[1u8, 2][..]);
    Server::default().encode(b"z", &mut dst);
    assert_eq!(&dst[..], &[1, 2, 0, 0, 0, 5, b'z']);
}

#[test]
fn server_decode_waits_for_prefix() {
    let mut s = Server::default();
    let mut src = BytesMut::from(&[0u8, 0, 0][..]);
    assert_eq!(s.decode(&mut src), None);
    assert_eq!(&src[..], &[0, 0, 0]);
}

#[test]
fn server_decode_takes_prefix_then_waits_for_body() {
    let mut s = Server::default();
    let mut src = BytesMut::from(&[0u8, 0, 0, 3, b'a'][..]);
    assert_eq!(s.decode(&mut src), None);
    assert_eq!(&src[..], b"a");
    src.extend_from_slice(b"bc");
    assert_eq!(s.decode(&mut src), Some(3));
    assert_eq!(&src[..3], b"abc");
    s.consume(&mut src);
    assert!(src.is_empty());
    assert_eq!(s.decode(&mut src), None);
}

#[test]
fn server_decode_two_frames() {
    let mut s = Server::default();
    let mut src = BytesMut::from(&[0u8, 0, 0, 1, b'x', 0, 0, 0, 2, b'y', b'z'][..]);
    assert_eq!(s.decode(&mut src), Some(1));
    assert_eq!(&src[..1], b"x");
    s.consume(&mut src);
    assert_eq!(s.decode(&mut src), Some(2));
    assert_eq!(&src[..2], b"yz");
    s.consume(&mut src);
    assert!(src.is_empty());
}

#[test]
fn server_decode_without_consume_reports_the_same_body() {
    let mut s = Server::default();
    let mut src = BytesMut::from(&[0u8, 0, 0, 1, b'q'][..]);
    assert_eq!(s.decode(&mut src), Some(1));
    assert_eq!(s.decode(&mut src), Some(1));
    assert_eq!(&src[..], b"q");
}

#[test]
fn server_reads_its_own_frame_four_bytes_long() {
    let mut buf = BytesMut::new();
    let mut s = Server::default();
    s.encode(b"ab", &mut buf);
    assert_eq!(s.decode(&mut buf), None);
    buf.extend_from_slice(&[1, 2, 3, 4]);
    assert_eq!(s.decode(&mut buf), Some(6));
    assert_eq!(&buf[..6], &[b'a', b'b', 1, 2, 3, 4]);
}

fn drain(s: &mut Server, buf: &mut BytesMut) -> Vec<Vec<u8>> {
    let mut bodies = Vec::new();
    while let Some(n) = s.decode(buf) {
        bodies.push(buf[..n].to_vec());
        s.consume(buf);
    }
    bodies
}

#[test]
fn server_split_reads_decode_like_one_read() {
    let whole: Vec<u8> = vec![0, 0, 0, 2, b'a', b'b', 0, 0, 0, 1, b'c', 0, 0, 0, 3, b'x'];
    for cut in 0..=whole.len() {
        let mut one = Server::default();
        let mut buf = BytesMut::from(&whole[..]);
        let expected = drain(&mut one, &mut buf);

        let mut two = Server::default();
        let mut split = BytesMut::from(&whole[..cut]);
        let mut got = drain(&mut two, &mut split);
        split.extend_from_slice(&whole[cut..]);
        got.extend(drain(&mut two, &mut split));

        assert_eq!(got, expected, "cut at {}", cut);
        assert_eq!(&split[..], &buf[..]);
    }
}
