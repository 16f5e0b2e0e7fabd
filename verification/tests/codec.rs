use skinartplus::mc::codec::{check_packet_len, decode_packet, encode_packet, parse_string, parse_varint, varint_bytes, VarintProgress, VarintReader};

#[test]
fn varint_encodings() {
    assert_eq!(varint_bytes(0), vec![0x00]);
    assert_eq!(varint_bytes(1), vec![0x01]);
    assert_eq!(varint_bytes(127), vec![0x7f]);
    assert_eq!(varint_bytes(128), vec![0x80, 0x01]);
    assert_eq!(varint_bytes(300), vec![0xac, 0x02]);
    assert_eq!(varint_bytes(2097151), vec![0xff, 0xff, 0x7f]);
    assert_eq!(varint_bytes(-1), vec![0xff, 0xff, 0xff, 0xff, 0x0f]);
    assert_eq!(varint_bytes(i32::MIN), vec![0x80, 0x80, 0x80, 0x80, 0x08]);
}

#[test]
fn varint_reads_back() {
    for v in [0, 1, 127, 128, 255, 300, 25565, 2097151, i32::MAX, -1, i32::MIN] {
        let mut bytes = varint_bytes(v);
        let n = bytes.len();
        bytes.push(0x55);
        assert_eq!(parse_varint(&bytes).unwrap(), (v, n));
    }
}

#[test]
fn varint_errors() {
    assert_eq!(parse_varint(&[]).unwrap_err(), "invalid varint");
    assert_eq!(parse_varint(&[0x80]).unwrap_err(), "invalid varint");
    assert_eq!(parse_varint(&[0x80, 0x80, 0x80, 0x80, 0x80, 0x01]).unwrap_err(), "invalid varint");
}

#[test]
fn varint_reader_agrees_with_parse() {
    let mut r = VarintReader::new();
    assert!(matches!(r.feed(0xac), VarintProgress::More));
    assert!(matches!(r.feed(0x02), VarintProgress::Done(300)));
    let mut r = VarintReader::new();
    for _ in 0..4 {
        assert!(matches!(r.feed(0xff), VarintProgress::More));
    }
    assert!(matches!(r.feed(0xff), VarintProgress::TooLong));
}

#[test]
fn strings_are_length_prefixed() {
    let mut data = varint_bytes(5);
    data.extend_from_slice(b"hello!");
    assert_eq!(parse_string(&data).unwrap(), ("hello".to_string(), 6));
    assert_eq!(parse_string(&[3, b'a']).unwrap_err(), "invalid string");
    assert_eq!(parse_string(&[0x80]).unwrap_err(), "invalid varint");
    assert!(parse_string(&[2, 0xff, 0xfe]).is_err());
}

fn body_of(frame: &[u8]) -> &[u8] {
    let (len, n) = parse_varint(frame).unwrap();
    assert_eq!(len as usize, frame.len() - n);
    &frame[n..]
}

#[test]
fn uncompressed_packet_frame() {
    let frame = encode_packet(0x00, &[1, 2, 3], -1).unwrap();
    assert_eq!(frame, vec![4, 0x00, 1, 2, 3]);
    let (id, payload) = decode_packet(body_of(&frame), -1).unwrap();
    assert_eq!((id, payload), (0, vec![1, 2, 3]));
}

#[test]
fn small_packet_below_threshold_travels_as_is() {
    let frame = encode_packet(0x05, b"ab", 256).unwrap();
    assert_eq!(frame, vec![4, 0x00, 0x05, b'a', b'b']);
    let (id, payload) = decode_packet(body_of(&frame), 256).unwrap();
    assert_eq!((id, payload), (5, b"ab".to_vec()));
}

#[test]
fn large_packet_is_compressed_and_reads_back() {
    let payload = vec![7u8; 1000];
    let frame = encode_packet(0x21, &payload, 256).unwrap();
    assert!(frame.len() < 200);
    let body = body_of(&frame);
    assert_eq!(parse_varint(body).unwrap().0, 1001);
    let (id, got) = decode_packet(body, 256).unwrap();
    assert_eq!(id, 0x21);
    assert_eq!(got, payload);
}

#[test]
fn compressed_packet_errors() {
    assert_eq!(decode_packet(&[], 0).unwrap_err(), "empty compressed packet");
    assert_eq!(decode_packet(&[0x00, 0x80], 0).unwrap_err(), "invalid varint");
    assert!(decode_packet(&[0x05, 1, 2, 3], 0).is_err());
}

#[test]
fn packet_length_limit() {
    assert_eq!(check_packet_len(10).unwrap(), 10);
    assert_eq!(check_packet_len(-1).unwrap_err(), "oversized packet: -1");
    assert_eq!(check_packet_len(i32::MAX).unwrap_err(), format!("oversized packet: {}", i32::MAX));
}

#[test]
fn string_written_with_its_length_reads_back() {
    let text = "héllo wörld";
    let mut data = varint_bytes(text.len() as i32);
    let prefix = data.len();
    data.extend_from_slice(text.as_bytes());
    data.extend_from_slice(&[9, 9, 9]);
    assert_eq!(parse_string(&data), Ok((text.to_string(), prefix + text.len())));
}

#[test]
fn compressed_frames_are_always_built() {
    let payload = vec![7u8; 300];
    let frame = encode_packet(0x05, &payload, 0).unwrap();
    let (len, n) = parse_varint(&frame).unwrap();
    assert_eq!(n + len as usize, frame.len());
    assert_eq!(decode_packet(&frame[n..], 0), Ok((0x05, payload)));
}
