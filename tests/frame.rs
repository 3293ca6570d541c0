use teach_tech_core::frame::{encode_frame, Deframer, Field, Inbound, StreamEnd};

fn take_message(d: &mut Deframer) -> (String, Vec<u8>) {
    match d.next_frame() {
        Some(Inbound::Message(f)) => (f.tag, f.payload),
        Some(Inbound::InvalidTag) => panic!("tag rejected"),
        None => panic!("no frame"),
    }
}

#[test]
fn encode_frame_layout() {
    let bytes = encode_frame("ab", &[1, 2, 3]);
    assert_eq!(
        bytes,
        vec![0, 0, 0, 0, 0, 0, 0, 2, b'a', b'b', 0, 0, 0, 0, 0, 0, 0, 3, 1, 2, 3]
    );
}

#[test]
fn encode_frame_length_is_big_endian() {
    let payload = vec![7u8; 0x0102];
    let bytes = encode_frame("", &payload);
    assert_eq!(&bytes[..8], &[0u8; 8]);
    assert_eq!(&bytes[8..16], &[0, 0, 0, 0, 0, 0, 1, 2]);
    assert_eq!(bytes.len(), 16 + 0x0102);
}

#[test]
fn round_trip_small() {
    let mut d = Deframer::new();
    d.push_bytes(&encode_frame("1.2.3", b"hello"));
    assert_eq!(take_message(&mut d), ("1.2.3".to_string(), b"hello".to_vec()));
    assert!(d.next_frame().is_none());
    assert_eq!(d.end_of_stream(), StreamEnd::Clean);
}

#[test]
fn round_trip_empty_tag_and_payload() {
    let mut d = Deframer::new();
    d.push_bytes(&encode_frame("", &[]));
    assert_eq!(take_message(&mut d), (String::new(), Vec::new()));
    assert_eq!(d.end_of_stream(), StreamEnd::Clean);
}

#[test]
fn round_trip_largest_sizes() {
    let tag: String = "t".repeat(10000);
    let payload: Vec<u8> = (0..1_000_000u32).map(|i| (i % 251) as u8).collect();
    let mut d = Deframer::new();
    d.push_bytes(&encode_frame(&tag, &payload));
    let (t, p) = take_message(&mut d);
    assert_eq!(t, tag);
    assert_eq!(p, payload);
    assert_eq!(d.end_of_stream(), StreamEnd::Clean);
}

#[test]
fn round_trip_multibyte_tag() {
    let mut d = Deframer::new();
    d.push_bytes(&encode_frame("grüße-✓", &[0, 255]));
    assert_eq!(take_message(&mut d), ("grüße-✓".to_string(), vec![0, 255]));
}

#[test]
fn round_trip_byte_by_byte() {
    let mut stream = encode_frame("a", b"first");
    stream.extend(encode_frame("b", b""));
    stream.extend(encode_frame("c", b"third"));
    let mut d = Deframer::new();
    let mut got = Vec::new();
    for b in &stream {
        d.push_bytes(&[*b]);
        while let Some(i) = d.next_frame() {
            match i {
                Inbound::Message(f) => got.push((f.tag, f.payload)),
                Inbound::InvalidTag => panic!("tag rejected"),
            }
        }
    }
    assert_eq!(
        got,
        vec![
            ("a".to_string(), b"first".to_vec()),
            ("b".to_string(), Vec::new()),
            ("c".to_string(), b"third".to_vec()),
        ]
    );
    assert_eq!(d.end_of_stream(), StreamEnd::Clean);
}

#[test]
fn truncated_in_each_field() {
    let bytes = encode_frame("tag", b"payload");
    let cases = [
        (0usize, StreamEnd::Clean),
        (1, StreamEnd::Truncated(Field::TagLength)),
        (7, StreamEnd::Truncated(Field::TagLength)),
        (8, StreamEnd::Truncated(Field::Tag)),
        (10, StreamEnd::Truncated(Field::Tag)),
        (11, StreamEnd::Truncated(Field::PayloadLength)),
        (18, StreamEnd::Truncated(Field::PayloadLength)),
        (19, StreamEnd::Truncated(Field::Payload)),
        (25, StreamEnd::Truncated(Field::Payload)),
    ];
    for (cut, expected) in cases {
        let mut d = Deframer::new();
        d.push_bytes(&bytes[..cut]);
        assert!(d.next_frame().is_none(), "cut at {cut}");
        assert_eq!(d.end_of_stream(), expected, "cut at {cut}");
    }
}

#[test]
fn truncated_after_whole_frames() {
    let mut stream = encode_frame("x", b"1");
    let second = encode_frame("y", b"22");
    stream.extend_from_slice(&second[..12]);
    let mut d = Deframer::new();
    d.push_bytes(&stream);
    assert_eq!(take_message(&mut d), ("x".to_string(), b"1".to_vec()));
    assert!(d.next_frame().is_none());
    assert_eq!(d.end_of_stream(), StreamEnd::Truncated(Field::PayloadLength));
}

#[test]
fn whole_frame_pending_is_reported() {
    let mut d = Deframer::new();
    d.push_bytes(&encode_frame("x", b"1"));
    assert_eq!(d.end_of_stream(), StreamEnd::FramesPending);
}

#[test]
fn invalid_utf8_tag_is_dropped_and_stream_stays_aligned() {
    let mut stream = vec![0, 0, 0, 0, 0, 0, 0, 2, 0xff, 0xfe, 0, 0, 0, 0, 0, 0, 0, 1, 9];
    stream.extend(encode_frame("ok", b"next"));
    let mut d = Deframer::new();
    d.push_bytes(&stream);
    assert!(matches!(d.next_frame(), Some(Inbound::InvalidTag)));
    assert_eq!(take_message(&mut d), ("ok".to_string(), b"next".to_vec()));
    assert_eq!(d.end_of_stream(), StreamEnd::Clean);
}

#[test]
fn overlong_utf8_tag_is_rejected() {
    let mut stream = vec![0, 0, 0, 0, 0, 0, 0, 2, 0xc0, 0x80];
    stream.extend_from_slice(&[0, 0, 0, 0, 0, 0, 0, 0]);
    let mut d = Deframer::new();
    d.push_bytes(&stream);
    assert!(matches!(d.next_frame(), Some(Inbound::InvalidTag)));
    assert_eq!(d.end_of_stream(), StreamEnd::Clean);
}

#[test]
fn huge_declared_length_waits_for_bytes() {
    let mut d = Deframer::new();
    d.push_bytes(&[0xff; 8]);
    d.push_bytes(b"abc");
    assert!(d.next_frame().is_none());
    assert_eq!(d.end_of_stream(), StreamEnd::Truncated(Field::Tag));
}

#[test]
fn whole_frames_then_cut_in_each_field() {
    let cut_frame = encode_frame("tag", b"payload");
    let cases = [
        (1usize, Field::TagLength),
        (8, Field::Tag),
        (11, Field::PayloadLength),
        (19, Field::Payload),
        (25, Field::Payload),
    ];
    for (cut, field) in cases {
        let mut stream = encode_frame("a", b"one");
        stream.extend(encode_frame("b", b"two"));
        stream.extend_from_slice(&cut_frame[..cut]);
        let mut d = Deframer::new();
        d.push_bytes(&stream);
        let mut got = Vec::new();
        while let Some(i) = d.next_frame() {
            match i {
                Inbound::Message(f) => got.push((f.tag, f.payload)),
                Inbound::InvalidTag => panic!("tag rejected"),
            }
        }
        assert_eq!(
            got,
            vec![("a".to_string(), b"one".to_vec()), ("b".to_string(), b"two".to_vec())],
            "cut at {cut}"
        );
        assert_eq!(d.end_of_stream(), StreamEnd::Truncated(field), "cut at {cut}");
    }
}
