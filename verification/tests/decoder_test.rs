use rosc::{decoder, encoder, OscBundle, OscError, OscPacket, OscTime, OscType};

#[test]
fn test_decode_udp_no_args() {
    let raw_addr = "/some/valid/address/4";
    let addr = encoder::encode_string(raw_addr);
    let type_tags = encoder::encode_string(",");
    let bytes: Vec<u8> = addr.into_iter().chain(type_tags.into_iter()).collect();
    let (remainder, packet) = decoder::decode_udp(&bytes).expect("decode failed");

    assert_eq!(remainder.len(), 0);
    assert_eq!(
        OscPacket::Message(rosc::OscMessage {
            addr: raw_addr.into(),
            args: vec![],
        }),
        packet,
    );
}

#[test]
fn test_decode_tcp_no_args() {
    let raw_addr = "/some/valid/address/4";
    let addr = encoder::encode_string(raw_addr);
    let type_tags = encoder::encode_string(",");
    let mut bytes: Vec<u8> = addr.into_iter().chain(type_tags.into_iter()).collect();

    let packet_size_header = (bytes.len() as u32).to_be_bytes().to_vec();
    bytes = vec![packet_size_header, bytes].concat();

    let (remainder, packet) = decoder::decode_tcp_vec(&bytes).expect("decode failed");

    assert_eq!(remainder.len(), 0);
    assert_eq!(
        vec![OscPacket::Message(rosc::OscMessage {
            addr: raw_addr.into(),
            args: vec![],
        }),],
        packet,
    )
}

#[test]
fn test_decode_udp_empty_bundle() {
    let timetag = OscTime::from((4, 2));
    let content = vec![];
    let bytes = encoder::encode(&OscPacket::Bundle(OscBundle {
        timetag: timetag,
        content: content.clone(),
    }))
    .expect("encode failed");
    let (remainder, packet) = decoder::decode_udp(&bytes).expect("decode failed");

    assert_eq!(remainder.len(), 0);
    assert_eq!(OscPacket::Bundle(OscBundle { timetag, content }), packet)
}

#[test]
fn test_decode_udp_args() {
    let addr = encoder::encode_string("/another/valid/address/123");
    let f = 3.1415f32;
    let f_bytes: [u8; 4] = f.to_be_bytes();
    assert_eq!(f32::from_be_bytes(f_bytes), f);

    let d = 3.14159265359f64;
    let d_bytes: [u8; 8] = d.to_be_bytes();
    assert_eq!(f64::from_be_bytes(d_bytes), d);

    let i = 12345678i32;
    let i_bytes: [u8; 4] = i.to_be_bytes();

    let l = -1234567891011i64;
    let h_bytes: [u8; 8] = l.to_be_bytes();

    let blob_size: [u8; 4] = 6u32.to_be_bytes();
    let blob: Vec<u8> = vec![1u8, 2u8, 3u8, 4u8, 5u8, 6u8];

    let s = "I am an osc test string.";
    assert!(s.is_ascii());
    let s_bytes: Vec<u8> = encoder::encode_string(s);

    let c = '$';
    let c_bytes: [u8; 4] = (c as u32).to_be_bytes();

    let a = vec![
        OscType::Int(i),
        OscType::Float(f.to_bits()),
        OscType::Int(i),
    ];

    let type_tags = encoder::encode_string(",fdsTFibhNIc[ifi]");

    let args: Vec<u8> = f_bytes
        .iter()
        .chain(d_bytes.iter())
        .chain(s_bytes.iter())
        .chain(i_bytes.iter())
        .chain(blob_size.iter())
        .chain(blob.iter())
        .chain(vec![0u8, 0u8].iter())
        .chain(h_bytes.iter())
        .chain(c_bytes.iter())
        // array content
        .chain(i_bytes.iter())
        .chain(f_bytes.iter())
        .chain(i_bytes.iter())
        .copied()
        .collect::<Vec<u8>>();

    let bytes: Vec<u8> = addr
        .into_iter()
        .chain(type_tags.into_iter())
        .chain(args)
        .collect::<Vec<u8>>();

    let (remainder, packet) = decoder::decode_udp(&bytes).expect("decode failed");
    assert_eq!(remainder.len(), 0);
    assert_eq!(
        OscPacket::Message(rosc::OscMessage {
            addr: "/another/valid/address/123".into(),
            args: vec![
                rosc::OscType::Float(f.to_bits()),
                rosc::OscType::Double(d.to_bits()),
                rosc::OscType::String(s.into()),
                rosc::OscType::Bool(true),
                rosc::OscType::Bool(false),
                rosc::OscType::Int(i),
                rosc::OscType::Blob(blob),
                rosc::OscType::Long(l),
                rosc::OscType::Nil,
                rosc::OscType::Inf,
                rosc::OscType::Char(c),
                rosc::OscType::Array(rosc::OscArray { content: a }),
            ]
        }),
        packet
    )
}

#[test]
fn test_decode_unrecognized_packet_format() {
    // A leading string that is neither an address nor the bundle marker.
    let bytes = encoder::encode_string("nonsense");
    match decoder::decode_udp(&bytes) {
        Err(OscError::BadPacket(_)) => {}
        other => panic!("expected a bad packet error, got {:?}", other),
    }
}

#[test]
fn test_decode_empty_input() {
    match decoder::decode_udp(&[]) {
        Err(OscError::BadPacket(_)) => {}
        other => panic!("expected a bad packet error, got {:?}", other),
    }
}

#[test]
fn test_decode_stream_frame_insufficient_data() {
    // A declared 16-byte frame of which only 2 bytes arrived: not an error,
    // the bytes come back unchanged with no packet.
    let mut bytes: Vec<u8> = 16u32.to_be_bytes().to_vec();
    bytes.push(0x2f);
    bytes.push(0x61);
    let (remainder, packet) = decoder::decode_tcp(&bytes).expect("stream decode failed");
    assert_eq!(remainder, &bytes[..]);
    assert_eq!(packet, None);
}

#[test]
fn test_decode_truncated_message() {
    // An address without any type tag string after it.
    let bytes = encoder::encode_string("/truncated");
    match decoder::decode_udp(&bytes) {
        Err(OscError::ReadError(_)) => {}
        other => panic!("expected a read error, got {:?}", other),
    }
}

#[test]
fn test_decode_invalid_utf8_address() {
    // 0xff can never occur in UTF-8.
    let bytes = vec![0xffu8, 0xfe, 0xfd, 0x00];
    match decoder::decode_udp(&bytes) {
        Err(OscError::StringError(_)) => {}
        other => panic!("expected a string error, got {:?}", other),
    }
}

#[test]
fn test_decode_unknown_type_tag() {
    let mut bytes = encoder::encode_string("/x");
    bytes.extend(encoder::encode_string(",q"));
    bytes.extend(42i32.to_be_bytes());
    match decoder::decode_udp(&bytes) {
        Err(OscError::BadArg(_)) => {}
        other => panic!("expected a bad argument error, got {:?}", other),
    }
}

#[test]
fn test_decode_unmatched_array_close() {
    let mut bytes = encoder::encode_string("/x");
    bytes.extend(encoder::encode_string(",]"));
    match decoder::decode_udp(&bytes) {
        Err(OscError::BadMessage(_)) => {}
        other => panic!("expected a bad message error, got {:?}", other),
    }
}

#[test]
fn test_decode_invalid_char_code_point() {
    let mut bytes = encoder::encode_string("/x");
    bytes.extend(encoder::encode_string(",c"));
    // A surrogate value, which is not a Unicode scalar value.
    bytes.extend(0xd800u32.to_be_bytes());
    match decoder::decode_udp(&bytes) {
        Err(OscError::BadArg(_)) => {}
        other => panic!("expected a bad argument error, got {:?}", other),
    }
}

#[test]
fn test_roundtrip_non_ascii_strings() {
    let packet = OscPacket::Message(rosc::OscMessage {
        addr: "/gr\u{00fc}\u{00df}e/\u{6f22}".to_string(),
        args: vec![OscType::String("\u{00e9}t\u{00e9} \u{1f3b5}".to_string())],
    });
    let bytes = encoder::encode(&packet).expect("encode failed");
    assert_eq!(bytes.len() % 4, 0);
    let (tail, decoded) = decoder::decode_udp(&bytes).expect("decode failed");
    assert_eq!(0, tail.len());
    assert_eq!(packet, decoded);
}

#[test]
fn test_decode_trailing_bytes_after_message() {
    let mut bytes = encoder::encode_string("/a");
    bytes.extend(encoder::encode_string(","));
    bytes.extend(vec![1u8, 2, 3, 4]);
    let (remainder, packet) = decoder::decode_udp(&bytes).expect("decode failed");
    assert_eq!(remainder, &[1u8, 2, 3, 4]);
    assert_eq!(
        OscPacket::Message(rosc::OscMessage {
            addr: "/a".to_string(),
            args: vec![],
        }),
        packet
    );
}
