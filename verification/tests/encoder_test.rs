use rosc::encoder::pad;
use rosc::{decoder, encoder};
use rosc::{OscArray, OscBundle, OscColor, OscMessage, OscMidiMessage, OscPacket, OscType};

#[test]
fn encoder_test_pad() {
    assert_eq!(4, pad(4));
    assert_eq!(8, pad(5));
    assert_eq!(8, pad(6));
    assert_eq!(8, pad(7));
}

#[test]
fn encoder_test_test_pad() {
    assert_eq!(4, pad(4));
    assert_eq!(8, pad(5));
    assert_eq!(8, pad(6));
    assert_eq!(8, pad(7));
}

#[test]
fn test_encode_message_wo_args() {
    let packet = OscPacket::Message(OscMessage {
        addr: "/some/addr".to_string(),
        args: vec![],
    });

    let bytes = encoder::encode(&packet).unwrap();
    assert_eq!(bytes.len() % 4, 0);

    let (tail, decoded_packet) = decoder::decode_udp(&bytes).expect("decode failed");
    assert_eq!(0, tail.len());
    assert_eq!(packet, decoded_packet)
}

#[test]
fn test_encode_empty_bundle() {
    let packet = OscPacket::Bundle(OscBundle {
        timetag: (4, 2).into(),
        content: vec![],
    });

    let bytes = encoder::encode(&packet).unwrap();
    assert_eq!(bytes.len() % 4, 0);
    assert_eq!(bytes.len(), 16);

    let (tail, decoded_packet) = decoder::decode_udp(&bytes).expect("decode failed");
    assert_eq!(0, tail.len());
    assert_eq!(packet, decoded_packet)
}

#[test]
fn test_encode_message_with_args() {
    let packet = OscPacket::Message(OscMessage {
        addr: "/another/address/1".to_string(),
        args: vec![
            4i32.into(),
            42i64.into(),
            OscType::Float(3.1415926f32.to_bits()),
            OscType::Double(3.14159265359f64.to_bits()),
            OscType::String("This is a string.".to_string()),
            OscType::String("This is a string too.".to_string()),
            vec![1u8, 2u8, 3u8].into(),
            (123, 456).into(),
            'c'.into(),
            false.into(),
            true.into(),
            OscType::Nil,
            OscType::Inf,
            OscMidiMessage {
                port: 4,
                status: 41,
                data1: 42,
                data2: 129,
            }
            .into(),
            OscColor {
                red: 255,
                green: 192,
                blue: 42,
                alpha: 13,
            }
            .into(),
            OscArray {
                content: vec![
                    42i32.into(),
                    OscArray {
                        content: vec![
                            OscType::Double(1.23f64.to_bits()),
                            OscType::Double(3.21f64.to_bits()),
                        ],
                    }
                    .into(),
                    OscType::String("Yay".to_string()),
                ],
            }
            .into(),
        ],
    });

    let bytes = encoder::encode(&packet).unwrap();
    assert_eq!(bytes.len() % 4, 0);

    let (tail, decoded_packet) = decoder::decode_udp(&bytes).expect("decode failed");
    assert_eq!(0, tail.len());
    assert_eq!(packet, decoded_packet)
}

#[test]
fn test_encode_bundle() {
    let packet = OscPacket::Bundle(OscBundle {
        timetag: (1234, 4321).into(),
        content: vec![
            OscPacket::Message(OscMessage {
                addr: "/view/1".to_string(),
                args: vec![],
            }),
            OscPacket::Message(OscMessage {
                addr: "/mixer/channel/1/amp".to_string(),
                args: vec![OscType::Float(0.9f32.to_bits())],
            }),
            OscPacket::Bundle(OscBundle {
                timetag: (5678, 8765).into(),
                content: vec![
                    OscPacket::Message(OscMessage {
                        addr: "/osc/1/freq".to_string(),
                        args: vec![440i32.into()],
                    }),
                    OscPacket::Message(OscMessage {
                        addr: "/osc/1/phase".to_string(),
                        args: vec![OscType::Float((-0.4f32).to_bits())],
                    }),
                ],
            }),
        ],
    });

    let bytes = encoder::encode(&packet).unwrap();
    assert_eq!(bytes.len() % 4, 0);

    let decoded_packet = decoder::decode_udp(&bytes).unwrap().1;
    assert_eq!(packet, decoded_packet);
}

#[test]
fn test_encode_string() {
    assert_eq!(encoder::encode_string(""), vec![0u8, 0, 0, 0]);
    assert_eq!(encoder::encode_string("abc"), vec![97u8, 98, 99, 0]);
    assert_eq!(
        encoder::encode_string("abcd"),
        vec![97u8, 98, 99, 100, 0, 0, 0, 0]
    );
}

#[test]
fn test_encode_rejects_empty_address() {
    let packet = OscPacket::Message(OscMessage {
        addr: String::new(),
        args: vec![],
    });
    assert!(encoder::encode(&packet).is_err());

    let nested = OscPacket::Bundle(OscBundle {
        timetag: (0, 0).into(),
        content: vec![packet],
    });
    assert!(encoder::encode(&nested).is_err());
    assert!(encoder::encode_tcp(&[nested]).is_err());
}

#[test]
fn test_encode_string_into() {
    let mut out: Vec<u8> = Vec::new();
    let n = rosc::encoder::encode_string_into("/ab", &mut out).unwrap();
    assert_eq!(n, 4);
    assert_eq!(out, vec![0x2fu8, 97, 98, 0]);
    let n = rosc::encoder::encode_string_into("cdef", &mut out).unwrap();
    assert_eq!(n, 8);
    assert_eq!(out, vec![0x2fu8, 97, 98, 0, 99, 100, 101, 102, 0, 0, 0, 0]);
}
