use rosc::encoder;
use rosc::output::NullOutput;
use rosc::OscBundle;
use rosc::OscColor;
use rosc::OscMessage;
use rosc::OscMidiMessage;
use rosc::OscPacket;
use rosc::OscTime;
use rosc::OscType;

#[test]
fn test_pad() {
    assert_eq!(4, encoder::pad(4));
    assert_eq!(8, encoder::pad(5));
    assert_eq!(8, encoder::pad(6));
    assert_eq!(8, encoder::pad(7));
}

#[test]
fn pad_small_values() {
    assert_eq!(0, encoder::pad(0));
    assert_eq!(4, encoder::pad(1));
    assert_eq!(4, encoder::pad(2));
    assert_eq!(4, encoder::pad(3));
    assert_eq!(8, encoder::pad(8));
    assert_eq!(12, encoder::pad(10));
}

#[test]
fn encode_string_adds_one_to_four_nuls() {
    assert_eq!(encoder::encode_string(""), vec![0, 0, 0, 0]);
    assert_eq!(encoder::encode_string("a"), vec![b'a', 0, 0, 0]);
    assert_eq!(encoder::encode_string("ab"), vec![b'a', b'b', 0, 0]);
    assert_eq!(encoder::encode_string("abc"), vec![b'a', b'b', b'c', 0]);
    assert_eq!(
        encoder::encode_string("abcd"),
        vec![b'a', b'b', b'c', b'd', 0, 0, 0, 0]
    );
}

#[test]
fn encode_string_into_counts_bytes() {
    let mut buf: Vec<u8> = Vec::new();
    let n = encoder::encode_string_into("hi!", &mut buf).unwrap();
    assert_eq!(n, 4);
    assert_eq!(buf, vec![b'h', b'i', b'!', 0]);
}

#[test]
fn empty_message_is_padded_address_and_comma() {
    let packet = OscPacket::Message(OscMessage {
        addr: "/x".to_string(),
        args: vec![],
    });
    let bytes = encoder::encode(&packet);
    assert_eq!(bytes, vec![b'/', b'x', 0, 0, b',', 0, 0, 0]);
}

#[test]
fn int_argument_is_big_endian() {
    let packet = OscPacket::Message(OscMessage {
        addr: "/x".to_string(),
        args: vec![OscType::Int(-2)],
    });
    let bytes = encoder::encode(&packet);
    let mut expected = vec![b'/', b'x', 0, 0, b',', b'i', 0, 0];
    expected.extend_from_slice(&(-2i32).to_be_bytes());
    assert_eq!(bytes, expected);
}

#[test]
fn every_argument_kind_encodes() {
    let packet = OscPacket::Message(OscMessage {
        addr: "/all".to_string(),
        args: vec![
            OscType::Int(7),
            OscType::Long(-1),
            OscType::Float(1.5f32.to_bits()),
            OscType::Double(2.5f64.to_bits()),
            OscType::Char('A'),
            OscType::Text("ok".to_string()),
            OscType::Blob(vec![1, 2, 3]),
            OscType::Time(OscTime {
                seconds: 1,
                fractional: 2,
            }),
            OscType::Midi(OscMidiMessage {
                port: 1,
                status: 2,
                data1: 3,
                data2: 4,
            }),
            OscType::Color(OscColor {
                red: 255,
                green: 0,
                blue: 10,
                alpha: 20,
            }),
            OscType::Bool(true),
            OscType::Bool(false),
            OscType::Nil,
            OscType::Inf,
        ],
    });
    let bytes = encoder::encode(&packet);

    let mut expected: Vec<u8> = Vec::new();
    expected.extend_from_slice(b"/all\0\0\0\0");
    expected.extend_from_slice(b",ihfdcsbtmrTFNI\0");
    expected.extend_from_slice(&7i32.to_be_bytes());
    expected.extend_from_slice(&(-1i64).to_be_bytes());
    expected.extend_from_slice(&1.5f32.to_be_bytes());
    expected.extend_from_slice(&2.5f64.to_be_bytes());
    expected.extend_from_slice(&('A' as u32).to_be_bytes());
    expected.extend_from_slice(b"ok\0\0");
    expected.extend_from_slice(&3u32.to_be_bytes());
    expected.extend_from_slice(&[1, 2, 3, 0]);
    expected.extend_from_slice(&1u32.to_be_bytes());
    expected.extend_from_slice(&2u32.to_be_bytes());
    expected.extend_from_slice(&[1, 2, 3, 4]);
    expected.extend_from_slice(&[255, 0, 10, 20]);
    assert_eq!(bytes, expected);
    assert_eq!(bytes.len() % 4, 0);
}

#[test]
fn blob_without_padding_keeps_exact_length() {
    let packet = OscPacket::Message(OscMessage {
        addr: "/b".to_string(),
        args: vec![OscType::Blob(vec![9, 8, 7, 6])],
    });
    let bytes = encoder::encode(&packet);
    let mut expected = vec![b'/', b'b', 0, 0, b',', b'b', 0, 0];
    expected.extend_from_slice(&4u32.to_be_bytes());
    expected.extend_from_slice(&[9, 8, 7, 6]);
    assert_eq!(bytes, expected);
}

#[test]
fn empty_blob_is_just_the_length_prefix() {
    let packet = OscPacket::Message(OscMessage {
        addr: "/b".to_string(),
        args: vec![OscType::Blob(vec![])],
    });
    let bytes = encoder::encode(&packet);
    let mut expected = vec![b'/', b'b', 0, 0, b',', b'b', 0, 0];
    expected.extend_from_slice(&0u32.to_be_bytes());
    assert_eq!(bytes, expected);
}

#[test]
fn alignment_holds_for_varied_packets() {
    let packets = vec![
        OscPacket::Message(OscMessage {
            addr: "/a".to_string(),
            args: vec![OscType::Text("odd".to_string())],
        }),
        OscPacket::Message(OscMessage {
            addr: "/some/longer/address".to_string(),
            args: vec![OscType::Blob(vec![1]), OscType::Int(3)],
        }),
        OscPacket::Bundle(OscBundle {
            timetag: OscTime {
                seconds: 5,
                fractional: 6,
            },
            content: vec![OscPacket::Message(OscMessage {
                addr: "/y".to_string(),
                args: vec![OscType::Char('z')],
            })],
        }),
    ];
    for packet in &packets {
        assert_eq!(encoder::encode(packet).len() % 4, 0);
    }
}

#[test]
fn null_output_measures_without_storing() {
    let packet = OscPacket::Message(OscMessage {
        addr: "/greet/me".to_string(),
        args: vec![OscType::Text("hi!".to_string())],
    });
    let stored = encoder::encode(&packet);
    let mut sink = NullOutput::new();
    let measured = encoder::encode_into(&packet, &mut sink).unwrap();
    assert_eq!(measured, stored.len());
}

#[test]
fn buffer_reuse_matches_fresh_encodes() {
    let packet = OscPacket::Bundle(OscBundle {
        timetag: OscTime {
            seconds: 9,
            fractional: 1,
        },
        content: vec![
            OscPacket::Message(OscMessage {
                addr: "/one".to_string(),
                args: vec![OscType::Int(1)],
            }),
            OscPacket::Message(OscMessage {
                addr: "/two".to_string(),
                args: vec![OscType::Text("x".to_string())],
            }),
        ],
    });
    let mut fresh_a: Vec<u8> = Vec::new();
    encoder::encode_into(&packet, &mut fresh_a).unwrap();
    let mut fresh_b: Vec<u8> = Vec::new();
    encoder::encode_into(&packet, &mut fresh_b).unwrap();

    let mut reused: Vec<u8> = Vec::new();
    encoder::encode_into(&packet, &mut reused).unwrap();
    assert_eq!(reused, fresh_a);
    reused.clear();
    encoder::encode_into(&packet, &mut reused).unwrap();
    assert_eq!(reused, fresh_b);
}

#[test]
fn bundle_prefix_equals_measured_child_length() {
    let inner = OscPacket::Message(OscMessage {
        addr: "/inner".to_string(),
        args: vec![OscType::Int(3), OscType::Text("deep".to_string())],
    });
    let mut sink = NullOutput::new();
    let measured = encoder::encode_into(&inner, &mut sink).unwrap();

    let bundle = OscPacket::Bundle(OscBundle {
        timetag: OscTime {
            seconds: 0,
            fractional: 0,
        },
        content: vec![inner],
    });
    let bytes = encoder::encode(&bundle);
    let prefix = u32::from_be_bytes([bytes[16], bytes[17], bytes[18], bytes[19]]) as usize;
    assert_eq!(prefix, measured);
    assert_eq!(bytes.len(), 16 + 4 + measured);
}

#[test]
fn nested_bundle_is_framed_by_its_own_length() {
    let inner_bundle = OscPacket::Bundle(OscBundle {
        timetag: OscTime {
            seconds: 1,
            fractional: 2,
        },
        content: vec![OscPacket::Message(OscMessage {
            addr: "/leaf".to_string(),
            args: vec![],
        })],
    });
    let mut sink = NullOutput::new();
    let measured = encoder::encode_into(&inner_bundle, &mut sink).unwrap();

    let outer = OscPacket::Bundle(OscBundle {
        timetag: OscTime {
            seconds: 0,
            fractional: 1,
        },
        content: vec![inner_bundle],
    });
    let bytes = encoder::encode(&outer);
    assert_eq!(&bytes[0..8], b"#bundle\0");
    let prefix = u32::from_be_bytes([bytes[16], bytes[17], bytes[18], bytes[19]]) as usize;
    assert_eq!(prefix, measured);
    assert_eq!(&bytes[20..28], b"#bundle\0");
}

#[test]
fn empty_bundle_is_marker_and_time_tag() {
    let packet = OscPacket::Bundle(OscBundle {
        timetag: OscTime {
            seconds: 0x01020304,
            fractional: 0x05060708,
        },
        content: vec![],
    });
    let bytes = encoder::encode(&packet);
    let mut expected: Vec<u8> = Vec::new();
    expected.extend_from_slice(b"#bundle\0");
    expected.extend_from_slice(&[1, 2, 3, 4, 5, 6, 7, 8]);
    assert_eq!(bytes, expected);
}

#[test]
fn multibyte_text_counts_utf8_bytes() {
    let packet = OscPacket::Message(OscMessage {
        addr: "/caf\u{e9}".to_string(),
        args: vec![OscType::Text("\u{3c0}".to_string())],
    });
    let bytes = encoder::encode(&packet);
    let mut expected: Vec<u8> = Vec::new();
    expected.extend_from_slice("/caf\u{e9}".as_bytes());
    expected.extend_from_slice(&[0, 0]);
    expected.extend_from_slice(b",s\0\0");
    expected.extend_from_slice("\u{3c0}".as_bytes());
    expected.extend_from_slice(&[0, 0]);
    assert_eq!(bytes, expected);
}

#[test]
fn char_argument_is_the_widened_code_point() {
    let packet = OscPacket::Message(OscMessage {
        addr: "/c".to_string(),
        args: vec![OscType::Char('\u{20ac}')],
    });
    let bytes = encoder::encode(&packet);
    let mut expected = vec![b'/', b'c', 0, 0, b',', b'c', 0, 0];
    expected.extend_from_slice(&0x20acu32.to_be_bytes());
    assert_eq!(bytes, expected);
}

#[test]
fn blob_padding_reaches_the_next_boundary() {
    for len in 1..=6usize {
        let packet = OscPacket::Message(OscMessage {
            addr: "/b".to_string(),
            args: vec![OscType::Blob(vec![0xAB; len])],
        });
        let bytes = encoder::encode(&packet);
        let mut expected = vec![b'/', b'b', 0, 0, b',', b'b', 0, 0];
        expected.extend_from_slice(&(len as u32).to_be_bytes());
        expected.extend_from_slice(&vec![0xAB; len]);
        expected.extend_from_slice(&vec![0u8; (4 - len % 4) % 4]);
        assert_eq!(bytes, expected, "blob of {} bytes", len);
    }
}

#[test]
fn deeply_nested_empty_arrays_are_only_brackets() {
    let packet = OscPacket::Message(OscMessage {
        addr: "/n".to_string(),
        args: vec![OscType::Array(rosc::OscArray {
            content: vec![OscType::Array(rosc::OscArray {
                content: vec![OscType::Array(rosc::OscArray { content: vec![] })],
            })],
        })],
    });
    let bytes = encoder::encode(&packet);
    let mut expected = vec![b'/', b'n', 0, 0];
    expected.extend_from_slice(b",[[[]]]\0");
    assert_eq!(bytes, expected);
}
