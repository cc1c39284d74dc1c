use rosc::encoder;
use rosc::output::NullOutput;
use rosc::OscBundle;
use rosc::OscMessage;
use rosc::OscPacket;
use rosc::OscTime;
use rosc::OscType;

#[test]
fn greeting_message_layout() {
    let packet = OscPacket::Message(OscMessage {
        addr: "/greet/me".to_string(),
        args: vec![OscType::Text("hi!".to_string())],
    });
    let bytes = encoder::encode(&packet);
    let mut expected: Vec<u8> = Vec::new();
    expected.extend_from_slice(b"/greet/me\0\0\0");
    expected.extend_from_slice(b",s\0\0");
    expected.extend_from_slice(b"hi!\0");
    assert_eq!(expected.len(), 20);
    assert_eq!(bytes, expected);
}

#[test]
fn argument_free_message_layout() {
    let packet = OscPacket::Message(OscMessage {
        addr: "/OSC/Message".to_string(),
        args: vec![],
    });
    let bytes = encoder::encode(&packet);
    let mut expected: Vec<u8> = Vec::new();
    expected.extend_from_slice(b"/OSC/Message\0\0\0\0");
    expected.extend_from_slice(b",\0\0\0");
    assert_eq!(expected.len(), 20);
    assert_eq!(bytes, expected);
}

#[test]
fn zero_time_bundle_layout() {
    let message = OscPacket::Message(OscMessage {
        addr: "/m".to_string(),
        args: vec![],
    });
    let mut sink = NullOutput::new();
    let message_len = encoder::encode_into(&message, &mut sink).unwrap();

    let bundle = OscPacket::Bundle(OscBundle {
        timetag: OscTime {
            seconds: 0,
            fractional: 0,
        },
        content: vec![message],
    });
    let bytes = encoder::encode(&bundle);
    assert_eq!(&bytes[0..8], b"#bundle\0");
    assert_eq!(&bytes[8..16], &[0u8; 8]);
    let prefix = u32::from_be_bytes([bytes[16], bytes[17], bytes[18], bytes[19]]) as usize;
    assert_eq!(prefix, message_len);
    assert_eq!(bytes.len(), 20 + message_len);
    assert_eq!(&bytes[20..], b"/m\0\0,\0\0\0");
}

#[test]
fn nested_array_tags_and_data() {
    let packet = OscPacket::Message(OscMessage {
        addr: "/ar".to_string(),
        args: vec![OscType::Array(rosc::OscArray {
            content: vec![
                OscType::Int(42),
                OscType::Array(rosc::OscArray {
                    content: vec![
                        OscType::Double(1.23f64.to_bits()),
                        OscType::Double(3.21f64.to_bits()),
                    ],
                }),
                OscType::Text("x".to_string()),
            ],
        })],
    });
    let bytes = encoder::encode(&packet);
    let mut expected: Vec<u8> = Vec::new();
    expected.extend_from_slice(b"/ar\0");
    expected.extend_from_slice(b",[i[dd]s]\0\0\0");
    expected.extend_from_slice(&42i32.to_be_bytes());
    expected.extend_from_slice(&1.23f64.to_be_bytes());
    expected.extend_from_slice(&3.21f64.to_be_bytes());
    expected.extend_from_slice(b"x\0\0\0");
    assert_eq!(bytes, expected);
}
