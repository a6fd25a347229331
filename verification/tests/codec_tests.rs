use myodine::domain::Domain;
use myodine::header::{Header, Opcode, ResponseCode};
use myodine::message::RecordType;
use myodine::record_code::get_record_code;
use myodine::flags::{parse_optional, FlagArgs, Flags};

#[test]
fn record_codecs_round_trip() {
    // every registered (record type, encoding name) pair
    let pairs = [
        (RecordType::Txt, "raw"),
        (RecordType::Txt, "hex"),
        (RecordType::Cname, "hex"),
        (RecordType::Ns, "hex"),
    ];
    for (rt, enc) in pairs {
        let code = get_record_code(rt, enc).unwrap();
        for len in 0..=code.max_payload_len(16) {
            let payload: Vec<u8> = (0..len as u8).map(|b| b.wrapping_mul(37)).collect();
            let body = code.encode_body(&payload).unwrap();
            assert!(body.len() <= 16);
            assert_eq!(code.decode_body(&body).unwrap(), payload);
        }
    }
}

#[test]
fn hex_codec_exact_value() {
    let code = get_record_code(RecordType::Cname, "hex").unwrap();
    let body = code.encode_body(&[0xde, 0xad, 0x01]).unwrap();
    assert_eq!(body, b"dead01".to_vec());
    assert_eq!(code.decode_body(b"DEAD01").unwrap(), vec![0xde, 0xad, 0x01]);
    assert!(code.decode_body(b"abc").is_err());
    assert!(code.decode_body(b"zz").is_err());
}

#[test]
fn unknown_codec_pairs() {
    assert!(get_record_code(RecordType::Cname, "raw").is_none());
    assert!(get_record_code(RecordType::A, "hex").is_none());
    assert!(get_record_code(RecordType::Txt, "b64").is_none());
}

#[test]
fn header_round_trip() {
    let h = Header {
        identifier: 0x1234,
        is_response: true,
        opcode: Opcode::Query,
        authoritative: false,
        truncated: false,
        recursion_desired: true,
        recursion_available: false,
        response_code: ResponseCode::NXDomain,
        question_count: 1,
        answer_count: 2,
        authority_count: 3,
        additional_count: 4,
    };
    let bytes = h.dns_encode();
    assert_eq!(bytes, vec![0x12, 0x34, 0x81, 0x03, 0, 1, 0, 2, 0, 3, 0, 4]);
    assert_eq!(Header::dns_decode(&bytes).unwrap(), h);
    assert!(Header::dns_decode(&bytes[..11]).is_err());
}

#[test]
fn opcode_codes() {
    assert_eq!(Opcode::Notify.encode(), 4);
    assert_eq!(Opcode::decode(4), Opcode::Notify);
    assert_eq!(Opcode::decode(3), Opcode::Unknown(3));
    assert_eq!(Opcode::Unknown(9).encode(), 9);
    assert_eq!(ResponseCode::Refused.encode(), 5);
    assert_eq!(ResponseCode::decode(5), ResponseCode::Refused);
    assert_eq!(ResponseCode::decode(12), ResponseCode::Unknown(12));
}

#[test]
fn domain_parsing() {
    let d = Domain::parse_str("Foo.Bob.com").unwrap();
    assert_eq!(d.parts(), &vec!["Foo".to_owned(), "Bob".to_owned(), "com".to_owned()]);
    assert!(d.ends_with(&Domain::parse_str("BOB.COM").unwrap()));
    assert!(!d.ends_with(&Domain::parse_str("bob.org").unwrap()));
    assert!(Domain::parse_str("foo..com").is_err());
    assert!(Domain::parse_str("foo.b_b.com").is_err());
    assert!(Domain::parse_str(&"a".repeat(64)).is_err());
    assert!(Domain::parse_str(&"a.".repeat(200)).is_err());
}

#[test]
fn optional_flag_parsing() {
    assert_eq!(parse_optional(None), Ok(None));
    assert_eq!(parse_optional(Some("512")), Ok(Some(512)));
    assert!(parse_optional(Some("70000")).is_err());
    assert!(parse_optional(Some("12a")).is_err());
    assert!(parse_optional(Some("")).is_err());
}

#[test]
fn flag_defaults() {
    let args = FlagArgs {
        addr: None,
        host: "tun.example.com".to_owned(),
        concurrency: None,
        query_window: Some("16".to_owned()),
        response_window: None,
        password: Some("sesame".to_owned()),
        remote_host: None,
        remote_port: None,
        listen_port: None,
        query_min_time: None,
        query_max_time: None,
        query_mtu: Some("96".to_owned()),
        response_mtu: None,
    };
    let flags = Flags::parse(args).unwrap();
    assert_eq!(flags.addr, "localhost:53");
    assert_eq!(flags.concurrency, 2);
    assert_eq!(flags.query_window, 16);
    assert_eq!(flags.response_window, 4);
    assert_eq!(flags.password, "sesame");
    assert_eq!(flags.remote_host, Domain::parse_str("127.0.0.1").unwrap());
    assert_eq!(flags.remote_port, 22);
    assert_eq!(flags.listen_port, 2222);
    assert_eq!(flags.query_min_time_ms, 50);
    assert_eq!(flags.query_max_time_ms, 5000);
    assert_eq!(flags.query_mtu, Some(96));
    assert_eq!(flags.response_mtu, None);
}
