use myodine::domain::Domain;
use myodine::establish::{password_proof, EstablishQuery, EstablishResponse, is_establish_query};
use myodine::header::Header;
use myodine::message::{Message, Question, RecordType, RecordClass};

fn dom(s: &str) -> Domain {
    Domain::parse_str(s).unwrap()
}

fn header() -> Header {
    Header {
        identifier: 0,
        is_response: false,
        opcode: myodine::header::Opcode::Query,
        authoritative: false,
        truncated: false,
        recursion_desired: true,
        recursion_available: false,
        response_code: myodine::header::ResponseCode::NoError,
        question_count: 1,
        answer_count: 0,
        authority_count: 0,
        additional_count: 0,
    }
}

#[test]
fn query_encoding() {
    let query = EstablishQuery {
        response_encoding: "raw".to_owned(),
        mtu: 123,
        name_encoding: "b64".to_owned(),
        query_window: 64,
        response_window: 32,
        proof: 0x913379,
        port: 1337,
        host: dom("foo.bob.com"),
    };
    let encoded = query.to_domain(&dom("baz.proxy.com")).unwrap();
    let expected = "eraw.123.b64.64.32.913379.1337.foo.bob.com.baz.proxy.com";
    assert_eq!(dom(expected), encoded);
}

#[test]
fn query_decoding() {
    let query = EstablishQuery::from_domain(
        &dom("eraw.123.b64.64.32.913379.1337.foo.bob.com.baz.proxy.com"),
        &dom("baz.proxy.com"),
    )
    .unwrap();
    assert_eq!(
        query,
        EstablishQuery {
            response_encoding: "raw".to_owned(),
            mtu: 123,
            name_encoding: "b64".to_owned(),
            query_window: 64,
            response_window: 32,
            proof: 0x913379,
            port: 1337,
            host: dom("foo.bob.com"),
        }
    );
}

#[test]
fn query_decoding_case_insensitive_root() {
    let query = EstablishQuery::from_domain(
        &dom("Eraw.123.b64.64.32.913379.1337.foo.bob.com.BAZ.Proxy.com"),
        &dom("baz.proxy.com"),
    )
    .unwrap();
    assert_eq!(query.response_encoding, "raw");
    assert_eq!(query.host, dom("foo.bob.com"));
}

#[test]
fn query_decoding_errors() {
    let root = dom("baz.proxy.com");
    // wrong root suffix
    assert!(EstablishQuery::from_domain(
        &dom("eraw.123.b64.64.32.913379.1337.foo.bob.com.other.com"),
        &root
    )
    .is_err());
    // not enough labels before the root
    assert!(EstablishQuery::from_domain(&dom("eraw.123.b64.baz.proxy.com"), &root).is_err());
    // a non-numeric field
    assert!(EstablishQuery::from_domain(
        &dom("eraw.abc.b64.64.32.913379.1337.foo.bob.com.baz.proxy.com"),
        &root
    )
    .is_err());
    // a proof that is not hex
    assert!(EstablishQuery::from_domain(
        &dom("eraw.123.b64.64.32.91zz79.1337.foo.bob.com.baz.proxy.com"),
        &root
    )
    .is_err());
}

#[test]
fn proof_round_trip() {
    let q = EstablishQuery {
        response_encoding: "raw".to_owned(),
        mtu: 64,
        name_encoding: "b64".to_owned(),
        query_window: 4,
        response_window: 4,
        proof: password_proof("hunter2", 1000),
        port: 22,
        host: dom("foo.com"),
    };
    assert!(q.check_proof("hunter2", 1000, 5));
    // the proof is accepted anywhere inside the tolerance window
    assert!(q.check_proof("hunter2", 1004, 5));
    assert!(!q.check_proof("hunter2", 1010, 5));
    assert!(!q.check_proof("wrong", 1000, 5));
}

#[test]
fn proof_is_deterministic() {
    assert_eq!(password_proof("pw", 12345), password_proof("pw", 12345));
    assert_ne!(password_proof("pw", 12345), password_proof("pw", 12346));
    assert_ne!(password_proof("pw", 12345), password_proof("pw2", 12345));
}

#[test]
fn response_encoding_round_trip() {
    let ok = EstablishResponse::Success { id: 2, seq: 0x01020304 };
    let bytes = ok.dns_encode().unwrap();
    assert_eq!(bytes, vec![0u8, 0, 2, 1, 2, 3, 4]);
    assert_eq!(EstablishResponse::dns_decode(&bytes).unwrap(), ok);

    let fail = EstablishResponse::Failure("bad proof".to_owned());
    let bytes = fail.dns_encode().unwrap();
    assert_eq!(bytes[0], 1);
    assert_eq!(EstablishResponse::dns_decode(&bytes).unwrap(), fail);
}

#[test]
fn unknown_response_is_decode_only() {
    // decoding any unrecognized tag succeeds and preserves the tag
    let decoded = EstablishResponse::dns_decode(&[9u8, 1, 2, 3]).unwrap();
    assert_eq!(decoded, EstablishResponse::Unknown(9));
    // but an Unknown response cannot be re-encoded
    assert!(EstablishResponse::Unknown(9).dns_encode().is_err());
}

#[test]
fn malformed_responses() {
    assert!(EstablishResponse::dns_decode(&[]).is_err());
    assert!(EstablishResponse::dns_decode(&[0u8, 1]).is_err());
}

fn establish_message(domain: &str, rt: RecordType) -> Message {
    Message {
        header: header(),
        questions: vec![Question {
            domain: dom(domain),
            record_type: rt,
            record_class: RecordClass::In,
        }],
        answers: Vec::new(),
        authorities: Vec::new(),
        additional: Vec::new(),
    }
}

#[test]
fn establish_query_detection() {
    let m = establish_message("eraw.1.b64.1.1.0.1.h.root.com", RecordType::Txt);
    assert!(is_establish_query(&m));
    let m2 = establish_message("xraw.1.b64.1.1.0.1.h.root.com", RecordType::Txt);
    assert!(!is_establish_query(&m2));
}

#[test]
fn establish_response_message() {
    let m = establish_message(
        "eraw.123.b64.64.32.913379.1337.foo.bob.com.baz.proxy.com",
        RecordType::Txt,
    );
    let root = dom("baz.proxy.com");
    let resp = EstablishResponse::Success { id: 7, seq: 100 };
    let out = myodine::establish::establish_response(m, &root, resp).unwrap();
    assert!(out.header.is_response);
    assert_eq!(out.header.answer_count, 1);
    assert_eq!(out.answers.len(), 1);
    assert_eq!(out.answers[0].header.ttl, 0);
    assert_eq!(out.answers[0].body, vec![0u8, 0, 7, 0, 0, 0, 100]);
}

#[test]
fn establish_response_needs_known_encoding() {
    // the "b32" response encoding is not registered: negotiation fails
    let m = establish_message(
        "eb32.123.b64.64.32.913379.1337.foo.bob.com.baz.proxy.com",
        RecordType::Txt,
    );
    let root = dom("baz.proxy.com");
    let resp = EstablishResponse::Success { id: 7, seq: 100 };
    assert!(myodine::establish::establish_response(m, &root, resp).is_err());
    // and an Unknown response can never be encoded into an answer
    let m2 = establish_message(
        "eraw.123.b64.64.32.913379.1337.foo.bob.com.baz.proxy.com",
        RecordType::Txt,
    );
    assert!(myodine::establish::establish_response(m2, &root, EstablishResponse::Unknown(3))
        .is_err());
}
