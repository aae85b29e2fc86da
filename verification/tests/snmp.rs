use scanbus_backends::skey::snmp::{
    decode_integer, encode_integer, encode_len, ErrorStatus, Message, Oid, Pdu, PduKind, SnmpError,
    Value, VarBind, Version, DEFAULT_COMMUNITY, FIRST_REQUEST_ID, TAG_INTEGER, TAG_OCTET_STRING,
    TAG_OID, TAG_SEQUENCE,
};

fn oid(dotted: &str) -> Oid {
    dotted.parse().unwrap()
}

#[test]
fn a_short_set_request_encodes_exactly_as_the_vendor_encoder_would() {
    let message = Message::set("x", 1, oid("1.3"), Vec::new());
    let expected = vec![
        0x30, 0x1a,             // SEQUENCE, 26 bytes of content
        0x02, 0x01, 0x00,       //   version: SNMPv1
        0x04, 0x01, b'x',       //   community "x"
        0xa3, 0x12,             //   SetRequest (0xA0 | 3), 18 bytes
        0x02, 0x01, 0x01,       //     request-id 1
        0x02, 0x01, 0x00,       //     error-status noError
        0x02, 0x01, 0x00,       //     error-index 0
        0x30, 0x07,             //     varbind list
        0x30, 0x05,             //       varbind
        0x06, 0x01, 0x2b,       //         OID 1.3, packed as 40*1 + 3 = 0x2b
        0x04, 0x00,             //         value: empty OCTET STRING, never NULL
    ];
    assert_eq!(message.encode().unwrap(), expected);
    assert_eq!(Message::decode(&expected).unwrap(), message);
}

#[test]
fn a_get_request_carries_an_empty_octet_string_not_null() {
    let encoded = Message::get("public", 7, oid("1.3.6.1.2.1.1.1.0"))
        .encode()
        .unwrap();
    assert_eq!(&encoded[encoded.len() - 2..], &[TAG_OCTET_STRING, 0x00]);
    assert_eq!(encoded[0], TAG_SEQUENCE);
    assert!(encoded.contains(&0xa0), "GetRequest tag is 0xA0");
}

#[test]
fn the_registration_oid_round_trips_through_its_multi_byte_arc() {
    let registration = oid("1.3.6.1.4.1.2435.2.3.9.2.11.1.1.0");
    let mut encoded = Vec::new();
    registration.encode_into(&mut encoded);
    assert_eq!(
        encoded,
        vec![
            TAG_OID, 0x0f, // OID, 15 content octets
            0x2b, // 1.3 packed as 40*1 + 3
            0x06, 0x01, 0x04, 0x01, //
            0x93, 0x03, // 2435, base-128 over two octets
            0x02, 0x03, 0x09, 0x02, 0x0b, 0x01, 0x01, 0x00,
        ]
    );
    assert_eq!(Oid::decode(&encoded[2..]).unwrap(), registration);
    assert_eq!(
        registration.to_text(),
        "1.3.6.1.4.1.2435.2.3.9.2.11.1.1.0"
    );
}

#[test]
fn oids_need_two_arcs_and_a_packable_second() {
    assert!(matches!(Oid::new(vec![1]), Err(SnmpError::BadOid(_))));
    assert!(matches!(Oid::new(vec![1, 99]), Err(SnmpError::BadOid(_))));
    assert!(Oid::new(vec![1, 3]).is_ok());
    assert!(matches!("1.3.x".parse::<Oid>(), Err(SnmpError::BadOid(_))));
}

#[test]
fn every_length_form_the_vendor_can_emit_round_trips() {
    for len in [0usize, 1, 126, 127, 128, 254, 255, 256, 257, 4096] {
        let payload = vec![b'v'; len];
        let message = Message::set(
            DEFAULT_COMMUNITY,
            FIRST_REQUEST_ID,
            oid("1.3.6.1.4.1.2435.2.3.9.2.11.1.1.0"),
            payload.clone(),
        );
        let encoded = message.encode().unwrap();
        let decoded = Message::decode(&encoded).unwrap();
        assert_eq!(decoded, message, "length {len} did not round-trip");
        assert_eq!(
            decoded.pdu.varbinds[0].value,
            Value::OctetString(payload),
            "length {len}"
        );
    }
}

#[test]
fn lengths_use_the_narrowest_form() {
    let mut out = Vec::new();
    encode_len(0x7f, &mut out);
    assert_eq!(out, vec![0x7f]);

    out.clear();
    encode_len(0x80, &mut out);
    assert_eq!(out, vec![0x81, 0x80]);

    out.clear();
    encode_len(0xff, &mut out);
    assert_eq!(out, vec![0x81, 0xff]);

    out.clear();
    encode_len(0x0100, &mut out);
    assert_eq!(out, vec![0x82, 0x01, 0x00]);
}

#[test]
fn integers_are_minimal_two_s_complement_at_every_width_boundary() {
    let cases: &[(i32, &[u8])] = &[
        (0, &[0x02, 0x01, 0x00]),
        (1, &[0x02, 0x01, 0x01]),
        (127, &[0x02, 0x01, 0x7f]),
        (128, &[0x02, 0x02, 0x00, 0x80]),
        (255, &[0x02, 0x02, 0x00, 0xff]),
        (32767, &[0x02, 0x02, 0x7f, 0xff]),
        (32768, &[0x02, 0x03, 0x00, 0x80, 0x00]),
        (-1, &[0x02, 0x01, 0xff]),
        (-128, &[0x02, 0x01, 0x80]),
        (-129, &[0x02, 0x02, 0xff, 0x7f]),
        (i32::MAX, &[0x02, 0x04, 0x7f, 0xff, 0xff, 0xff]),
        (i32::MIN, &[0x02, 0x04, 0x80, 0x00, 0x00, 0x00]),
    ];
    for (value, expected) in cases {
        let mut out = Vec::new();
        encode_integer(TAG_INTEGER, *value, &mut out);
        assert_eq!(&out, expected, "encoding {value}");
        assert_eq!(
            decode_integer(&out[2..]).unwrap(),
            *value,
            "decoding {value}"
        );
    }
}

#[test]
fn a_response_decodes_with_its_error_status_and_value() {
    let refusal = Message {
        version: Version::V1,
        community: DEFAULT_COMMUNITY.as_bytes().to_vec(),
        pdu: Pdu {
            kind: PduKind::Response,
            request_id: 201,
            error_status: ErrorStatus::NoSuchName,
            error_index: 1,
            varbinds: vec![VarBind::new(
                oid("1.3.6.1.4.1.2435.2.3.9.2.11.1.1.0"),
                Value::OctetString(b"TRUE".to_vec()),
            )],
        },
    };
    let decoded = Message::decode(&refusal.encode().unwrap()).unwrap();
    assert_eq!(decoded, refusal);
    assert!(!decoded.pdu.error_status.is_ok());
    assert_eq!(decoded.pdu.varbinds[0].value.as_str(), Some("TRUE"));
    assert_eq!(decoded.pdu.error_status.to_text(), "noSuchName");
}

#[test]
fn a_null_or_integer_valued_response_decodes_rather_than_failing() {
    for value in [Value::Null, Value::Integer(-7)] {
        let message = Message {
            version: Version::V1,
            community: b"public".to_vec(),
            pdu: Pdu {
                kind: PduKind::Response,
                request_id: 1,
                error_status: ErrorStatus::NoError,
                error_index: 0,
                varbinds: vec![VarBind::new(oid("1.3.6.1.2.1.1.1.0"), value.clone())],
            },
        };
        let decoded = Message::decode(&message.encode().unwrap()).unwrap();
        assert_eq!(decoded.pdu.varbinds[0].value, value);
    }
}

#[test]
fn a_multi_varbind_response_keeps_every_pair_in_order() {
    let message = Message {
        version: Version::V1,
        community: b"internal".to_vec(),
        pdu: Pdu {
            kind: PduKind::Response,
            request_id: 12345,
            error_status: ErrorStatus::NoError,
            error_index: 0,
            varbinds: vec![
                VarBind::new(oid("1.3.6.1.2.1.1.1.0"), Value::OctetString(b"a".to_vec())),
                VarBind::new(
                    oid("1.3.6.1.4.1.2435.2.3.9.2.11.1.1.0"),
                    Value::OctetString(vec![b'b'; 300]),
                ),
            ],
        },
    };
    assert_eq!(
        Message::decode(&message.encode().unwrap()).unwrap(),
        message
    );
}

#[test]
fn every_prefix_of_a_valid_message_is_an_error_not_a_panic() {
    let encoded = Message::set(
        DEFAULT_COMMUNITY,
        FIRST_REQUEST_ID,
        oid("1.3.6.1.4.1.2435.2.3.9.2.11.1.1.0"),
        vec![b'x'; 300],
    )
    .encode()
    .unwrap();

    for len in 0..encoded.len() {
        assert!(
            Message::decode(&encoded[..len]).is_err(),
            "a {len}-byte prefix decoded as a whole message"
        );
    }
    assert!(Message::decode(&encoded).is_ok());
}

#[test]
fn garbage_and_hostile_lengths_are_errors() {
    assert!(matches!(
        Message::decode(&[]),
        Err(SnmpError::Truncated { .. })
    ));
    assert!(matches!(
        Message::decode(&[0x30, 0x80, 0x02, 0x01, 0x00]),
        Err(SnmpError::UnsupportedLength(0x80))
    ));
    assert!(matches!(
        Message::decode(&[0x30, 0x82, 0xff, 0xff, 0x00]),
        Err(SnmpError::LengthOverrun { .. })
    ));
    let mut wrong_pdu = Message::get("public", 1, oid("1.3")).encode().unwrap();
    let pdu_index = wrong_pdu.iter().position(|byte| *byte == 0xa0).unwrap();
    wrong_pdu[pdu_index] = 0xa7;
    assert!(matches!(
        Message::decode(&wrong_pdu),
        Err(SnmpError::UnknownPdu(0xa7))
    ));
    let mut trailing = Message::get("public", 1, oid("1.3")).encode().unwrap();
    trailing.push(0x00);
    assert!(matches!(
        Message::decode(&trailing),
        Err(SnmpError::TrailingBytes(1))
    ));
}

#[test]
fn every_single_byte_corruption_decodes_or_errors_but_never_panics() {
    let encoded = Message::set(DEFAULT_COMMUNITY, 200, oid("1.3.6.1.4.1.2435.2"), b"v".to_vec())
        .encode()
        .unwrap();
    for index in 0..encoded.len() {
        for replacement in [0x00u8, 0x01, 0x7f, 0x80, 0xa0, 0xff] {
            let mut corrupt = encoded.clone();
            corrupt[index] = replacement;
            let _ = Message::decode(&corrupt);
        }
    }
}

#[test]
fn an_arc_that_is_no_number_is_refused_in_words() {
    let said = |text: &str| match text.parse::<Oid>() {
        Err(SnmpError::BadOid(reason)) => reason,
        other => panic!("{text:?} is no name: {other:?}"),
    };
    assert!(said("1.3.x").contains("invalid digit found in string"), "{}", said("1.3.x"));
    assert!(said("1.3.").contains("cannot parse integer from empty string"), "{}", said("1.3."));
    assert!(said("1.4294967296").contains("too large"), "{}", said("1.4294967296"));
}

#[test]
fn only_a_tag_outside_the_pdu_range_is_an_unknown_pdu() {
    for tag in 0..=255u8 {
        let bytes = [0x30, 0x08, 0x02, 0x01, 0x00, 0x04, 0x01, 0x78, tag, 0x00];
        let error = Message::decode(&bytes).unwrap_err();
        match tag {
            0xa0..=0xa3 => assert!(matches!(error, SnmpError::Truncated { .. }), "{tag:#x}"),
            0xa4 | 0xa5 => assert_eq!(
                error,
                SnmpError::UnexpectedTag { expected: 0xa0, found: tag }
            ),
            _ => assert_eq!(error, SnmpError::UnknownPdu(tag)),
        }
    }
}

#[test]
fn bytes_behind_a_message_are_counted() {
    let mut bytes = Message::get("public", 1, oid("1.3")).encode().unwrap();
    for count in 1..5 {
        bytes.push(0x30);
        assert_eq!(Message::decode(&bytes), Err(SnmpError::TrailingBytes(count)));
    }
}
