use scanbus_backends::net::Ipv4Addr;
use scanbus_backends::skey::register::{
    probe_request, Function, RegisterError, Registration, UserName, LISTENER_PORT,
    REGISTRATION_OID,
};
use scanbus_backends::skey::snmp;
use scanbus_backends::time::Duration;

fn user(name: &str) -> UserName {
    UserName::new(name.to_owned()).unwrap()
}

#[test]
fn the_registration_string_is_the_one_brscan_skey_writes() {
    let registration = Registration::new(
        user("jean"),
        Ipv4Addr::new(192, 168, 1, 20),
        Function::Image,
    );
    assert_eq!(
        registration.value().unwrap(),
        "TYPE=BR;BUTTON=SCAN;USER=\"jean\";FUNC=IMAGE;HOST=192.168.1.20:54925;\
         APPNUM=1;DURATION=360;BRID=;"
    );
}

#[test]
fn each_function_carries_its_own_appnum_and_button_index() {
    let expected = [
        (Function::File, "FILE", 5, 0, "Scan to File"),
        (Function::Image, "IMAGE", 1, 1, "Scan to Image"),
        (Function::Ocr, "OCR", 3, 2, "Scan to OCR"),
        (Function::Email, "EMAIL", 2, 3, "Scan to E-Mail"),
    ];
    for (function, token, appnum, index, label) in expected {
        assert_eq!(function.as_str(), token);
        assert_eq!(function.appnum(), appnum);
        assert_eq!(function.button_index(), index);
        assert_eq!(function.device_label(), label);
        assert_eq!(Function::from_token(token), Some(function));
        assert_eq!(Function::from_appnum(appnum), Some(function));
        assert_eq!(Function::from_button_index(index), Some(function));

        let value = Registration::new(user("host"), Ipv4Addr::new(127, 0, 0, 1), function)
            .value()
            .unwrap();
        assert!(value.contains(&format!("FUNC={token};")), "{value}");
        assert!(value.contains(&format!("APPNUM={appnum};")), "{value}");
    }
    assert_eq!(Function::from_appnum(4), None);
    assert_eq!(Function::from_button_index(4), None);
    assert_eq!(Function::from_token("SCAN"), None);
}

#[test]
fn every_registration_round_trips_through_its_own_string() {
    for function in Function::ALL {
        let registration = Registration {
            user: user("desktop01"),
            host: Ipv4Addr::new(10, 0, 0, 7),
            port: LISTENER_PORT,
            function,
            duration: Duration::from_secs(120),
        };
        let parsed = Registration::parse(&registration.value().unwrap()).unwrap();
        assert_eq!(parsed, registration);
    }
}

#[test]
fn an_unquoted_user_field_parses_the_same_as_a_quoted_one() {
    let quoted = "TYPE=BR;BUTTON=SCAN;USER=\"jean\";FUNC=FILE;HOST=192.168.1.20:54925;\
                  APPNUM=5;DURATION=360;BRID=;";
    let bare = "TYPE=BR;BUTTON=SCAN;USER=jean;FUNC=FILE;HOST=192.168.1.20:54925;\
                APPNUM=5;DURATION=360;BRID=;";
    assert_eq!(
        Registration::parse(quoted).unwrap(),
        Registration::parse(bare).unwrap()
    );
}

#[test]
fn a_host_without_a_port_means_the_listener_port() {
    let parsed = Registration::parse(
        "TYPE=BR;BUTTON=SCAN;USER=pc;FUNC=OCR;HOST=192.168.1.20;APPNUM=3;\
         DURATION=360;BRID=;",
    )
    .unwrap();
    assert_eq!(parsed.port, LISTENER_PORT);
    assert_eq!(parsed.host, Ipv4Addr::new(192, 168, 1, 20));
}

#[test]
fn the_fifteen_alphanumeric_rule_is_enforced_rather_than_assumed() {
    assert!(UserName::new("desktop".to_owned()).is_ok());
    assert!(UserName::new("abcdefghijklmno".to_owned()).is_ok(), "15 is allowed");

    for (name, fragment) in [
        ("", "empty"),
        ("abcdefghijklmnop", "longer than 15"),
        ("jean.parpaillon", "other than ASCII"),
        ("my-desktop", "other than ASCII"),
        ("my desktop", "other than ASCII"),
        ("café", "other than ASCII"),
    ] {
        let error = UserName::new(name.to_owned()).unwrap_err();
        assert!(
            error.to_text().contains(fragment),
            "{name:?} was rejected with the wrong reason: {error:?}"
        );
    }
}

#[test]
fn sanitising_keeps_the_alphanumerics_and_gives_up_when_there_are_none() {
    assert_eq!(
        UserName::sanitised("jean.parpaillon").unwrap().as_str(),
        "jeanparpaillon"
    );
    assert_eq!(
        UserName::sanitised("workstation-04.lan").unwrap().as_str(),
        "workstation04la",
        "the 15-character limit applies after filtering, not before"
    );
    assert_eq!(UserName::sanitised("...").map(|n| n.as_str().to_owned()), None);
    assert_eq!(UserName::sanitised("").map(|n| n.as_str().to_owned()), None);
}

#[test]
fn a_missing_or_wrong_field_is_named_in_the_error() {
    assert_eq!(
        Registration::parse("BUTTON=SCAN;USER=pc;"),
        Err(RegisterError::MissingField("TYPE"))
    );
    assert_eq!(
        Registration::parse("TYPE=XX;USER=pc;FUNC=FILE;HOST=1.2.3.4;DURATION=1;"),
        Err(RegisterError::BadField {
            field: "TYPE",
            value: "XX".to_owned()
        })
    );
    assert_eq!(
        Registration::parse("TYPE=BR;USER=pc;FUNC=FAX;HOST=1.2.3.4;DURATION=1;"),
        Err(RegisterError::BadField {
            field: "FUNC",
            value: "FAX".to_owned()
        })
    );
    assert_eq!(
        Registration::parse("TYPE=BR;USER=pc;FUNC=FILE;HOST=not-an-ip;DURATION=1;"),
        Err(RegisterError::BadField {
            field: "HOST",
            value: "not-an-ip".to_owned()
        })
    );
    assert_eq!(
        Registration::parse("TYPE=BR;USER=pc;FUNC=FILE;HOST=1.2.3.4;DURATION=soon;"),
        Err(RegisterError::BadField {
            field: "DURATION",
            value: "soon".to_owned()
        })
    );
    assert!(matches!(
        Registration::parse("TYPE=BR;USER=jean.parpaillon;FUNC=FILE;HOST=1.2.3.4;DURATION=1;"),
        Err(RegisterError::UserName { .. })
    ));
}

#[test]
fn a_lease_that_does_not_fit_the_field_is_refused_before_the_socket() {
    let mut registration = Registration::new(user("pc"), Ipv4Addr::new(127, 0, 0, 1), Function::File);
    registration.duration = Duration::from_secs(0);
    assert_eq!(registration.value(), Err(RegisterError::Duration(0)));

    registration.duration = Duration::from_secs(u64::from(u32::MAX) + 1);
    assert!(matches!(
        registration.value(),
        Err(RegisterError::Duration(_))
    ));
}

#[test]
fn the_set_request_carries_the_string_under_the_registration_oid() {
    let registration = Registration::new(
        user("desktop"),
        Ipv4Addr::new(192, 168, 1, 20),
        Function::Email,
    );
    let message = registration
        .set_request(snmp::DEFAULT_COMMUNITY, snmp::FIRST_REQUEST_ID)
        .unwrap();

    assert_eq!(message.pdu.kind, snmp::PduKind::SetRequest);
    assert_eq!(message.community, b"internal");
    assert_eq!(message.pdu.request_id, 200);
    let varbind = &message.pdu.varbinds[0];
    assert_eq!(varbind.oid.to_text(), REGISTRATION_OID);
    assert_eq!(
        varbind.value.as_str(),
        Some(registration.value().unwrap().as_str())
    );

    let encoded = message.encode().unwrap();
    assert_eq!(snmp::Message::decode(&encoded).unwrap(), message);
}

#[test]
fn the_probe_is_a_read_of_the_same_oid() {
    let message = probe_request("public", 1);
    assert_eq!(message.pdu.kind, snmp::PduKind::GetRequest);
    assert_eq!(message.pdu.varbinds[0].oid.to_text(), REGISTRATION_OID);
    assert_eq!(
        message.pdu.varbinds[0].value,
        snmp::Value::OctetString(Vec::new())
    );
}

#[test]
fn every_registration_reads_back_without_the_quotes_around_its_name() {
    for function in Function::ALL {
        let registration = Registration {
            user: user("desktop01"),
            host: Ipv4Addr::new(10, 0, 0, 7),
            port: LISTENER_PORT,
            function,
            duration: Duration::from_secs(120),
        };
        let bare = registration.value().unwrap().replace('"', "");
        assert!(bare.contains(";USER=desktop01;"), "{bare}");
        assert_eq!(Registration::parse(&bare), Ok(registration));
    }
}
