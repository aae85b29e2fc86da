use scanbus_backends::skey::fields::field;

#[test]
fn every_field_of_a_registration_string_is_reachable() {
    let payload = "TYPE=BR;BUTTON=SCAN;USER=\"jean\";FUNC=IMAGE;\
                   HOST=192.168.1.20:54925;APPNUM=1;DURATION=360;BRID=;";
    assert_eq!(field(payload, "TYPE"), Some("BR"));
    assert_eq!(field(payload, "USER"), Some("jean"));
    assert_eq!(field(payload, "HOST"), Some("192.168.1.20:54925"));
    assert_eq!(field(payload, "APPNUM"), Some("1"));
    assert_eq!(field(payload, "BRID"), Some(""));
    assert_eq!(field(payload, "REGID"), None);
}

#[test]
fn a_key_inside_a_value_does_not_masquerade_as_a_field() {
    let payload = "NODENAME=BRW_USER=evil;USER=real";
    assert_eq!(field(payload, "USER"), Some("real"));
    assert_eq!(field(payload, "NODENAME"), Some("BRW_USER=evil"));
}

#[test]
fn a_payload_without_a_trailing_semicolon_still_yields_its_last_field() {
    assert_eq!(
        field("A=1;CLIENT=192.168.1.3", "CLIENT"),
        Some("192.168.1.3")
    );
}

#[test]
fn garbage_yields_nothing_rather_than_panicking() {
    for payload in ["", ";", ";;;", "=", "=;=", "NOEQUALS", "\u{1f600}=x"] {
        assert_eq!(field(payload, "USER"), None, "payload {payload:?}");
    }
    assert_eq!(field("=x", ""), Some("x"));
}

#[test]
fn only_matched_quotes_are_stripped() {
    assert_eq!(field("A=\"x\"", "A"), Some("x"));
    assert_eq!(field("A=\"x", "A"), Some("\"x"));
    assert_eq!(field("A=x\"", "A"), Some("x\""));
    assert_eq!(field("A=\"\"", "A"), Some(""));
}

#[test]
fn neither_order_nor_other_fields_matter() {
    for payload in ["A=1;B=2;", "B=2;A=1;", "C=3;B=2;A=1", "A=1;X=A=9;B=2"] {
        assert_eq!(field(payload, "A"), Some("1"), "{payload}");
        assert_eq!(field(payload, "B"), Some("2"), "{payload}");
    }
}
