use scanbus_backends::net::Ipv4Addr;
use scanbus_backends::skey::event::{
    Event, EventError, Frame, InternalCommand, KeyPress, HEADER_LEN, INTERNAL_ID, KEY_PRESS_CODE,
    KEY_PRESS_ID,
};
use scanbus_backends::skey::register::Function;

const SAMPLE_PAYLOAD: &str = "TYPE=BR;BUTTON=SCAN;USER=\"idevd101\";FUNC=IMAGE;\
                              HOST=10.136.150.6:54925;APPNUM=1;P1=0;P2=0;P3=0;P4=0;\
                              REGID=756;SEQ=1;;CLIENT=10.136.41.234";

fn key_press_datagram(payload: &str) -> Vec<u8> {
    Frame {
        id: KEY_PRESS_ID,
        code: KEY_PRESS_CODE,
        payload,
    }
    .to_datagram()
}

#[test]
fn the_vendors_own_sample_payload_parses_to_the_right_function() {
    let Event::KeyPress(press) = Event::parse(&key_press_datagram(SAMPLE_PAYLOAD)).unwrap()
    else {
        panic!("the sample is a key press");
    };
    assert_eq!(press.function, Function::Image);
    assert_eq!(press.user, "idevd101");
    assert_eq!(press.client, Ipv4Addr::new(10, 136, 41, 234));
    assert_eq!(press.host.as_deref(), Some("10.136.150.6:54925"));
    assert_eq!(press.appnum, Some(1));
    assert_eq!(press.appnum_agrees(), Some(true));
}

#[test]
fn each_function_press_parses_to_its_own_button() {
    for function in Function::ALL {
        let payload = format!(
            "IP=192.168.1.3:54925;NODENAME=\"BRW001122334455\";TYPE=BR;BUTTON=SCAN;\
             USER=\"desktop\";FUNC={};HOST=192.168.1.20:54925;APPNUM={};P1=0;P2=0;\
             P3=0;P4=0;REGID=1;SEQ=1;;CLIENT=192.168.1.3",
            function.as_str(),
            function.appnum()
        );
        let Event::KeyPress(press) = Event::parse(&key_press_datagram(&payload)).unwrap()
        else {
            panic!("expected a key press for {function:?}");
        };
        assert_eq!(press.function, function);
        assert_eq!(press.function.button_index(), function.button_index());
        assert_eq!(press.appnum_agrees(), Some(true));
        assert_eq!(press.client, Ipv4Addr::new(192, 168, 1, 3));
        assert_eq!(press.device.as_deref(), Some("BRW001122334455"));
    }
}

#[test]
fn device_is_taken_in_the_vendors_precedence() {
    let with_device = "DEVICE=MFC;NODENAME=BRW;IP=1.2.3.4;TYPE=BR;USER=pc;FUNC=FILE;\
                       CLIENT=1.2.3.4";
    let Event::KeyPress(press) = Event::parse(&key_press_datagram(with_device)).unwrap() else {
        panic!("key press");
    };
    assert_eq!(press.device.as_deref(), Some("MFC"));

    let ip_only = "IP=1.2.3.4:54925;TYPE=BR;USER=pc;FUNC=FILE;CLIENT=1.2.3.4";
    let Event::KeyPress(press) = Event::parse(&key_press_datagram(ip_only)).unwrap() else {
        panic!("key press");
    };
    assert_eq!(press.device.as_deref(), Some("1.2.3.4:54925"));
}

#[test]
fn an_appnum_that_contradicts_func_is_visible() {
    let payload = "TYPE=BR;USER=pc;FUNC=FILE;APPNUM=1;CLIENT=1.2.3.4";
    let Event::KeyPress(press) = Event::parse(&key_press_datagram(payload)).unwrap() else {
        panic!("key press");
    };
    assert_eq!(press.function, Function::File);
    assert_eq!(press.appnum, Some(1));
    assert_eq!(press.appnum_agrees(), Some(false));
}

#[test]
fn every_prefix_of_a_key_press_is_an_error_not_a_panic() {
    let datagram = key_press_datagram(SAMPLE_PAYLOAD);
    for len in 0..datagram.len() {
        assert!(
            Event::parse(&datagram[..len]).is_err(),
            "a {len}-byte prefix parsed as a whole datagram"
        );
    }
    assert!(Event::parse(&datagram).is_ok());
}

#[test]
fn every_truncation_and_extension_of_the_declared_length_is_an_error() {
    let datagram = key_press_datagram(SAMPLE_PAYLOAD);

    let mut long = datagram.clone();
    long.push(b'x');
    assert!(matches!(
        Event::parse(&long),
        Err(EventError::LengthMismatch { .. })
    ));

    let mut terminated = datagram.clone();
    terminated.push(0);
    assert!(matches!(Event::parse(&terminated), Ok(Event::KeyPress(_))));

    let mut two_nuls = terminated.clone();
    two_nuls.push(0);
    assert!(matches!(
        Event::parse(&two_nuls),
        Err(EventError::LengthMismatch { .. })
    ));

    let mut overlong = datagram.clone();
    overlong[1] = 0xff;
    assert!(matches!(
        Event::parse(&overlong),
        Err(EventError::LengthMismatch { .. })
    ));
}

#[test]
fn garbage_is_an_error_rather_than_a_panic() {
    assert_eq!(Event::parse(&[]), Err(EventError::TooShort(0)));
    assert_eq!(Event::parse(&[1, 2, 3]), Err(EventError::TooShort(3)));

    assert_eq!(
        Event::parse(&[0x7f, 0x00, 0x01, 0x7f, b'x']),
        Err(EventError::UnknownFrame {
            id: 0x7f,
            code: 0x7f
        })
    );
    assert!(matches!(
        Event::parse(&[0x02, 0x00, 0x01, 0x30, b'0']),
        Err(EventError::UnknownFrame { .. })
    ));
    assert_eq!(
        Event::parse(&[KEY_PRESS_ID, 0x00, 0x02, KEY_PRESS_CODE, 0xff, 0xfe]),
        Err(EventError::NotUtf8)
    );
    assert_eq!(
        Event::parse(&[KEY_PRESS_ID, 0x00, 0x03, KEY_PRESS_CODE, b'a', 0x00, b'b']),
        Err(EventError::EmbeddedNul)
    );
}

#[test]
fn a_key_press_missing_or_contradicting_a_required_field_is_named() {
    assert_eq!(
        Event::parse(&key_press_datagram("USER=pc;FUNC=FILE;CLIENT=1.2.3.4")),
        Err(EventError::MissingField("TYPE"))
    );
    assert_eq!(
        Event::parse(&key_press_datagram("TYPE=BR;USER=pc;FUNC=FILE")),
        Err(EventError::MissingField("CLIENT"))
    );
    assert_eq!(
        Event::parse(&key_press_datagram(
            "TYPE=XX;USER=pc;FUNC=FILE;CLIENT=1.2.3.4"
        )),
        Err(EventError::BadField {
            field: "TYPE",
            value: "XX".to_owned()
        })
    );
    assert_eq!(
        Event::parse(&key_press_datagram(
            "TYPE=BR;USER=pc;FUNC=FAX;CLIENT=1.2.3.4"
        )),
        Err(EventError::BadField {
            field: "FUNC",
            value: "FAX".to_owned()
        })
    );
    assert_eq!(
        Event::parse(&key_press_datagram("TYPE=BR;USER=pc;FUNC=FILE;CLIENT=nope")),
        Err(EventError::BadField {
            field: "CLIENT",
            value: "nope".to_owned()
        })
    );
}

#[test]
fn the_vendor_clis_own_commands_are_recognised_and_declined() {
    let cases = [
        (
            0x80u8,
            "Add device:Internal command",
            InternalCommand::AddDevice,
        ),
        (
            0x81,
            "Del device:Internal command",
            InternalCommand::DeleteDevice,
        ),
        (
            0x82,
            "Terminate:Internal command",
            InternalCommand::Terminate,
        ),
        (
            0x83,
            "List Device:Internal command",
            InternalCommand::ListDevices,
        ),
        (0x84, "Refresh Device List", InternalCommand::Refresh),
    ];
    for (code, payload, expected) in cases {
        let datagram = Frame {
            id: INTERNAL_ID,
            code,
            payload,
        }
        .to_datagram();
        assert_eq!(
            Event::parse(&datagram).unwrap(),
            Event::Internal(expected),
            "code {code:#04x}"
        );
    }
    assert!(matches!(
        Event::parse(
            &Frame {
                id: INTERNAL_ID,
                code: 0x8f,
                payload: "x"
            }
            .to_datagram()
        ),
        Err(EventError::UnknownFrame { .. })
    ));
}

#[test]
fn framing_round_trips_including_a_payload_past_the_one_byte_length() {
    for len in [0usize, 1, 255, 256, 1000] {
        let payload = "y".repeat(len);
        let frame = Frame {
            id: KEY_PRESS_ID,
            code: KEY_PRESS_CODE,
            payload: &payload,
        };
        let datagram = frame.to_datagram();
        assert_eq!(datagram.len(), HEADER_LEN + len);
        assert_eq!(Frame::parse(&datagram).unwrap(), frame, "length {len}");
    }
}

#[test]
fn every_single_byte_corruption_of_a_key_press_is_handled() {
    let datagram = key_press_datagram(SAMPLE_PAYLOAD);
    for index in 0..datagram.len() {
        for replacement in [0x00u8, 0x01, 0x3b, 0x80, 0xff] {
            let mut corrupt = datagram.clone();
            corrupt[index] = replacement;
            let _ = Event::parse(&corrupt);
        }
    }
}

#[test]
fn a_press_reads_the_same_in_any_order_and_with_more_fields() {
    let press = KeyPress::parse("TYPE=BR;FUNC=IMAGE;CLIENT=10.0.0.4;USER=\"jean\";").unwrap();
    assert_eq!(
        KeyPress::parse("USER=\"jean\";CLIENT=10.0.0.4;FUNC=IMAGE;TYPE=BR;").as_ref(),
        Ok(&press)
    );
    assert_eq!(
        KeyPress::parse("TYPE=BR;SEQ=1;FUNC=IMAGE;REGID=756;CLIENT=10.0.0.4;USER=\"jean\";"),
        Ok(press)
    );
}
