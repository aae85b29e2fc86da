use scanbus_backends::net::Ipv4Addr;
use scanbus_backends::skey::event::{Event, Frame, HEADER_LEN};
use scanbus_backends::skey::register::{Function, Registration, UserName};
use scanbus_backends::time::Duration;

const KEYPRESS_HEADER: &[u8] = &[0x02, 0x00, 0x74, 0x30];
const KEYPRESS_PAYLOAD: &str = "TYPE=BR;BUTTON=SCAN;USER=\"idevd101\";FUNC=IMAGE;\
                                HOST=10.136.150.6:54925;APPNUM=1;P1=0;P2=0;P3=0;P4=0;\
                                REGID=756;SEQ=1;;CLIENT=10.136.41.234";
const REGISTRATION_VALUE: &str = "TYPE=BR;BUTTON=SCAN;USER=\"jean\";FUNC=IMAGE;\
                                  HOST=192.168.1.20:54925;APPNUM=1;DURATION=360;BRID=;";

fn datagram() -> Vec<u8> {
    Frame { id: 0x01, code: 0x01, payload: KEYPRESS_PAYLOAD }.to_datagram()
}

#[test]
fn the_vendors_compiled_in_sample_key_press_parses() {
    assert_eq!(KEYPRESS_HEADER, &[0x02, 0x00, 0x74, 0x30]);
    let declared = usize::from(KEYPRESS_HEADER[1]) << 8 | usize::from(KEYPRESS_HEADER[2]);
    assert_ne!(declared, KEYPRESS_PAYLOAD.len());

    let datagram = datagram();
    assert_eq!(datagram.len(), HEADER_LEN + KEYPRESS_PAYLOAD.len());

    let Event::KeyPress(press) = Event::parse(&datagram).unwrap() else {
        panic!("the sample is a key press");
    };
    assert_eq!(press.function, Function::Image);
    assert_eq!(press.function.button_index(), 1);
    assert_eq!(press.user, "idevd101");
    assert_eq!(press.client, Ipv4Addr::new(10, 136, 41, 234));
    assert_eq!(press.host.as_deref(), Some("10.136.150.6:54925"));
    assert_eq!(press.appnum_agrees(), Some(true));
}

#[test]
fn fields_the_parser_has_no_use_for_are_ignored_rather_than_fatal() {
    assert!(KEYPRESS_PAYLOAD.contains(";;CLIENT="), "the stray empty field is the point");
    assert!(KEYPRESS_PAYLOAD.contains("P4=0;"));
    assert!(KEYPRESS_PAYLOAD.contains("REGID=756;"));
    assert!(matches!(Event::parse(&datagram()), Ok(Event::KeyPress(_))));
}

#[test]
fn the_registration_string_matches_the_vendor_format() {
    let registration = Registration::new(
        UserName::new("jean".to_owned()).unwrap(),
        Ipv4Addr::new(192, 168, 1, 20),
        Function::Image,
    );
    assert_eq!(registration.value().unwrap(), REGISTRATION_VALUE);

    let parsed = Registration::parse(REGISTRATION_VALUE).unwrap();
    assert_eq!(parsed, registration);
    assert_eq!(parsed.duration, Duration::from_secs(360));
}

#[test]
fn no_prefix_of_the_fixture_datagram_parses_or_panics() {
    let datagram = datagram();
    for len in 0..datagram.len() {
        assert!(
            Event::parse(&datagram[..len]).is_err(),
            "a {len}-byte prefix parsed as a whole datagram"
        );
    }
    assert!(Event::parse(&datagram).is_ok());
}
