use scanbus_backends::hostname::read_hostname;
use scanbus_backends::keyed::Keyed;
use scanbus_backends::model::{
    command_output, exit_description, nested_str, BackendError, ScannerId, Value,
};
use scanbus_backends::net::{Ipv4Addr, SocketAddrV4};
use scanbus_backends::text::{
    all_lines, alnum, comes_before, decimal_text, equal_ignoring_case, lower_text, parse_number, signed_text,
    trim_text, white,
};
use scanbus_backends::time::Duration;

#[test]
fn white_space_is_what_the_standard_library_says() {
    for n in 0..=0x0010_ffff_u32 {
        if let Some(c) = char::from_u32(n) {
            assert_eq!(white(c), c.is_whitespace(), "U+{n:04X}");
            assert_eq!(alnum(c), c.is_ascii_alphanumeric(), "U+{n:04X}");
        }
    }
    assert_eq!(trim_text("\u{2003} a b \n"), "a b");
}

#[test]
fn letters_are_compared_without_their_case() {
    assert_eq!(lower_text("ÀB-z"), "Àb-z");
    assert!(equal_ignoring_case("Content-LENGTH", "content-length"));
    assert!(!equal_ignoring_case("é", "É"));
    assert!(comes_before("a", "b") && !comes_before("b", "a") && !comes_before("a", "a"));
    assert!(comes_before("a", "ab") && comes_before("Z", "a"));
}

#[test]
fn numbers_are_written_and_read() {
    assert_eq!(decimal_text(0), "0");
    assert_eq!(decimal_text(u64::MAX), u64::MAX.to_string());
    assert_eq!(signed_text(i32::MIN), i32::MIN.to_string());
    assert_eq!(parse_number("+7", 9), Some(7));
    assert_eq!(parse_number("10", 9), None);
    assert_eq!(parse_number("", 9), None);
    assert_eq!(parse_number("-1", 9), None);
}

#[test]
fn addresses_read_back_as_they_are_written() {
    for text in ["0.0.0.0", "10.136.41.234", "255.255.255.255"] {
        assert_eq!(Ipv4Addr::parse(text).unwrap().to_text(), text);
    }
    for text in ["", "1.2.3", "1.2.3.4.5", "256.1.1.1", "01.2.3.4", "1.2.3.4 ", "a.b.c.d"] {
        assert_eq!(Ipv4Addr::parse(text), None, "{text:?}");
    }
    assert_eq!(SocketAddrV4::new(Ipv4Addr::new(1, 2, 3, 4), 161).to_text(), "1.2.3.4:161");
}

#[test]
fn spans_are_split_and_written() {
    assert_eq!(Duration::from_millis(1500).to_text(), "1.5s");
    assert_eq!(Duration::from_secs(10).divided(4), Duration::from_millis(2500));
    assert_eq!(Duration::from_millis(1500).as_secs(), 1);
    assert_eq!(Duration::from_millis(1500).subsec_nanos(), 500_000_000);
    assert_eq!(Duration::from_secs(1).divided(3).as_nanos(), 333_333_333);
}

#[test]
fn scanner_ids_escape_what_a_path_cannot_hold() {
    assert_eq!(
        ScannerId::from_backend("brother", "brw001122334455.local:80").unwrap().as_str(),
        "brother_brw001122334455_2Elocal_3A80"
    );
    assert_eq!(ScannerId::from_backend("x", "é_").unwrap().as_str(), "x__C3_A9_5F");
    assert!(ScannerId::from_backend("x", "").is_err());
}

#[test]
fn what_a_process_printed_is_joined() {
    assert_eq!(command_output(b" a\n", b"b "), "a; b");
    assert_eq!(command_output(b" a\n", b" "), "a");
    assert_eq!(command_output(b"", b"b"), "b");
    assert_eq!(command_output(b"", b"\n"), "no output");
    assert_eq!(command_output(b"\xff", b""), "\u{fffd}");
    assert_eq!(exit_description(Some(-1)), "exit code -1");
    assert_eq!(exit_description(None), "signal");
}

#[test]
fn errors_are_reported_in_words() {
    let scanner = ScannerId::from_backend("x", "y").unwrap();
    assert_eq!(
        BackendError::NotReachable { scanner: scanner.clone(), detail: "off".to_owned() }.to_text(),
        "scanner x_y is not reachable: off"
    );
    assert_eq!(
        BackendError::UnknownJob { scanner, job: "press-1".to_owned() }.to_text(),
        "scanner x_y has no job press-1"
    );
}

#[test]
fn dictionaries_are_read_by_their_first_entry() {
    let inner = vec![
        ("k".to_owned(), Value::Str("first".to_owned())),
        ("k".to_owned(), Value::Str("second".to_owned())),
    ];
    let entries = vec![("d".to_owned(), Value::Dict(inner)), ("s".to_owned(), Value::Bool(true))];
    assert_eq!(nested_str(&entries, "d", "k").map(String::as_str), Some("first"));
    assert_eq!(nested_str(&entries, "d", "x"), None);
    assert_eq!(nested_str(&entries, "s", "k"), None);
    assert_eq!(entries[0].1.clone(), entries[0].1);
}

#[test]
fn a_map_holds_each_key_once() {
    let mut map: Keyed<u32> = Keyed::new();
    map.insert("a".to_owned(), 1);
    map.insert("b".to_owned(), 2);
    map.insert("a".to_owned(), 3);
    assert_eq!(map.get("a"), Some(&3));
    map.remove("a");
    map.remove("c");
    assert_eq!(map.get("a"), None);
    assert_eq!(map.get("b"), Some(&2));
}

#[test]
fn the_first_hostname_file_with_a_name_counts() {
    assert_eq!(read_hostname(&[None, Some("  \n".to_owned()), Some("x \n".to_owned())]), Some("x".to_owned()));
    assert_eq!(read_hostname(&[]), None);
}

#[test]
fn a_carriage_return_is_part_of_a_line_ending_only_before_a_newline() {
    for text in ["", "\n", "a", "a\n", "a\r\nb", "a\r\n\r\n", "a\nb\r", "\r", "a\r\r\nb"] {
        let lines: Vec<String> =
            all_lines(text).iter().map(|line| line.iter().collect()).collect();
        assert_eq!(lines, text.lines().collect::<Vec<_>>(), "{text:?}");
    }
}
