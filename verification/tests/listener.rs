use scanbus_backends::brother::backend::BrotherBackend;
use scanbus_backends::brother::listener::{
    BindError, Listener, Press, Release, ScanTrigger, SocketOutcome, RECORDED_PRESSES,
};
use scanbus_backends::model::{BackendError, ScannerId};
use scanbus_backends::net::Ipv4Addr;
use scanbus_backends::skey::event::Frame;
use scanbus_backends::skey::function::Function;

const PORT: u16 = 54925;

fn scanner(host: u8) -> ScannerId {
    ScannerId::from_backend("brother", &format!("mfc-{host}")).unwrap()
}

fn device(host: u8) -> Ipv4Addr {
    Ipv4Addr::new(127, 0, 0, host)
}

fn key_press(from: Ipv4Addr, function: Function) -> Vec<u8> {
    let payload = format!(
        "TYPE=BR;BUTTON=SCAN;USER=\"desktop\";FUNC={};HOST=127.0.0.1:54925;APPNUM={};\
         REGID=1;SEQ=1;CLIENT={}",
        function.as_str(),
        function.appnum(),
        from.to_text(),
    );
    Frame { id: 0x01, code: 0x01, payload: &payload }.to_datagram()
}

fn bound(port: u16) -> Option<SocketOutcome> {
    Some(SocketOutcome::Bound(port))
}

fn subscribe(listener: &mut Listener, host: u8) -> u64 {
    let socket = if listener.port().is_some() { None } else { bound(PORT) };
    listener.subscribe(scanner(host), device(host), socket).unwrap()
}

fn send(listener: &mut Listener, host: u8, function: Function) -> Option<ScanTrigger> {
    listener.dispatch(device(host), &key_press(device(host), function), 7)
}

#[test]
fn a_press_becomes_a_trigger_carrying_its_button_index() {
    let mut listener = Listener::new(0);
    subscribe(&mut listener, 1);

    for function in Function::ALL {
        let trigger = send(&mut listener, 1, function).unwrap();
        assert_eq!(trigger.scanner_id, scanner(1));
        assert_eq!(trigger.button, function.button_index());

        assert_eq!(listener.take_press(&scanner(2), &trigger.id), None);
        let press = listener
            .take_press(&scanner(1), &trigger.id)
            .expect("the trigger id must correlate to the press it was minted for");
        assert_eq!(
            press,
            Press {
                scanner: scanner(1),
                device: device(1),
                function,
                user: "desktop".to_owned(),
                at: 7,
            }
        );
        assert_eq!(listener.take_press(&scanner(1), &trigger.id), None);
        assert_eq!(listener.take_press(&scanner(2), &trigger.id), None);
    }
}

#[test]
fn two_devices_share_one_socket_and_do_not_cross_streams() {
    let mut listener = Listener::new(0);
    subscribe(&mut listener, 1);
    assert_eq!(listener.port(), Some(PORT));
    subscribe(&mut listener, 2);
    assert_eq!(listener.port(), Some(PORT), "the second subscriber must not open a second socket");
    assert_eq!(listener.subscribers(), 2);

    let trigger = send(&mut listener, 2, Function::Ocr).unwrap();
    assert_eq!(trigger.scanner_id, scanner(2));
    assert_eq!(trigger.button, 2);

    let trigger = send(&mut listener, 1, Function::Email).unwrap();
    assert_eq!(trigger.scanner_id, scanner(1));
    assert_eq!(trigger.button, 3);
}

#[test]
fn unknown_sources_and_garbage_are_dropped_without_disturbing_anybody() {
    let mut listener = Listener::new(0);
    subscribe(&mut listener, 1);

    assert_eq!(send(&mut listener, 9, Function::Image), None);
    let refresh = Frame { id: 0x80, code: 0x84, payload: "Refresh Device List" }.to_datagram();
    assert_eq!(listener.dispatch(device(1), &refresh, 0), None);
    assert_eq!(listener.dispatch(device(1), b"\xff\xff\xff\xff\xff", 0), None);
    assert_eq!(listener.dispatch(device(1), &[], 0), None);

    let trigger = send(&mut listener, 1, Function::File).unwrap();
    assert_eq!(trigger.scanner_id, scanner(1));
    assert_eq!(trigger.button, 0);
    assert_eq!(trigger.id, "press-1", "nothing that was dropped was recorded");
}

#[test]
fn the_source_address_decides_and_not_what_the_datagram_says() {
    let mut listener = Listener::new(0);
    subscribe(&mut listener, 1);
    subscribe(&mut listener, 2);
    let trigger = listener
        .dispatch(device(2), &key_press(device(1), Function::File), 0)
        .unwrap();
    assert_eq!(trigger.scanner_id, scanner(2));
}

#[test]
fn ten_connect_disconnect_cycles_leak_no_socket() {
    let mut listener = Listener::new(PORT);
    assert_eq!(listener.requested_port(), PORT);

    for cycle in 0..10 {
        let epoch = subscribe(&mut listener, 1);
        assert_eq!(listener.port(), Some(PORT), "cycle {cycle} must bind");
        assert_eq!(send(&mut listener, 1, Function::Image).unwrap().button, 1);

        if cycle % 2 == 0 {
            let release = listener.unsubscribe(&scanner(1));
            assert_eq!(release, Release { abort: true, wait: true });
            assert!(!listener.drop_subscription(&scanner(1), epoch));
        } else {
            assert!(listener.drop_subscription(&scanner(1), epoch));
            assert!(listener.is_closing());
            let release = listener.unsubscribe(&scanner(1));
            assert_eq!(release, Release { abort: false, wait: true });
        }

        assert_eq!(listener.subscribers(), 0, "cycle {cycle}");
        assert_eq!(listener.port(), None, "cycle {cycle} must release the port");
        assert!(!listener.is_closing(), "cycle {cycle}");
    }
}

#[test]
fn a_dropped_stream_releases_the_port_for_the_next_subscriber() {
    let mut listener = Listener::new(PORT);
    let epoch = subscribe(&mut listener, 1);
    assert_eq!(listener.port(), Some(PORT));
    assert!(listener.drop_subscription(&scanner(1), epoch));
    assert!(listener.is_closing(), "the next bind is what waits for the socket");

    subscribe(&mut listener, 1);
    assert!(!listener.is_closing());
    assert_eq!(listener.port(), Some(PORT));
    assert_eq!(send(&mut listener, 1, Function::Image).unwrap().button, 1);
}

#[test]
fn stopping_twice_and_in_either_order_is_not_an_error() {
    let mut listener = Listener::new(0);
    let nothing = Release { abort: false, wait: false };
    assert_eq!(listener.unsubscribe(&scanner(1)), nothing);

    let epoch = subscribe(&mut listener, 1);
    assert!(listener.unsubscribe(&scanner(1)).abort);
    assert_eq!(listener.unsubscribe(&scanner(1)), nothing);
    assert!(!listener.drop_subscription(&scanner(1), epoch));
    assert_eq!(listener.unsubscribe(&scanner(1)), nothing);

    assert_eq!(listener.subscribers(), 0);
    assert_eq!(listener.port(), None);
}

#[test]
fn resubscribing_replaces_the_stream_without_rebinding() {
    let mut listener = Listener::new(0);
    let first = subscribe(&mut listener, 1);
    let second = subscribe(&mut listener, 1);
    assert_ne!(first, second);
    assert_eq!(listener.port(), Some(PORT), "no rebind");
    assert_eq!(listener.subscribers(), 1);
    assert_eq!(send(&mut listener, 1, Function::Image).unwrap().button, 1);

    assert!(!listener.drop_subscription(&scanner(1), first));
    assert_eq!(listener.subscribers(), 1);
    assert_eq!(listener.port(), Some(PORT));
    assert_eq!(send(&mut listener, 1, Function::Ocr).unwrap().button, 2);
}

#[test]
fn a_port_another_process_holds_is_reported_as_taken() {
    let mut listener = Listener::new(PORT);
    let error = listener
        .subscribe(scanner(1), device(1), Some(SocketOutcome::InUse))
        .expect_err("a port somebody else holds cannot be bound");
    assert_eq!(error, BindError::Taken { port: PORT });
    assert_eq!(error.to_text(), "UDP/54925 is already bound by another process");
    assert_eq!(listener.subscribers(), 0, "a failed bind subscribes nobody");
    assert_eq!(listener.port(), None);

    let error = listener
        .subscribe(scanner(1), device(1), Some(SocketOutcome::Failed("no route".to_owned())))
        .unwrap_err();
    assert_eq!(error.to_text(), "could not bind UDP/54925: no route");

    assert!(listener.subscribe(scanner(1), device(1), bound(PORT)).is_ok());
}

#[test]
fn the_press_record_forgets_the_oldest_rather_than_growing() {
    let mut listener = Listener::new(0);
    subscribe(&mut listener, 1);

    let mut triggers = Vec::new();
    for _ in 0..(RECORDED_PRESSES + 4) {
        triggers.push(send(&mut listener, 1, Function::Image).unwrap().id);
    }

    let (forgotten, kept) = triggers.split_at(4);
    for trigger in forgotten {
        assert_eq!(
            listener.take_press(&scanner(1), trigger),
            None,
            "{trigger} is older than the record keeps",
        );
    }
    for trigger in kept {
        assert!(
            listener.take_press(&scanner(1), trigger).is_some(),
            "{trigger} should still be correlatable",
        );
    }
}

#[test]
fn of_two_scanners_at_one_address_the_first_by_id_is_told() {
    let mut listener = Listener::new(0);
    listener.subscribe(scanner(2), device(5), bound(PORT)).unwrap();
    listener.subscribe(scanner(1), device(5), None).unwrap();
    let trigger = listener.dispatch(device(5), &key_press(device(5), Function::File), 0).unwrap();
    assert_eq!(trigger.scanner_id, scanner(1));
}

#[test]
fn a_socket_that_fails_ends_every_stream() {
    let mut listener = Listener::new(0);
    subscribe(&mut listener, 1);
    subscribe(&mut listener, 2);
    listener.socket_failed();
    assert_eq!(listener.subscribers(), 0);
    assert_eq!(listener.port(), None);
    assert_eq!(send(&mut listener, 1, Function::File), None);
}

#[test]
fn stopping_one_scanner_leaves_the_others_connected() {
    let mut listener = Listener::new(0);
    subscribe(&mut listener, 1);
    subscribe(&mut listener, 2);
    assert_eq!(listener.unsubscribe(&scanner(1)), Release { abort: false, wait: false });
    assert_eq!(listener.port(), Some(PORT));
    assert!(send(&mut listener, 2, Function::File).is_some());
}

#[test]
fn a_trigger_can_be_fetched_once_and_an_unknown_one_never() {
    let line = "device 'escl:http://127.0.0.2:80' is a Brother MFC-L2710DW adf,platen scanner\n";
    let mut backend = BrotherBackend::default();
    let found = backend.discover_in(line, Default::default()).unwrap().remove(0);
    let mut listener = Listener::new(0);
    listener.subscribe(found.id.clone(), device(2), bound(PORT)).unwrap();
    let trigger = send(&mut listener, 2, Function::Ocr).unwrap();

    let press = listener.take_press(&found.id, &trigger.id);
    backend.fetch_pages(&found.id, &trigger.id, press).unwrap();

    for (case, id) in [("already fetched", trigger.id.as_str()), ("never minted", "press-99")] {
        let press = listener.take_press(&found.id, id);
        match backend.fetch_pages(&found.id, id, press) {
            Err(BackendError::UnknownJob { scanner: reported, job }) => {
                assert_eq!(reported, found.id, "{case}");
                assert_eq!(job, id, "{case}");
            }
            Err(other) => panic!("{case} must be UnknownJob, got {other:?}"),
            Ok(_) => panic!("{case} must not start a second scan"),
        }
    }
}
