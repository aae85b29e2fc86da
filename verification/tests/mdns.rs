use scanbus_backends::mdns::{
    record, register, service_info, Attempt, Browse, BrowseError, BrowseEvent, RegisterError,
    Responder, ServiceRecord,
};

fn service(instance: &str, addresses: &[&str]) -> ServiceRecord {
    ServiceRecord {
        fullname: format!("{instance}._uscan._tcp.local."),
        service_type: "_uscan._tcp.local.".to_owned(),
        hostname: format!("{instance}.local."),
        port: 8080,
        addresses: addresses.iter().map(|a| (*a).to_owned()).collect(),
        txt: Vec::new(),
        addr_auto: false,
    }
}

fn pairs(txt: &[(&str, &str)]) -> Vec<(String, String)> {
    txt.iter().map(|(k, v)| ((*k).to_owned(), (*v).to_owned())).collect()
}

fn names(found: &[ServiceRecord]) -> Vec<&str> {
    found.iter().map(|service| service.hostname.as_str()).collect()
}

#[test]
fn browse_without_service_types_starts_no_browser() {
    let window = Browse::open(&Vec::new()).expect("empty browse is not an error");
    assert!(!window.is_watching());
    assert!(window.finish().is_empty());
}

#[test]
fn resolutions_keep_arrival_order() {
    let mut bucket = Vec::new();
    record(&mut bucket, service("first", &["10.0.0.1"]));
    record(&mut bucket, service("second", &["10.0.0.2"]));

    let instances: Vec<_> = bucket.iter().map(|s| s.fullname.as_str()).collect();
    assert_eq!(instances, ["first._uscan._tcp.local.", "second._uscan._tcp.local."]);
}

#[test]
fn a_described_record_carries_the_instance_the_port_and_the_txt_verbatim() {
    let service = service_info(
        "_scanbus-host._tcp.local.",
        "workshop",
        45654,
        &pairs(&[("id", "0123456789abcdef0123456789abcdef"), ("v", "1")]),
    )
    .expect("a plain instance and two ASCII keys are publishable");

    assert_eq!(service.fullname, "workshop._scanbus-host._tcp.local.");
    assert_eq!(service.hostname, "workshop.local.");
    assert_eq!(service.port, 45654);
    assert_eq!(
        service.property("id"),
        Some("0123456789abcdef0123456789abcdef".to_owned())
    );
    assert_eq!(service.property("v"), Some("1".to_owned()));
    assert_eq!(service.txt.len(), 2, "TXT is exactly what the caller passed");
    assert!(service.addr_auto, "addresses must follow the host");
    assert!(service.addresses.is_empty());
}

#[test]
fn a_txt_key_dns_sd_cannot_carry_is_rejected_before_a_responder_starts() {
    let error = service_info(
        "_scanbus-host._tcp.local.",
        "workshop",
        45654,
        &pairs(&[("id=nope", "1")]),
    )
    .expect_err("'=' is not allowed in a TXT key");

    assert!(matches!(error, RegisterError::Malformed(_)), "{error:?}");
    let text = error.to_text();
    assert!(
        text.starts_with("cannot publish this record: workshop._scanbus-host._tcp.local.: "),
        "{text}"
    );
    assert!(text.contains("id=nope"), "{text}");

    let beyond = service_info("_x._tcp.local.", "w", 1, &pairs(&[("clé", "1")]));
    assert!(matches!(beyond, Err(RegisterError::Malformed(_))));
}

#[test]
fn duplicate_txt_keys_after_the_first_are_dropped() {
    let service = service_info(
        "_x._tcp.local.",
        "w",
        1,
        &pairs(&[("a", "1"), ("B", "2"), ("A", "3"), ("b", "4"), ("c", "")]),
    )
    .unwrap();
    assert_eq!(service.txt, pairs(&[("a", "1"), ("B", "2"), ("c", "")]));
    assert_eq!(service.property("A"), Some("1".to_owned()));
    assert_eq!(service.property("b"), Some("2".to_owned()));
    assert_eq!(service.property("C"), Some(String::new()));
    assert_eq!(service.property("d"), None);
}

#[test]
fn a_host_name_says_local_once() {
    let service = service_info("_x._tcp.local.", "w.local", 1, &Vec::new()).unwrap();
    assert_eq!(service.hostname, "w.local.");
    assert_eq!(service.fullname, "w.local._x._tcp.local.");
}

#[test]
fn re_resolution_replaces_the_record_in_place() {
    let mut bucket = Vec::new();
    record(&mut bucket, service("mfp", &[]));
    record(&mut bucket, service("other", &["10.0.0.9"]));
    record(&mut bucket, service("mfp", &["10.0.0.4"]));

    assert_eq!(bucket.len(), 2);
    assert_eq!(bucket[0].fullname, "mfp._uscan._tcp.local.");
    assert_eq!(bucket[0].addresses, ["10.0.0.4"]);
}

#[test]
fn what_a_window_found_keeps_the_order_of_its_types() {
    let mut window = Browse::open(&vec![
        Attempt::Watched,
        Attempt::Refused { service_type: "_bad".to_owned(), reason: "no".to_owned() },
        Attempt::Watched,
    ])
    .unwrap();
    window.step(BrowseEvent::Resolved { index: 1, service: service("c", &[]) });
    window.step(BrowseEvent::Resolved { index: 0, service: service("a", &[]) });
    window.step(BrowseEvent::Other);
    window.step(BrowseEvent::Disconnected { index: 1 });
    assert!(window.is_watching());
    assert!(window.watches(0) && !window.watches(1) && !window.watches(2));
    window.step(BrowseEvent::Resolved { index: 0, service: service("b", &[]) });
    window.step(BrowseEvent::Disconnected { index: 0 });
    assert!(!window.is_watching());
    assert_eq!(names(&window.finish()), ["a.local.", "b.local.", "c.local."]);
}

#[test]
fn a_browser_that_refuses_every_type_opens_no_window() {
    let refused = |t: &str, r: &str| Attempt::Refused {
        service_type: t.to_owned(),
        reason: r.to_owned(),
    };
    let error = Browse::open(&vec![refused("_a", "x"), refused("_b", "y")]).unwrap_err();
    assert_eq!(error, BrowseError::BrowseRefused("_a: x; _b: y".to_owned()));
    assert_eq!(error.to_text(), "failed to browse _a: x; _b: y");
    assert_eq!(
        BrowseError::DaemonUnavailable("down".to_owned()).to_text(),
        "failed to start mDNS browser: down"
    );
}

#[test]
fn publishing_ends_as_the_responder_says() {
    let service = service("mfp", &[]);
    let published = register(&service, Responder::Published).unwrap();
    assert_eq!(published.fullname(), "mfp._uscan._tcp.local.");
    assert_eq!(
        register(&service, Responder::Refused("taken".to_owned())).unwrap_err().to_text(),
        "failed to register mfp._uscan._tcp.local.: taken"
    );
    assert_eq!(
        register(&service, Responder::Unavailable("down".to_owned())).unwrap_err().to_text(),
        "failed to start mDNS responder: down"
    );
}

#[test]
fn a_subtype_stays_out_of_the_name() {
    let service =
        service_info("_printer._sub._http._tcp.local.", "workshop", 80, &Vec::new()).unwrap();
    assert_eq!(service.service_type, "_http._tcp.local.");
    assert_eq!(service.fullname, "workshop._http._tcp.local.");
}
