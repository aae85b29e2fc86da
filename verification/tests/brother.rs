use scanbus_backends::brother::backend::{
    bind_refused, check_escl_device, checking, ensure_installed, installing, listed_paths,
    missing_package_detail, package_files, package_presence, package_registered, port_taken,
    BrotherBackend, Evidence, Inquired, Inquiry, PackageProbe, Question, Reply,
};
use scanbus_backends::brother::discovery::{
    device_ipv4, enrichments_by_model, escl_device, scanners_from_sightings, InstalledState,
    Presence, ScanToPc,
};
use scanbus_backends::brother::listener::{BindError, Listener, Press, SocketOutcome};
use scanbus_backends::brother::registrar::{
    probe_message, probe_scan_to_pc, RegistrarError, TransportError,
};
use scanbus_backends::brother::sightings::{
    contains_brother_marker, display_name, ipv4, model_from_text, parse_scanimage_line,
    parse_scanimage_output, physical_address_from_uri, query_value, stable_hint_from_uri,
    transport_from_uri, url_host, usb_endpoint, Sighting, Transport,
};
use scanbus_backends::keyed::Keyed;
use scanbus_backends::model::{
    get, BackendError, ColorMode, CommandRun, PairingProgress, ProfileKind, ScannerId, ScannerInfo,
    Source, Status, Value,
};
use scanbus_backends::net::Ipv4Addr;
use scanbus_backends::skey::event::Frame;
use scanbus_backends::skey::function::Function;
use scanbus_backends::skey::snmp::{
    ErrorStatus, Message, Pdu, PduKind, Value as SnmpValue, VarBind, Version, DEFAULT_COMMUNITY,
};
use scanbus_backends::time::Duration;

fn never_asked() -> Keyed<ScanToPc> {
    Keyed::new()
}

fn sighting(line: &str) -> Sighting {
    parse_scanimage_line(line).unwrap()
}

fn scanners(lines: &[&str]) -> Vec<ScannerInfo> {
    scanners_from_sightings(
        lines.iter().map(|line| sighting(line)).collect(),
        InstalledState::default(),
        &never_asked(),
    )
    .unwrap()
}

fn brother_mfc() -> ScannerInfo {
    scanners(&["device 'escl:http://192.168.1.3:80' is a Brother MFC-J5335DW adf,platen scanner"])
        .remove(0)
}

fn vendor_only_mfc() -> ScannerInfo {
    scanners(&["device 'brother4:net1;dev0' is 'Brother MFC-L2710DW'"]).remove(0)
}

fn entry<'a>(scanner: &'a ScannerInfo, key: &str) -> Option<&'a Value> {
    match get(&scanner.capabilities.extra, "brother") {
        Some(Value::Dict(dict)) => get(dict, key),
        _ => panic!("every Brother scanner carries its dictionary"),
    }
}

fn exited(success: bool, code: Option<i32>, stdout: &str, stderr: &str) -> CommandRun {
    CommandRun::Exited {
        success,
        code,
        stdout: stdout.as_bytes().to_vec(),
        stderr: stderr.as_bytes().to_vec(),
    }
}

fn discover(backend: &mut BrotherBackend, output: &str) -> Vec<ScannerInfo> {
    backend
        .discover_once(Some(exited(true, Some(0), output, "")), &Evidence::KnownFile)
        .unwrap()
}

/// What a device that answers with a status says to the scan-to-PC question.
fn answer(device: Ipv4Addr, status: Option<ErrorStatus>) -> Result<(), RegistrarError> {
    let request = probe_message(DEFAULT_COMMUNITY, 200);
    let response = match status {
        None => Err(TransportError::Timeout(Duration::from_secs(2))),
        Some(error_status) => Ok(Message {
            version: Version::V1,
            community: request.community.clone(),
            pdu: Pdu {
                kind: PduKind::Response,
                request_id: request.pdu.request_id,
                error_status,
                error_index: 0,
                varbinds: vec![VarBind::new(
                    request.pdu.varbinds[0].oid.clone(),
                    SnmpValue::OctetString(b"TRUE".to_vec()),
                )],
            },
        }),
    };
    probe_scan_to_pc(device, 200, response)
}

const NETWORK_MFC: &str =
    "device 'escl:http://192.168.1.23:80' is a Brother MFC-L2710DW flatbed scanner\n";
const LOOPBACK_MFC: &str =
    "device 'escl:http://127.0.0.2:80' is a Brother MFC-L2710DW adf,platen scanner\n";
const USB_MFC: &str = "device 'brother4:bus4;dev1:usb:001:002' is a Brother MFC-L2710DW\n";

// -------------------------------------------------------------------------------- sightings

#[test]
fn scanimage_lines_are_parsed() {
    let output = r#"
device 'brother4:net1;dev0' is 'Brother MFC-L2710DW'
device 'airscan:escl:Brother MFC-L2710DW http://BRW001122334455.local:80/eSCL/' is a WSD or eSCL Brother MFC-L2710DW series
"#;

    let parsed = parse_scanimage_output(output);
    assert_eq!(parsed.len(), 2);
    assert_eq!(parsed[0].transport, Transport::Vendor);
    assert_eq!(parsed[0].model.as_deref(), Some("MFC-L2710DW"));
    assert_eq!(parsed[1].transport, Transport::Airscan);
    assert_eq!(parsed[1].address_hint.as_deref(), Some("brw001122334455.local:80"));
}

#[test]
fn a_name_that_a_backtick_opens_is_read_too() {
    let parsed = parse_scanimage_output(
        "device `brother4:net1;dev0' is a Brother MFC-J5335DW MFC-J5335DW\n\
         device `airscan:e0:Brother MFC-J5335DW' is a eSCL Brother MFC-J5335DW ip=192.168.1.3\n",
    );
    assert_eq!(parsed.len(), 2);
    assert_eq!(parsed[0].device_uri, "brother4:net1;dev0");
    assert_eq!(parsed[0].description, "Brother MFC-J5335DW MFC-J5335DW");
    assert_eq!(parsed[1].device_uri, "airscan:e0:Brother MFC-J5335DW");
    assert_eq!(parsed[1].transport, Transport::Airscan);
    assert_eq!(parsed[1].model.as_deref(), Some("MFC-J5335DW"));
    assert_eq!(parsed[1].model_key.as_deref(), Some("mfc-j5335dw"));
}

#[test]
fn lines_that_name_no_device_are_passed_over() {
    assert!(parse_scanimage_line("No scanners were identified.").is_none());
    assert!(parse_scanimage_line("device 'airscan:e0:x'").is_none());
    assert!(parse_scanimage_line("").is_none());
}

#[test]
fn the_escl_sighting_wins_the_dedup_and_is_what_a_scan_runs_against() {
    let scanners = scanners_from_sightings(
        vec![
            sighting("device 'brother4:net1;dev0' is 'Brother MFC-L2710DW'"),
            sighting("device 'airscan:escl:http://BRW001122334455.local:80/eSCL/' is 'Brother MFC-L2710DW series'"),
        ],
        InstalledState { airscan: Presence::Present },
        &never_asked(),
    )
    .unwrap();

    assert_eq!(scanners.len(), 1);
    assert_eq!(scanners[0].name, "MFC-L2710DW");
    assert_eq!(scanners[0].address, "brw001122334455.local:80");
    assert_eq!(scanners[0].id.as_str(), "brother_brw001122334455_2Elocal_3A80");
    assert_eq!(entry(&scanners[0], "transport"), Some(&Value::Str("airscan".to_owned())));
    assert_eq!(
        entry(&scanners[0], "acquisition_uri"),
        Some(&Value::Str("airscan:escl:http://BRW001122334455.local:80/eSCL/".to_owned()))
    );
    assert_eq!(entry(&scanners[0], "airscan_installed"), Some(&Value::Bool(true)));
    assert_eq!(entry(&scanners[0], "driver"), None);
    assert_eq!(entry(&scanners[0], "driver_installed"), None);
    assert_eq!(scanners[0].capabilities.buttons.count, 4);
}

#[test]
fn an_unknown_model_is_described_from_its_sighting_rather_than_from_a_table() {
    let scanners = scanners(&[
        "device 'escl:http://192.168.1.3:80' is a Brother MFC-J5335DW adf,platen scanner",
    ]);

    assert_eq!(scanners.len(), 1);
    let capabilities = &scanners[0].capabilities;
    assert_eq!(capabilities.resolutions, vec![100, 200, 300, 600]);
    assert_eq!(capabilities.color_modes, vec![ColorMode::Color, ColorMode::Gray]);
    assert_eq!(capabilities.sources, vec![Source::Flatbed, Source::Adf]);
    assert!(!capabilities.duplex);
    assert_eq!(capabilities.buttons.count, 4);
    assert_eq!(capabilities.buttons.labels[0], "Scan to File");
    assert!(!capabilities.buttons.label_configurable);
}

#[test]
fn a_device_seen_only_through_the_vendor_backend_is_still_discovered() {
    let scanners = scanners(&["device 'brother4:net1;dev0' is 'Brother MFC-L2710DW'"]);

    assert_eq!(scanners.len(), 1);
    assert_eq!(entry(&scanners[0], "transport"), Some(&Value::Str("vendor".to_owned())));
    assert_eq!(entry(&scanners[0], "acquisition_uri"), None);
    assert_eq!(escl_device(&scanners[0]), None);
}

#[test]
fn url_host_and_usb_endpoint_are_extracted() {
    assert_eq!(
        physical_address_from_uri("http://BRW001122334455.local./eSCL"),
        Some("brw001122334455.local".to_owned())
    );
    assert_eq!(
        physical_address_from_uri("brother5:usb:001:002"),
        Some("usb:001:002".to_owned())
    );
}

#[test]
fn parts_of_device_names_are_told_apart() {
    assert_eq!(url_host("escl:https://Host:443?x"), Some("host:443".to_owned()));
    assert_eq!(url_host("http:///x"), None);
    assert_eq!(url_host("no url"), None);
    assert_eq!(usb_endpoint("usb:1a:2b:3"), Some("usb:1:2".to_owned()));
    assert_eq!(usb_endpoint("usb:1"), None);
    assert_eq!(usb_endpoint("usb:x:2"), None);
    assert_eq!(ipv4("net;ip=10.0.0.7:80"), Some("10.0.0.7".to_owned()));
    assert_eq!(ipv4("1.2.3 256.1.1.1 1.2.3.4.5 9.8.7.6"), Some("9.8.7.6".to_owned()));
    assert_eq!(ipv4("v1.2.3.4"), Some("1.2.3.4".to_owned()));
    assert_eq!(query_value("x?a=1&ip=&ip=2", "ip"), Some("2".to_owned()));
    assert_eq!(query_value("x?flag&ip=2", "ip"), None);
    assert_eq!(query_value("x", "ip"), None);
    assert_eq!(physical_address_from_uri("x?ip=FE80"), Some("fe80".to_owned()));
    assert_eq!(physical_address_from_uri("x?hostname=A.Local."), Some("a.local".to_owned()));
    assert_eq!(physical_address_from_uri("x?zc=B."), Some("b".to_owned()));
    assert_eq!(physical_address_from_uri("x"), None);
    assert_eq!(stable_hint_from_uri("http://h/?serial=S1&hostname=a"), Some("S1".to_owned()));
    assert_eq!(stable_hint_from_uri("http://h/"), Some("h".to_owned()));
    assert_eq!(stable_hint_from_uri("brother5:usb:001:002"), Some("usb:001:002".to_owned()));
    assert_eq!(stable_hint_from_uri("x?ip=1.2.3.4"), None);
}

#[test]
fn models_and_transports_are_read_off_their_texts() {
    assert_eq!(model_from_text("a brother dcp-j1050dw, new"), Some("DCP-J1050DW".to_owned()));
    assert_eq!(model_from_text("MFC- HL-2030"), Some("HL-2030".to_owned()));
    assert_eq!(model_from_text("ADS-"), None);
    assert_eq!(display_name("  Brother scanner "), "Brother scanner");
    assert_eq!(transport_from_uri("https://x"), Transport::Escl);
    assert_eq!(transport_from_uri("pixma:x"), Transport::Other);
    assert_eq!(transport_from_uri("brother5:x").as_str(), "vendor");
    assert!(contains_brother_marker("x_Brother_y"));
    assert!(contains_brother_marker("the BROTHER"));
    assert!(!contains_brother_marker("brothers"));
}

#[test]
fn only_hints_that_all_sightings_of_a_model_agree_on_enrich_it() {
    let agreeing = vec![
        sighting("device 'escl:http://10.0.0.1:80' is a Brother MFC-1 x"),
        sighting("device 'airscan:e0:http://10.0.0.1:80' is a Brother MFC-1 x"),
        sighting("device 'escl:http://10.0.0.2:80' is a Brother MFC-2 x"),
        sighting("device 'escl:http://10.0.0.3:80' is a Brother MFC-2 x"),
        sighting("device 'brother4:net1' is a Brother MFC-3 x"),
    ];
    let enrichments = enrichments_by_model(&agreeing);
    assert_eq!(
        enrichments.get("mfc-1").unwrap().address_hint.as_deref(),
        Some("10.0.0.1:80")
    );
    assert_eq!(enrichments.get("mfc-2"), None);
    assert_eq!(enrichments.get("mfc-3"), None);
}

#[test]
fn scanners_come_in_the_order_of_their_ids_and_once_each() {
    let found = scanners(&[
        "device 'escl:http://c:80' is a Brother MFC-3 x",
        "device 'brother4:x' is a Brother MFC-9 x",
        "device 'escl:http://a:80' is a Brother MFC-1 first",
        "device 'airscan:e0:http://a:80' is a Brother MFC-1 second",
        "device 'pixma:y' is a CANON MP x",
    ]);
    let ids: Vec<&str> = found.iter().map(|scanner| scanner.id.as_str()).collect();
    assert_eq!(ids, ["brother_a_3A80", "brother_brother4_3Ax", "brother_c_3A80"]);
    assert_eq!(
        entry(&found[0], "device_uri"),
        Some(&Value::Str("escl:http://a:80".to_owned())),
        "of two sightings as good as each other the first stays"
    );
    assert_eq!(found[0].backend, "escl:brother");
    assert_eq!(found[0].status, Status::Online);
}

#[test]
fn a_sighting_that_nothing_tells_apart_is_an_error() {
    let error = scanners_from_sightings(
        vec![sighting("device 'escl:http://.?x' is a Brother scanner")],
        InstalledState::default(),
        &never_asked(),
    )
    .unwrap_err();
    assert!(matches!(error, BackendError::Other(_)), "{error:?}");
}

#[test]
fn a_duplex_description_is_published() {
    let found = scanners(&["device 'escl:http://a:80' is a Brother MFC-1 ADF Duplex"]);
    assert!(found[0].capabilities.duplex);
    assert_eq!(found[0].capabilities.sources, vec![Source::Adf]);
}

#[test]
fn a_device_address_is_read_from_discovery_metadata_or_not_at_all() {
    let networked = scanners(&[NETWORK_MFC]).remove(0);
    assert_eq!(device_ipv4(&networked), Some(Ipv4Addr::new(192, 168, 1, 23)));

    assert_eq!(device_ipv4(&vendor_only_mfc()), None);

    let mut padded = vendor_only_mfc();
    padded.address = "192.168.001.023".to_owned();
    assert_eq!(device_ipv4(&padded), None, "an octet with leading zeros is no address");
}

// ------------------------------------------------------------------------------- scan to PC

#[test]
fn a_device_that_refuses_the_oid_keeps_a_scanner_and_loses_its_buttons() {
    let mut backend = BrotherBackend::default();
    let before = discover(&mut backend, NETWORK_MFC);
    assert_eq!(before.len(), 1);
    assert_eq!(before[0].capabilities.buttons.count, 4);

    let (progress, outcome) = ensure_installed(&before[0], &Evidence::KnownFile);
    outcome.expect("a model without scan-to-PC is still pairable");
    let device = device_ipv4(&before[0]).unwrap();
    assert_eq!(device, Ipv4Addr::new(192, 168, 1, 23));
    backend.note_scan_to_pc(&before[0], Some(answer(device, Some(ErrorStatus::NoSuchName))));
    assert_eq!(progress, PairingProgress::Ready);

    let after = discover(&mut backend, NETWORK_MFC);
    assert_eq!(after.len(), 1, "the scanner is still discovered");
    assert_eq!(after[0].id, before[0].id);
    assert_eq!(after[0].status, Status::Online);
    assert_eq!(after[0].capabilities.buttons.count, 0);
    assert!(after[0].capabilities.buttons.labels.is_empty());

    assert_eq!(entry(&after[0], "scan_to_pc"), Some(&Value::Bool(false)));
    let Some(Value::Str(reason)) = entry(&after[0], "scan_to_pc_reason") else {
        panic!("the reason must travel with the scanner");
    };
    assert!(reason.contains("does not appear to support scan-to-PC"), "{reason}");
    assert_eq!(
        entry(&after[0], "device_uri"),
        Some(&Value::Str("escl:http://192.168.1.23:80".to_owned()))
    );
    assert_eq!(after[0].capabilities.sources, before[0].capabilities.sources);
    assert_eq!(after[0].capabilities.resolutions, before[0].capabilities.resolutions);
}

#[test]
fn a_device_that_knows_the_oid_keeps_its_buttons() {
    let mut backend = BrotherBackend::default();
    let scanner = discover(&mut backend, NETWORK_MFC).remove(0);
    let device = device_ipv4(&scanner).unwrap();
    backend.note_scan_to_pc(&scanner, Some(answer(device, Some(ErrorStatus::NoError))));

    let after = discover(&mut backend, NETWORK_MFC).remove(0);
    assert_eq!(after.capabilities.buttons.count, 4);
    assert_eq!(entry(&after, "scan_to_pc"), Some(&Value::Bool(true)));
}

#[test]
fn a_printer_that_does_not_answer_is_not_recorded_as_button_less() {
    let mut backend = BrotherBackend::default();
    let scanner = discover(&mut backend, NETWORK_MFC).remove(0);
    let device = device_ipv4(&scanner).unwrap();
    backend.note_scan_to_pc(&scanner, Some(answer(device, None)));

    let after = discover(&mut backend, NETWORK_MFC).remove(0);
    assert_eq!(after.capabilities.buttons.count, 4);
    assert_eq!(entry(&after, "scan_to_pc"), None, "silence is not an answer to record");
    assert_eq!(backend.listen_target(&after), Ok(device));
}

#[test]
fn a_usb_scanner_reports_no_panel_keys_and_says_why() {
    let mut backend = BrotherBackend::default();
    let scanner = discover(&mut backend, USB_MFC).remove(0);
    assert_eq!(device_ipv4(&scanner), None, "there is nothing to send a datagram to");
    backend.note_scan_to_pc(&scanner, None);

    let after = discover(&mut backend, USB_MFC).remove(0);
    assert_eq!(after.capabilities.buttons.count, 0);
    let Some(Value::Str(reason)) = entry(&after, "scan_to_pc_reason") else {
        panic!("a USB scanner must say why it has no keys");
    };
    assert!(reason.contains("USB"), "{reason}");
    assert!(reason.contains("usb:001:002"), "{reason}");
}

#[test]
fn a_scanner_with_no_panel_presses_to_deliver_still_connects() {
    let mut backend = BrotherBackend::default();
    let usb = discover(&mut backend, USB_MFC).remove(0);
    backend.note_scan_to_pc(&usb, None);
    assert_eq!(
        backend.listen_target(&usb),
        Err("usb:001:002 is a USB connection, and scan-to-PC registration is a network protocol"
            .to_owned())
    );

    let refusing = discover(&mut backend, LOOPBACK_MFC).remove(0);
    let device = device_ipv4(&refusing).unwrap();
    assert_eq!(backend.listen_target(&refusing), Ok(device));
    backend.note_scan_to_pc(&refusing, Some(answer(device, Some(ErrorStatus::NoSuchName))));
    let reason = backend.listen_target(&refusing).unwrap_err();
    assert!(reason.contains("127.0.0.2 refused to read the scan-key OID"), "{reason}");

    assert_eq!(
        backend.listen_target(&vendor_only_mfc()),
        Err("discovery found no IPv4 address for brother4:net1;dev0, so nothing can be \
             registered to send here"
            .to_owned())
    );
}

#[test]
fn a_port_brscan_skey_holds_is_refused_by_name() {
    let scanner = brother_mfc();
    let error = bind_refused(&scanner.id, BindError::Taken { port: 54925 }, Presence::Present);
    let message = error.to_text();
    assert!(message.contains("brscan-skey") && message.contains("brscan-skey -t"), "{message}");
    assert!(message.contains("54925") && message.contains("scanned from the host"), "{message}");
}

#[test]
fn a_port_taken_by_something_else_says_how_to_find_out_what() {
    for presence in [Presence::Absent, Presence::RegisteredButMissing] {
        let message = port_taken(54925, presence);
        assert!(
            message.contains("does not appear to be installed")
                && message.contains("ss -lunp | grep 54925"),
            "{message}"
        );
    }
    let scanner = brother_mfc();
    let error = BindError::Io { port: 54925, error: "permission denied".to_owned() };
    let message = bind_refused(&scanner.id, error, Presence::Absent).to_text();
    assert!(message.contains("could not bind UDP/54925: permission denied"), "{message}");
    assert!(message.contains(scanner.id.as_str()), "{message}");
}

// ------------------------------------------------------------------------------ acquisition

fn press(scanner: &ScannerInfo, function: Function) -> Option<Press> {
    Some(Press {
        scanner: scanner.id.clone(),
        device: Ipv4Addr::new(127, 0, 0, 2),
        function,
        user: "desktop".to_owned(),
        at: 0,
    })
}

#[test]
fn a_press_scans_over_escl_with_the_options_the_assigned_profile_implies() {
    let mut backend = BrotherBackend::default();
    let scanner = discover(&mut backend, LOOPBACK_MFC).remove(0);
    backend
        .set_button_mapping(
            &scanner.id,
            Function::File.button_index(),
            Some(ProfileKind::Document),
            &Vec::new(),
        )
        .unwrap();

    let config = backend
        .fetch_pages(&scanner.id, "press-1", press(&scanner, Function::File))
        .unwrap();
    assert_eq!(config.resolution_dpi, 300);
    assert_eq!(config.program, backend.scanimage_helper_path);
    let argv = config.arguments("/tmp/page-%d.pnm");
    assert_eq!(
        argv,
        [
            "--device-name=escl:http://127.0.0.2:80",
            "--format=pnm",
            "--batch=/tmp/page-%d.pnm",
            "--source=ADF",
            "--resolution=300",
        ]
    );
}

#[test]
fn an_image_profile_scans_one_sheet_from_the_glass() {
    let mut backend = BrotherBackend::default();
    let scanner = discover(&mut backend, LOOPBACK_MFC).remove(0);
    backend
        .set_button_mapping(
            &scanner.id,
            Function::Image.button_index(),
            Some(ProfileKind::Image),
            &Vec::new(),
        )
        .unwrap();
    let config = backend
        .fetch_pages(&scanner.id, "press-1", press(&scanner, Function::Image))
        .unwrap();
    assert!(config.extra_args.contains(&"--source=Flatbed".to_owned()));
    assert!(config.extra_args.contains(&"--batch-count=1".to_owned()));
}

#[test]
fn an_unassigned_key_still_acquires_at_the_devices_defaults() {
    let mut backend = BrotherBackend::default();
    let scanner = discover(&mut backend, LOOPBACK_MFC).remove(0);
    let config = backend
        .fetch_pages(&scanner.id, "press-1", press(&scanner, Function::Email))
        .unwrap();
    assert!(config.extra_args.contains(&"--source=Flatbed".to_owned()));
}

#[test]
fn clearing_a_key_forgets_its_options() {
    let mut backend = BrotherBackend::default();
    let scanner = discover(&mut backend, LOOPBACK_MFC).remove(0);
    let index = Function::File.button_index();
    let other = Function::Ocr.button_index();
    for key in [index, other] {
        backend
            .set_button_mapping(&scanner.id, key, Some(ProfileKind::Document), &Vec::new())
            .unwrap();
    }
    backend.set_button_mapping(&scanner.id, index, None, &Vec::new()).unwrap();

    let cleared = backend
        .fetch_pages(&scanner.id, "press-1", press(&scanner, Function::File))
        .unwrap();
    assert!(cleared.extra_args.contains(&"--source=Flatbed".to_owned()));
    let kept = backend
        .fetch_pages(&scanner.id, "press-2", press(&scanner, Function::Ocr))
        .unwrap();
    assert!(kept.extra_args.contains(&"--source=ADF".to_owned()));
}

#[test]
fn a_keys_options_reach_the_command_line() {
    let mut backend = BrotherBackend::default();
    let scanner = discover(&mut backend, LOOPBACK_MFC).remove(0);
    let options = vec![("resolution".to_owned(), Value::U64(600))];
    backend
        .set_button_mapping(&scanner.id, 2, Some(ProfileKind::Ocr), &options)
        .unwrap();
    let config = backend
        .fetch_pages(&scanner.id, "press-1", press(&scanner, Function::Ocr))
        .unwrap();
    assert_eq!(config.resolution_dpi, 600);
}

#[test]
fn a_button_index_the_panel_does_not_have_is_refused() {
    let mut backend = BrotherBackend::default();
    let scanner = brother_mfc();
    let error = backend
        .set_button_mapping(&scanner.id, 4, Some(ProfileKind::Image), &Vec::new())
        .unwrap_err();
    let message = error.to_text();
    assert!(message.contains("button 4"), "{message}");
    assert!(message.contains("0..=3"), "{message}");
}

#[test]
fn a_scanner_with_no_recorded_escl_device_is_not_reachable() {
    let backend = BrotherBackend::default();
    let scanner = brother_mfc();
    let error = backend
        .fetch_pages(&scanner.id, "press-1", press(&scanner, Function::File))
        .unwrap_err();
    let BackendError::NotReachable { detail, .. } = &error else {
        panic!("expected NotReachable, got {error:?}");
    };
    assert!(detail.contains("discovery"), "{detail}");
}

#[test]
fn a_device_that_is_no_longer_seen_over_escl_is_forgotten() {
    let mut backend = BrotherBackend::default();
    let scanner =
        discover(&mut backend, "device 'escl:x?serial=S1' is a Brother MFC-1 x\n").remove(0);
    assert!(backend.fetch_pages(&scanner.id, "t", press(&scanner, Function::File)).is_ok());
    let again = discover(&mut backend, "device 'escl:y?serial=S1' is a Brother MFC-1 x\n").remove(0);
    assert_eq!(again.id, scanner.id);
    let config = backend.fetch_pages(&scanner.id, "t", press(&scanner, Function::File)).unwrap();
    assert_eq!(config.device_name, "escl:y?serial=S1");
    let vendor =
        discover(&mut backend, "device 'brother4:z?serial=S1' is a Brother MFC-1 x\n").remove(0);
    assert_eq!(vendor.id, scanner.id);
    assert!(backend.fetch_pages(&scanner.id, "t", press(&scanner, Function::File)).is_err());
}

// ---------------------------------------------------------------------------- install checks

#[test]
fn present_dependencies_still_pass_through_installing_backend() {
    let scanner = brother_mfc();
    let (last, outcome) = ensure_installed(&scanner, &Evidence::KnownFile);
    outcome.unwrap();
    assert_eq!(
        vec![checking(&scanner), installing(PackageProbe::Airscan), last],
        vec![
            PairingProgress::Checking {
                message: "checking Brother dependencies for MFC-J5335DW".to_owned(),
            },
            PairingProgress::Installing { package: "sane-airscan".to_owned(), percent: None },
            PairingProgress::Ready,
        ]
    );
}

#[test]
fn a_missing_airscan_is_refused_by_name_and_by_the_command_that_fixes_it() {
    for evidence in [
        Evidence::NoTool,
        Evidence::Unregistered { status: exited(false, Some(1), "", "no packages found") },
    ] {
        let (progress, outcome) = ensure_installed(&brother_mfc(), &evidence);
        let error = outcome.unwrap_err();
        let BackendError::InstallFailed { package, detail } = &error else {
            panic!("expected an install failure, got {error:?}");
        };
        assert_eq!(package, "sane-airscan");
        assert!(detail.contains("apt install sane-airscan"), "{detail}");
        assert!(detail.contains("scanbus does not install it"), "{detail}");
        assert!(!detail.to_ascii_lowercase().contains("brother.com"), "{detail}");
        assert_eq!(progress, PairingProgress::Failed { message: error.to_text() });
    }
}

#[test]
fn a_device_with_no_escl_fails_pairing_and_says_why() {
    let (_, outcome) = ensure_installed(&vendor_only_mfc(), &Evidence::KnownFile);
    let BackendError::InstallFailed { package, detail } = outcome.unwrap_err() else {
        panic!("expected an install failure");
    };
    assert_eq!(package, "sane-airscan");
    assert!(detail.contains("not over eSCL"), "{detail}");
    assert!(detail.contains("MFC-L2710DW"), "{detail}");
    assert!(detail.contains("brscan4/brscan5"), "{detail}");
    assert!(check_escl_device(&brother_mfc()).is_ok());
}

#[test]
fn a_registered_package_with_no_files_is_not_installed() {
    let evidence = Evidence::Listed {
        status: exited(true, Some(0), "installed\n", ""),
        listing: exited(true, Some(0), "/usr/share/doc/sane-airscan/copyright\n", ""),
        file_present: false,
    };
    let (_, outcome) = ensure_installed(&brother_mfc(), &evidence);
    let BackendError::InstallFailed { package, detail } = outcome.unwrap_err() else {
        panic!("expected an install failure");
    };
    assert_eq!(package, "sane-airscan");
    assert!(detail.contains("none of its files are on disk"), "{detail}");
    assert!(detail.contains("reinstall"), "{detail}");
}

#[test]
fn a_backend_installed_outside_the_known_paths_is_found_through_the_package() {
    let elsewhere = "/usr/lib/riscv64-linux-gnu/sane/libsane-airscan.so.1";
    let listing = exited(true, Some(0), &format!("/usr/share/doc/sane-airscan\n{elsewhere}\n"), "");
    assert_eq!(
        package_files(PackageProbe::Airscan, &listing).unwrap(),
        ["/usr/share/doc/sane-airscan", elsewhere]
    );
    let evidence = Evidence::Listed {
        status: exited(true, Some(0), "installed\n", ""),
        listing,
        file_present: true,
    };
    let (_, outcome) = ensure_installed(&brother_mfc(), &evidence);
    outcome.unwrap();
    assert_eq!(PackageProbe::Airscan.status_arguments()[0], "-W");
    assert_eq!(PackageProbe::Airscan.list_arguments(), ["-L", "sane-airscan"]);
    assert!(PackageProbe::Airscan
        .files()
        .contains(&"/usr/lib/x86_64-linux-gnu/sane/libsane-airscan.so.1"));
}

#[test]
fn a_query_that_cannot_be_run_is_an_error() {
    let not_run = CommandRun::NotRun("no such file".to_owned());
    assert_eq!(
        package_registered(PackageProbe::BrscanSkey, &not_run),
        Err(BackendError::Other("failed to run dpkg-query for brscan-skey: no such file".to_owned()))
    );
    assert_eq!(
        package_files(PackageProbe::BrscanSkey, &not_run),
        Err(BackendError::Other(
            "failed to list the files of brscan-skey with dpkg-query: no such file".to_owned()
        ))
    );
    let half = Evidence::Listed {
        status: exited(true, Some(0), "installed", ""),
        listing: not_run,
        file_present: true,
    };
    assert!(package_presence(PackageProbe::Airscan, &half).is_err());
    let deinstalled = exited(true, Some(0), "config-files\n", "");
    assert_eq!(package_registered(PackageProbe::Airscan, &deinstalled), Ok(false));
    assert_eq!(listed_paths("diverted by x\n  /a \n/b"), ["/a", "/b"]);
    assert_eq!(
        missing_package_detail(PackageProbe::Airscan, Presence::Present),
        "sane-airscan is installed"
    );
}

// -------------------------------------------------------------------------------- discovery

#[test]
fn discovery_without_scanimage_is_empty_and_a_failing_one_is_an_error() {
    let mut backend = BrotherBackend::default();
    assert_eq!(backend.discover_once(None, &Evidence::NoTool).unwrap(), Vec::new());

    let error = backend
        .discover_once(Some(CommandRun::NotRun("denied".to_owned())), &Evidence::NoTool)
        .unwrap_err();
    let id = ScannerId::from_backend("brother", "discovery").unwrap();
    assert_eq!(
        error,
        BackendError::NotReachable {
            scanner: id.clone(),
            detail: "failed to run scanimage -L: denied".to_owned()
        }
    );

    let error = backend
        .discover_once(Some(exited(false, Some(3), " out ", " err\n")), &Evidence::NoTool)
        .unwrap_err();
    assert_eq!(
        error,
        BackendError::NotReachable {
            scanner: id,
            detail: "scanimage -L failed with exit code 3: out; err".to_owned()
        }
    );

    let unanswered = Evidence::Unregistered { status: CommandRun::NotRun("gone".to_owned()) };
    assert!(backend
        .discover_once(Some(exited(true, Some(0), LOOPBACK_MFC, "")), &unanswered)
        .is_err());
}

#[test]
fn an_unusable_airscan_is_published() {
    let mut backend = BrotherBackend::default();
    let scanner = backend
        .discover_once(Some(exited(true, Some(0), LOOPBACK_MFC, "")), &Evidence::NoTool)
        .unwrap()
        .remove(0);
    assert_eq!(entry(&scanner, "airscan_installed"), Some(&Value::Bool(false)));
}

#[test]
fn a_paired_scanner_reports_its_panel_presses_as_button_triggers() {
    let mut backend = BrotherBackend::default();
    let port = 25925;
    let mut listener = Listener::new(port);
    let scanner = discover(&mut backend, LOOPBACK_MFC).remove(0);
    ensure_installed(&scanner, &Evidence::KnownFile).1.unwrap();
    let device = device_ipv4(&scanner).unwrap();
    backend.note_scan_to_pc(&scanner, Some(answer(device, Some(ErrorStatus::NoError))));

    let target = backend.listen_target(&scanner).unwrap();
    assert_eq!(target, Ipv4Addr::new(127, 0, 0, 2));
    listener.subscribe(scanner.id.clone(), target, Some(SocketOutcome::Bound(port))).unwrap();
    let payload = format!(
        "TYPE=BR;BUTTON=SCAN;USER=\"desktop\";FUNC=OCR;HOST=127.0.0.1:{port};APPNUM=3;\
         CLIENT=127.0.0.2"
    );
    let datagram = Frame { id: 0x01, code: 0x01, payload: &payload }.to_datagram();

    let trigger = listener.dispatch(target, &datagram, 0).expect("a press should arrive");
    assert_eq!(trigger.scanner_id, scanner.id);
    assert_eq!(trigger.button, 2);
    assert!(!trigger.id.is_empty(), "a trigger `fetch_pages` can be called with needs an id");
    let taken = listener.take_press(&scanner.id, &trigger.id);
    assert!(backend.fetch_pages(&scanner.id, &trigger.id, taken).is_ok());

    listener.unsubscribe(&scanner.id);
    assert_eq!(listener.port(), None);
    let epoch = listener
        .subscribe(scanner.id.clone(), target, Some(SocketOutcome::Bound(port)))
        .unwrap();
    assert_eq!(listener.port(), Some(port));
    assert!(listener.drop_subscription(&scanner.id, epoch));
    listener.unsubscribe(&scanner.id);
    assert_eq!(listener.port(), None);
}

#[test]
fn stopping_a_listener_that_is_not_running_is_not_an_error() {
    let mut backend = BrotherBackend::default();
    let mut listener = Listener::new(25926);
    let scanner = discover(&mut backend, LOOPBACK_MFC).remove(0);
    let target = backend.listen_target(&scanner).unwrap();

    listener.unsubscribe(&scanner.id);
    let epoch = listener
        .subscribe(scanner.id.clone(), target, Some(SocketOutcome::Bound(25926)))
        .unwrap();
    listener.unsubscribe(&scanner.id);
    assert!(!listener.drop_subscription(&scanner.id, epoch));
    listener.unsubscribe(&scanner.id);
    assert_eq!(listener.port(), None);
}

/// Gathers the evidence of a package on a machine with some files, and what was run for it.
fn gather(
    probe: PackageProbe,
    files: &[&str],
    tool: bool,
    status: &str,
    listing: &str,
) -> (Evidence, Vec<Vec<&'static str>>) {
    let mut ran = Vec::new();
    let mut inquiry = Inquiry::new(probe);
    loop {
        let reply = match inquiry.question() {
            Question::AnyExists(paths) => Reply::Is(paths.iter().any(|p| files.contains(p))),
            Question::HasTool => Reply::Is(tool),
            Question::Run(args) => {
                let output = if args[0] == "-L" { listing } else { status };
                ran.push(args);
                Reply::Ran(exited(true, Some(0), output, ""))
            }
            Question::AnyFile(paths) => {
                Reply::Is(paths.iter().any(|p| files.contains(&p.as_str())))
            }
        };
        match inquiry.answer(reply) {
            Inquired::More(next) => inquiry = next,
            Inquired::Found(evidence) => return (evidence, ran),
        }
    }
}

#[test]
fn no_more_is_asked_than_is_needed() {
    let probe = PackageProbe::Airscan;
    let known = "/usr/lib64/sane/libsane-airscan.so.1";
    let elsewhere = "/opt/sane/libsane-airscan.so.1";
    for (files, tool, status, runs, expected) in [
        (&[known][..], true, "installed", 0, Presence::Present),
        (&[][..], false, "installed", 0, Presence::Absent),
        (&[][..], true, "not-installed", 1, Presence::Absent),
        (&[][..], true, "installed", 2, Presence::RegisteredButMissing),
        (&[elsewhere][..], true, "installed", 2, Presence::Present),
    ] {
        let (evidence, ran) = gather(probe, files, tool, status, elsewhere);
        assert_eq!(package_presence(probe, &evidence), Ok(expected), "{evidence:?}");
        assert_eq!(ran.len(), runs, "{ran:?}");
    }
}

#[test]
fn the_install_path_only_ever_runs_read_only_queries() {
    let (evidence, argv) = gather(PackageProbe::Airscan, &[], true, "installed\n", "");
    let (_, outcome) = ensure_installed(&brother_mfc(), &evidence);
    assert!(outcome.is_err());
    for argv in &argv {
        assert!(matches!(argv[0], "-W" | "-L"), "unexpected dpkg-query mode: {argv:?}");
        assert_eq!(argv.last(), Some(&"sane-airscan"));
    }
    assert!(!argv.is_empty(), "the probe never ran");
}

#[test]
fn of_sightings_as_good_the_first_is_taken() {
    let found = scanners(&[
        "device 'brother4:net1;dev0?serial=X1' is a Brother MFC-L2710DW",
        "device 'escl:http://10.0.0.5:80?serial=X1' is a Brother MFC-L2710DW platen scanner",
        "device 'escl:http://10.0.0.6:80?serial=X1' is a Brother MFC-L2710DW adf scanner",
    ]);
    assert_eq!(found.len(), 1);
    assert_eq!(found[0].address, "10.0.0.5:80");
    assert_eq!(
        escl_device(&found[0]).unwrap().device_uri,
        "escl:http://10.0.0.5:80?serial=X1"
    );
}
