use scanbus_backends::hplip::backend::ID;
use scanbus_backends::hplip::http::{
    complete_response, dechunk, framing, response_at_eof, serialise, take_chunk, Framing,
    MAX_RESPONSE,
};
use scanbus_backends::hplip::walkup::{
    capabilities_from_events, destination_document, destinations_from_events, panel_name, panel_name_from, parse_capabilities, parse_destinations,
    Device, Install, Limits, Method, Registration, Rejection, Request, Response, TransportError,
    Turn, Walkup, WalkupError, BAD_REQUEST, CAPS_PATH, CREATED, DESTINATIONS_PATH,
    FALLBACK_PANEL_NAME, NOT_FOUND, NO_CONTENT, OK, UNSUPPORTED_MEDIA_TYPE, XML_MEDIA_TYPE,
};
use scanbus_backends::hplip::xml::XmlEvent;
use scanbus_backends::model::{BackendError, ScannerId};
use scanbus_backends::time::Duration;

const RECORDED_DOCUMENT: &str = "<?xml version=\"1.0\" encoding=\"UTF-8\"?>\
<WalkupScanToComp \
xmlns=\"http://www.hp.com/schemas/imaging/con/ledm/walkupscan/2010/09/28\" \
xmlns:xsi=\"http://www.w3.org/2001/XMLSchema-instance\" \
xsi:schemaLocation=\
\"http://www.hp.com/schemas/imaging/con/ledm/walkupscan/2010/09/28 \
WalkupScan.xsd\">\
<Hostname xmlns=\"http://www.hp.com/schemas/imaging/con/dictionaries/2009/04/06\">\
spectre</Hostname>\
<Name xmlns=\"http://www.hp.com/schemas/imaging/con/dictionaries/1.0/\">\
spectre</Name>\
<LinkType>Network</LinkType>\
</WalkupScanToComp>";

const COLLECTION: &str = r#"<?xml version="1.0" encoding="UTF-8"?>
<WalkupScanToCompDestinations
    xmlns="http://www.hp.com/schemas/imaging/con/ledm/walkupscan/2010/09/28"
    xmlns:dd="http://www.hp.com/schemas/imaging/con/dictionaries/1.0/"
    xmlns:dd3="http://www.hp.com/schemas/imaging/con/dictionaries/2009/04/06">
  <WalkupScanToCompDestination>
    <dd:ResourceURI>/WalkupScanToComp/WalkupScanToCompDestinations/1c8d4e40-dabb-1f08-aa30-644ed7fe04c4</dd:ResourceURI>
    <dd:Name>spectre</dd:Name>
    <dd3:Hostname>spectre</dd3:Hostname>
    <LinkType>Network</LinkType>
  </WalkupScanToCompDestination>
  <WalkupScanToCompDestination>
    <dd:ResourceURI>/WalkupScanToComp/WalkupScanToCompDestinations/7a1f0b22-9c04-1f08-b117-0242ac120002</dd:ResourceURI>
    <dd:Name>laptop</dd:Name>
    <dd3:Hostname>laptop</dd3:Hostname>
    <LinkType>Network</LinkType>
  </WalkupScanToCompDestination>
</WalkupScanToCompDestinations>
"#;

const CAPS: &str = r#"<?xml version="1.0" encoding="UTF-8"?>
<WalkupScanToCompCaps
    xmlns="http://www.hp.com/schemas/imaging/con/ledm/walkupscan/2010/09/28"
    xmlns:dd="http://www.hp.com/schemas/imaging/con/dictionaries/1.0/">
  <MaxNetworkDestinations>15</MaxNetworkDestinations>
  <UserActionTimeout>60</UserActionTimeout>
</WalkupScanToCompCaps>
"#;

fn device() -> Device {
    Device::new("192.168.1.3".to_owned())
}

fn walkup() -> Walkup {
    Walkup::new(device())
}

fn get(path: &str) -> Request {
    Request::get(path.to_owned())
}

fn post(body: &str) -> Request {
    Request::post_xml(DESTINATIONS_PATH.to_owned(), body.as_bytes().to_vec())
}

fn scanner() -> ScannerId {
    ScannerId::from_backend(ID, "192.168.1.3").unwrap()
}

fn status(code: u16) -> Result<Response, TransportError> {
    Ok(Response::status_only(code))
}

fn created() -> Response {
    Response::new(
        CREATED,
        vec![
            ("Content-Length".into(), "0".into()),
            (
                "LOCATION".into(),
                "/WalkupScanToComp/WalkupScanToCompDestinations/\
                 1c8d4e40-dabb-1f08-aa30-644ed7fe04c4"
                    .into(),
            ),
        ],
        Vec::new(),
    )
}

fn collection(document: &str) -> Response {
    Response::new(
        OK,
        vec![("Content-Type".into(), "text/xml".into())],
        document.as_bytes().to_vec(),
    )
}

fn foreign_entries(count: usize) -> String {
    (0..count)
        .map(|index| {
            format!(
                "<WalkupScanToCompDestination>\
                 <dd:ResourceURI>{DESTINATIONS_PATH}/host-{index}</dd:ResourceURI>\
                 <dd3:Hostname>host-{index}</dd3:Hostname>\
                 </WalkupScanToCompDestination>"
            )
        })
        .collect()
}

fn foreign_collection(count: usize) -> Response {
    let entries = foreign_entries(count);
    collection(&format!("<WalkupScanToCompDestinations>{entries}</WalkupScanToCompDestinations>"))
}

/// Runs a registration against answers in order, of which the last repeats, and keeps what
/// was asked.
fn run(
    begun: (Install, Request),
    answers: Vec<Result<Response, TransportError>>,
) -> (Result<Option<Registration>, WalkupError>, Vec<Request>) {
    let mut answers = answers;
    let (mut install, mut request) = begun;
    let mut seen = Vec::new();
    loop {
        seen.push(request);
        let answer = if answers.len() > 1 { answers.remove(0) } else { answers[0].clone() };
        match install.answer(answer) {
            Turn::Ask(next, ask) => {
                install = next;
                request = ask;
            }
            Turn::Done(outcome) => return (outcome, seen),
        }
    }
}

fn register(
    name: &str,
    limits: &Limits,
    answers: Vec<Result<Response, TransportError>>,
) -> (Result<Option<Registration>, WalkupError>, Vec<Request>) {
    run(walkup().register(name, limits), answers)
}

fn methods(seen: &[Request]) -> Vec<Method> {
    seen.iter().map(|request| request.method()).collect()
}

#[test]
fn the_default_port_is_left_out_of_the_authority() {
    assert_eq!(device().authority(), "192.168.1.3");
    assert_eq!(
        Device::new("printer.local".to_owned()).with_port(8080).authority(),
        "printer.local:8080"
    );
}

#[test]
fn a_literal_ipv6_address_is_bracketed() {
    assert_eq!(Device::new("fe80::1".to_owned()).authority(), "[fe80::1]");
    assert_eq!(
        Device::new("fe80::1".to_owned()).with_port(8080).authority(),
        "[fe80::1]:8080"
    );
}

#[test]
fn a_request_reaches_the_transport_addressed_to_this_device() {
    let request = get(DESTINATIONS_PATH);
    let response = walkup().exchange(&request, status(OK)).expect("the device answered");
    assert_eq!(response.status(), OK);
    assert_eq!(walkup().device(), &device());
    assert_eq!(request.method(), Method::Get);
    assert_eq!(request.target(), DESTINATIONS_PATH);
    assert_eq!(request.content_type(), None);
    assert!(request.body().is_empty());
}

#[test]
fn a_registration_post_is_sent_as_text_xml() {
    let request = post("<WalkupScanToComp/>");
    let response =
        walkup().expect(&request, &[CREATED], Ok(created())).expect("201 is the expected status");
    assert_eq!(request.content_type(), Some(XML_MEDIA_TYPE));
    assert_eq!(request.body(), b"<WalkupScanToComp/>");
    assert_eq!(
        response.location(),
        Some(
            "/WalkupScanToComp/WalkupScanToCompDestinations/\
             1c8d4e40-dabb-1f08-aa30-644ed7fe04c4"
        ),
        "the header is spelled LOCATION here, and lookup is case-insensitive"
    );
}

#[test]
fn a_body_refusal_and_a_media_type_refusal_read_differently() {
    let error = walkup()
        .expect(&post("<WalkupScanToCompDestination/>"), &[CREATED], status(BAD_REQUEST))
        .expect_err("400 is not 201");
    assert!(error.is_refusal());
    assert!(error.to_text().contains("refused the document"), "{error:?}");

    let request = Request::post_as(
        DESTINATIONS_PATH.to_owned(),
        "application/xml",
        b"<WalkupScanToComp/>".to_vec(),
    );
    assert_eq!(request.content_type(), Some("application/xml"));
    let error = walkup()
        .expect(&request, &[CREATED], status(UNSUPPORTED_MEDIA_TYPE))
        .expect_err("415 is not 201");
    assert!(error.to_text().contains("refused the Content-Type"), "{error:?}");
}

#[test]
fn a_404_is_a_response_and_not_a_failure() {
    let response = walkup()
        .exchange(&get(CAPS_PATH), status(NOT_FOUND))
        .expect("the device answered, and 404 is an answer");
    assert_eq!(response.status(), NOT_FOUND);
    assert!(!response.is_success());
}

#[test]
fn both_delete_successes_are_accepted() {
    for code in [OK, NO_CONTENT] {
        let request = Request::delete(format!("{DESTINATIONS_PATH}/1c8d4e40"));
        walkup()
            .expect(&request, &[OK, NO_CONTENT], status(code))
            .unwrap_or_else(|error| panic!("{code} should be a deletion: {error:?}"));
        walkup().remove(&format!("{DESTINATIONS_PATH}/1c8d4e40"), status(code)).unwrap();
    }
}

#[test]
fn an_unexpected_success_is_still_a_refusal() {
    let error = walkup()
        .expect(&post("<WalkupScanToComp/>"), &[CREATED], status(202))
        .expect_err("202 is not 201");
    assert_eq!(
        error,
        WalkupError::Refused {
            device: device(),
            request: format!("POST {DESTINATIONS_PATH}"),
            rejection: Rejection::Status(202),
        }
    );
}

#[test]
fn silence_is_not_reachable_and_names_what_was_tried() {
    let error = walkup()
        .expect(
            &get(DESTINATIONS_PATH),
            &[OK],
            Err(TransportError::Io("connection refused".to_owned())),
        )
        .expect_err("nothing answered");

    assert!(!error.is_refusal());
    let message = error.to_text();
    assert!(message.contains("192.168.1.3"), "{message}");
    assert!(message.contains("GET /WalkupScanToComp"), "{message}");
    assert!(message.contains("connection refused"), "{message}");
    assert!(matches!(
        error.into_backend_error(&scanner()),
        BackendError::NotReachable { .. }
    ));

    let late = walkup()
        .exchange(&get(CAPS_PATH), Err(TransportError::Timeout(Duration::from_secs(10))))
        .unwrap_err();
    assert!(late.to_text().contains("10s"), "{late:?}");
}

#[test]
fn registering_deletes_this_hosts_stale_entries_before_adding_one() {
    let (outcome, seen) = register(
        "spectre",
        &Limits::holding(15),
        vec![Ok(collection(COLLECTION)), status(NO_CONTENT), Ok(created())],
    );
    let registration = outcome.expect("the device agreed").unwrap();

    let stale = parse_destinations(COLLECTION.as_bytes()).unwrap();
    assert_eq!(methods(&seen), [Method::Get, Method::Delete, Method::Post]);
    assert_eq!(seen[0].target(), DESTINATIONS_PATH);
    assert_eq!(seen[1].target(), stale[0].uri());
    assert_eq!(seen[2].target(), DESTINATIONS_PATH);
    assert_eq!(seen[2].body(), destination_document("spectre"));

    assert_eq!(registration.swept(), &stale[..1]);
    assert_eq!(registration.uri(), created().location().expect("the recorded 201 has one"));
}

#[test]
fn no_other_machines_entry_is_touched() {
    let (outcome, seen) = register(
        "desktop",
        &Limits::holding(15),
        vec![Ok(collection(COLLECTION)), Ok(created())],
    );
    let registration = outcome.expect("the device agreed").unwrap();
    assert!(!methods(&seen).contains(&Method::Delete), "{seen:?}");
    assert_eq!(seen.len(), 2, "{seen:?}");
    assert!(registration.swept().is_empty());
}

#[test]
fn a_stale_entry_that_had_already_gone_is_not_a_failure() {
    let (outcome, _) = register(
        "spectre",
        &Limits::holding(15),
        vec![Ok(collection(COLLECTION)), status(NOT_FOUND), Ok(created())],
    );
    let registration = outcome.expect("a destination that is already gone is gone").unwrap();
    assert_eq!(registration.swept().len(), 1);
}

#[test]
fn a_delete_the_device_refuses_stops_the_registration() {
    let (outcome, seen) = register(
        "spectre",
        &Limits::holding(15),
        vec![Ok(collection(COLLECTION)), status(500), Ok(created())],
    );
    let error = outcome.expect_err("the stale entry is still there");
    assert!(error.is_refusal(), "{error:?}");
    assert!(!methods(&seen).contains(&Method::Post), "{seen:?}");
}

#[test]
fn a_201_that_names_no_location_is_not_a_registration() {
    let (outcome, _) = register(
        "spectre",
        &Limits::holding(15),
        vec![Ok(collection("<WalkupScanToCompDestinations/>")), status(CREATED)],
    );
    let error = outcome.expect_err("there is no URI to delete it by");
    assert!(!error.is_refusal(), "{error:?}");
    let message = error.to_text();
    assert!(message.contains("Location"), "{message}");
}

#[test]
fn an_entry_is_this_hosts_by_hostname_whatever_its_case() {
    let destinations = parse_destinations(COLLECTION.as_bytes()).unwrap();
    assert!(destinations[0].registered_by("spectre"));
    assert!(destinations[0].registered_by("SPECTRE"));
    assert!(!destinations[0].registered_by("spectre.lan"));
    assert!(!destinations[0].registered_by("laptop"));
}

#[test]
fn an_entry_with_no_hostname_is_nobodys() {
    let anonymous = r#"<WalkupScanToCompDestinations>
  <WalkupScanToCompDestination>
    <dd:ResourceURI>/WalkupScanToComp/WalkupScanToCompDestinations/anonymous</dd:ResourceURI>
    <LinkType>Network</LinkType>
  </WalkupScanToCompDestination>
</WalkupScanToCompDestinations>"#;
    let destinations = parse_destinations(anonymous.as_bytes()).unwrap();
    assert_eq!(destinations.len(), 1, "{destinations:?}");
    assert!(!destinations[0].registered_by(""));
    assert!(!destinations[0].registered_by(FALLBACK_PANEL_NAME));
}

#[test]
fn the_limit_is_read_off_the_capability_document() {
    let limits = parse_capabilities(CAPS.as_bytes()).expect("the recorded document");
    assert_eq!(limits.max_network_destinations(), Some(15));
}

#[test]
fn a_capability_document_without_the_element_names_no_limit() {
    let limits = parse_capabilities(
        b"<WalkupScanToCompCaps><UserActionTimeout>60</UserActionTimeout>\
          </WalkupScanToCompCaps>",
    )
    .expect("a document, just not one with a limit in it");
    assert_eq!(limits.max_network_destinations(), None);
}

#[test]
fn a_limit_that_is_not_a_number_is_a_malformed_document() {
    let error = parse_capabilities(
        b"<WalkupScanToCompCaps><MaxNetworkDestinations>many\
          </MaxNetworkDestinations></WalkupScanToCompCaps>",
    )
    .expect_err("\"many\" is not a count of destinations");
    assert!(error.reason().contains("MaxNetworkDestinations"), "{error:?}");
}

#[test]
fn a_device_that_serves_no_capabilities_registers_nothing() {
    assert_eq!(walkup().limits(status(NOT_FOUND)).expect("404 is an answer"), None);
    let (outcome, seen) = run(walkup().install("spectre"), vec![status(NOT_FOUND)]);
    assert_eq!(outcome.expect("nothing to do"), None);
    assert!(
        seen.iter().all(|r| r.method() == Method::Get && r.target() == CAPS_PATH),
        "nothing may be written to a device that has no collection: {seen:?}",
    );
}

#[test]
fn a_capability_document_the_device_refuses_is_not_the_usb_case() {
    let (outcome, _) = run(walkup().install("spectre"), vec![status(500)]);
    let error = outcome.expect_err("500 is not 404");
    assert!(error.is_refusal(), "{error:?}");
}

#[test]
fn installing_reads_the_capabilities_before_registering() {
    let (outcome, seen) = run(
        walkup().install("spectre"),
        vec![
            Ok(collection(CAPS)),
            Ok(collection(COLLECTION)),
            status(NO_CONTENT),
            Ok(created()),
        ],
    );
    let registration = outcome.expect("the device agreed").expect("this one has a collection");
    assert_eq!(seen.len(), 4, "{seen:?}");
    assert_eq!(seen[0].target(), CAPS_PATH);
    assert_eq!(seen[3].method(), Method::Post);
    assert_eq!(registration.uri(), created().location().expect("the recorded 201 has one"));
}

#[test]
fn a_full_collection_names_the_limit_and_what_to_do_about_it() {
    let (outcome, seen) = run(
        walkup().install("spectre"),
        vec![Ok(collection(CAPS)), Ok(foreign_collection(15))],
    );
    let error = outcome.expect_err("there is no room for this host");
    let message = error.to_text();
    assert!(message.contains("15"), "{message}");
    assert!(message.contains("Scan to Computer"), "{message}");
    assert!(!error.is_refusal(), "the device was never asked: {error:?}");
    assert!(!methods(&seen).contains(&Method::Post), "{seen:?}");
    assert!(matches!(error.into_backend_error(&scanner()), BackendError::Other(_)));
}

#[test]
fn this_hosts_own_entries_are_swept_before_the_collection_is_counted() {
    let mut full = foreign_entries(14);
    full.push_str(&format!(
        "<WalkupScanToCompDestination>\
         <dd:ResourceURI>{DESTINATIONS_PATH}/stale</dd:ResourceURI>\
         <dd3:Hostname>spectre</dd3:Hostname>\
         </WalkupScanToCompDestination>"
    ));
    let (outcome, seen) = run(
        walkup().install("spectre"),
        vec![
            Ok(collection(CAPS)),
            Ok(collection(&format!(
                "<WalkupScanToCompDestinations>{full}</WalkupScanToCompDestinations>"
            ))),
            status(NO_CONTENT),
            Ok(created()),
        ],
    );
    let registration =
        outcome.expect("the stale entry made the room").expect("this one has a collection");
    assert_eq!(registration.swept().len(), 1);
    assert_eq!(seen[2].method(), Method::Delete);
    assert_eq!(seen[2].target(), format!("{DESTINATIONS_PATH}/stale"));
    assert_eq!(seen[3].method(), Method::Post);
}

#[test]
fn a_device_that_published_no_limit_is_never_full() {
    let (outcome, _) = register(
        "spectre",
        &Limits::default(),
        vec![Ok(collection("<WalkupScanToCompDestinations/>")), Ok(created())],
    );
    outcome.expect("nothing here says there is no room");
}

#[test]
fn a_network_uri_gives_the_host_to_dial() {
    for (uri, expected) in [
        ("hp:/net/Officejet_250?ip=192.168.1.3&queue=false", "192.168.1.3"),
        ("hp:/net/Officejet_250?zc=HPF430B9BF1CAD.local.", "HPF430B9BF1CAD.local"),
        ("hp:/net/Officejet_250?hostname=printer.lan", "printer.lan"),
        ("hp:/net/X?zc=HP.local.&hostname=printer.lan&ip=192.168.1.3", "192.168.1.3"),
    ] {
        assert_eq!(
            Device::from_device_uri(uri),
            Some(Device::new(expected.to_owned())),
            "device_uri {uri:?}",
        );
    }
}

#[test]
fn a_usb_uri_names_no_device_to_register_with() {
    for uri in [
        "hp:/usb/Officejet_250?serial=CN12345678",
        "hp:/usb/Officejet_250?devnum=1",
        "hp:/net/Officejet_250",
    ] {
        assert_eq!(Device::from_device_uri(uri), None, "device_uri {uri:?}");
    }
}

#[test]
fn the_registration_document_is_the_one_the_device_accepted() {
    assert_eq!(String::from_utf8(destination_document("spectre")).unwrap(), RECORDED_DOCUMENT);
}

#[test]
fn a_name_with_markup_in_it_cannot_end_an_element_early() {
    let document = String::from_utf8(destination_document("a<b&c")).unwrap();
    assert!(document.contains(">a&lt;b&amp;c</Hostname>"), "{document}");
    assert!(document.ends_with("</WalkupScanToComp>"), "{document}");
}

#[test]
fn the_panel_name_is_the_machine_name_without_its_domain() {
    for (hostname, expected) in [
        ("spectre", "spectre"),
        ("desktop.office.example.com", "desktop"),
        ("workstation-04.lan", "workstation-04"),
        ("a-very-long-hostname-indeed", "a-very-long-hostname-indeed"),
        ("", FALLBACK_PANEL_NAME),
        ("   ", FALLBACK_PANEL_NAME),
        (".lan", FALLBACK_PANEL_NAME),
    ] {
        assert_eq!(panel_name_from(hostname), expected, "hostname {hostname:?}");
    }
    assert_eq!(panel_name(&[None, Some("spectre.lan\n".to_owned())]), "spectre");
}

#[test]
fn the_collection_pairs_each_uri_with_the_host_that_registered_it() {
    let destinations = parse_destinations(COLLECTION.as_bytes()).unwrap();
    assert_eq!(destinations.len(), 2, "{destinations:?}");
    assert_eq!(destinations[0].hostname(), "spectre");
    assert_eq!(
        destinations[0].uri(),
        "/WalkupScanToComp/WalkupScanToCompDestinations/1c8d4e40-dabb-1f08-aa30-644ed7fe04c4",
    );
    assert_eq!(destinations[1].hostname(), "laptop");
    assert!(destinations[1].uri().ends_with("0242ac120002"), "{destinations:?}");
}

#[test]
fn the_same_collection_under_different_prefixes_reads_the_same() {
    let renamed = COLLECTION
        .replace("xmlns:dd3=", "xmlns:x=")
        .replace("dd3:", "x:")
        .replace("xmlns:dd=", "xmlns:y=")
        .replace("dd:", "y:");
    assert_eq!(
        parse_destinations(renamed.as_bytes()).unwrap(),
        parse_destinations(COLLECTION.as_bytes()).unwrap(),
    );
}

#[test]
fn an_empty_collection_is_empty_and_not_an_error() {
    let empty = r#"<?xml version="1.0" encoding="UTF-8"?>
<WalkupScanToCompDestinations
    xmlns="http://www.hp.com/schemas/imaging/con/ledm/walkupscan/2010/09/28"/>
"#;
    assert_eq!(parse_destinations(empty.as_bytes()).unwrap(), Vec::new());
}

#[test]
fn an_entry_without_a_resource_uri_is_not_returned() {
    let collection = r#"<WalkupScanToCompDestinations>
  <WalkupScanToCompDestination>
    <dd3:Hostname>spectre</dd3:Hostname>
  </WalkupScanToCompDestination>
  <WalkupScanToCompDestination>
    <dd:ResourceURI>/WalkupScanToComp/WalkupScanToCompDestinations/one</dd:ResourceURI>
    <dd3:Hostname>laptop</dd3:Hostname>
  </WalkupScanToCompDestination>
</WalkupScanToCompDestinations>"#;
    let destinations = parse_destinations(collection.as_bytes()).unwrap();
    assert_eq!(destinations.len(), 1, "{destinations:?}");
    assert_eq!(destinations[0].hostname(), "laptop");
}

#[test]
fn a_hostname_that_had_to_be_escaped_comes_back_whole() {
    let collection = r#"<WalkupScanToCompDestinations>
  <WalkupScanToCompDestination>
    <dd:ResourceURI>/WalkupScanToComp/WalkupScanToCompDestinations/one</dd:ResourceURI>
    <dd3:Hostname>black &amp; white &#40;spare&#41;</dd3:Hostname>
  </WalkupScanToCompDestination>
</WalkupScanToCompDestinations>"#;
    let destinations = parse_destinations(collection.as_bytes()).unwrap();
    assert_eq!(destinations[0].hostname(), "black & white (spare)");
}

#[test]
fn every_predefined_entity_is_read_and_no_other() {
    let named = |entity: &str| {
        parse_destinations(
            format!(
                "<c><WalkupScanToCompDestination><ResourceURI>/x</ResourceURI>\
                 <Hostname>a{entity}b</Hostname></WalkupScanToCompDestination></c>"
            )
            .as_bytes(),
        )
    };
    for (entity, text) in
        [("&lt;", "<"), ("&gt;", ">"), ("&amp;", "&"), ("&apos;", "'"), ("&quot;", "\"")]
    {
        assert_eq!(named(entity).unwrap()[0].hostname(), format!("a{text}b"), "{entity}");
    }
    assert!(named("&nbsp;").is_err());
}

#[test]
fn a_value_on_its_own_line_is_the_value_without_the_layout() {
    let collection = r#"<WalkupScanToCompDestinations>
  <WalkupScanToCompDestination>
    <dd:ResourceURI>
      /WalkupScanToComp/WalkupScanToCompDestinations/one
    </dd:ResourceURI>
    <dd3:Hostname>
      spectre
    </dd3:Hostname>
  </WalkupScanToCompDestination>
</WalkupScanToCompDestinations>"#;
    let destinations = parse_destinations(collection.as_bytes()).unwrap();
    assert_eq!(destinations[0].uri(), "/WalkupScanToComp/WalkupScanToCompDestinations/one");
    assert_eq!(destinations[0].hostname(), "spectre");
}

#[test]
fn a_document_that_is_not_the_collection_is_malformed() {
    let broken = "<WalkupScanToCompDestination><dd:ResourceURI>/one</dd3:Hostname>";
    assert!(parse_destinations(broken.as_bytes()).is_err());
}

#[test]
fn a_get_carries_no_entity_headers() {
    let wire = String::from_utf8(serialise(&device(), &get(DESTINATIONS_PATH))).unwrap();
    let start = "GET /WalkupScanToComp/WalkupScanToCompDestinations HTTP/1.1\r\n";
    assert!(wire.starts_with(start), "{wire}");
    assert!(wire.contains("\r\nHost: 192.168.1.3\r\n"), "{wire}");
    assert!(wire.contains("\r\nConnection: close\r\n"), "{wire}");
    assert!(!wire.contains("Content-Type"), "{wire}");
    assert!(!wire.contains("Content-Length"), "{wire}");
    assert!(wire.ends_with("\r\n\r\n"), "{wire}");
}

#[test]
fn a_post_carries_the_media_type_the_device_insists_on_and_a_length() {
    let body = destination_document("spectre");
    let wire = serialise(
        &device().with_port(8080),
        &Request::post_xml(DESTINATIONS_PATH.to_owned(), body.clone()),
    );
    let wire = String::from_utf8(wire).unwrap();
    assert!(wire.contains("\r\nHost: 192.168.1.3:8080\r\n"), "{wire}");
    assert!(wire.contains("\r\nContent-Type: text/xml\r\n"), "{wire}");
    assert!(wire.contains(&format!("\r\nContent-Length: {}\r\n", body.len())), "{wire}");
    assert!(wire.ends_with(&String::from_utf8(body).unwrap()), "{wire}");
}

#[test]
fn a_registration_goes_out_and_its_201_comes_back() {
    let location = "/WalkupScanToComp/WalkupScanToCompDestinations/\
                    1c8d4e40-dabb-1f08-aa30-644ed7fe04c4";
    let answer =
        format!("HTTP/1.1 201 Created\r\nContent-Length: 0\r\nLocation: {location}\r\n\r\n");
    let body = destination_document("spectre");
    let request = Request::post_xml(DESTINATIONS_PATH.to_owned(), body.clone());
    assert!(serialise(&device(), &request).ends_with(&body));

    let response = complete_response(answer.as_bytes()).unwrap().unwrap();
    assert_eq!(response.status(), CREATED);
    assert_eq!(response.location(), Some(location));
    assert!(response.body().is_empty());
    for len in 0..answer.len() {
        assert_eq!(complete_response(&answer.as_bytes()[..len]), Ok(None), "{len}");
    }
}

#[test]
fn a_chunked_collection_is_reassembled() {
    let (first, second) = COLLECTION.split_at(COLLECTION.len() / 2);
    let answer = format!(
        "HTTP/1.1 200 OK\r\n\
         Content-Type: text/xml\r\n\
         Transfer-Encoding: chunked\r\n\
         \r\n\
         {:x}\r\n{first}\r\n{:x}\r\n{second}\r\n0\r\n\r\n",
        first.len(),
        second.len(),
    );
    let response = complete_response(answer.as_bytes()).unwrap().unwrap();
    assert_eq!(response.status(), OK);
    assert_eq!(response.body(), COLLECTION.as_bytes());
    assert_eq!(parse_destinations(response.body()).unwrap().len(), 2);
    assert_eq!(complete_response(&answer.as_bytes()[..answer.len() / 2]), Ok(None));
    assert!(response_at_eof(&answer.as_bytes()[..answer.len() / 2]).is_err());
}

#[test]
fn chunk_sizes_are_hexadecimal() {
    assert_eq!(dechunk(b"A\r\n0123456789\r\n0\r\n\r\n"), Ok(Some(b"0123456789".to_vec())));
    assert_eq!(dechunk(b"3;ext=1\r\nabc\r\n0\r\n"), Ok(Some(b"abc".to_vec())));
    assert_eq!(dechunk(b"3\r\nabc"), Ok(None));
    assert_eq!(dechunk(b"3"), Ok(None));
    assert!(matches!(dechunk(b"x\r\n"), Err(TransportError::Malformed(_))));
    assert_eq!(dechunk(b"ffffffffffffffff\r\nabc"), Ok(None));
}

#[test]
fn a_204_is_not_waited_out() {
    let answer = "HTTP/1.1 204 No Content\r\nConnection: keep-alive\r\n\r\n";
    let response = complete_response(answer.as_bytes()).unwrap().unwrap();
    assert_eq!(response.status(), NO_CONTENT);
}

#[test]
fn a_body_that_only_the_close_delimits_is_still_read() {
    let answer = format!("HTTP/1.1 200 OK\r\nContent-Type: text/xml\r\n\r\n{COLLECTION}");
    assert_eq!(complete_response(answer.as_bytes()), Ok(None));
    let response = response_at_eof(answer.as_bytes()).unwrap();
    assert_eq!(response.body(), COLLECTION.as_bytes());
}

#[test]
fn closing_changes_no_response_that_was_complete() {
    let answer = b"HTTP/1.1 200 OK\r\nContent-Length: 3\r\n\r\nabc";
    assert_eq!(complete_response(answer).unwrap().unwrap(), response_at_eof(answer).unwrap());
    assert!(response_at_eof(b"HTTP/1.1 200 OK\r\nContent-Length: 4\r\n\r\nabc").is_err());
    assert!(response_at_eof(b"HTTP/1.1 2").is_err());
    assert!(complete_response(b"SSH-2.0 nonsense\r\n\r\n").is_err());
}

#[test]
fn a_response_says_how_it_is_framed() {
    let headers = |pairs: &[(&str, &str)]| -> Vec<(String, String)> {
        pairs.iter().map(|(k, v)| ((*k).to_owned(), (*v).to_owned())).collect()
    };
    assert_eq!(framing(304, &headers(&[("Content-Length", "9")])), Ok(Framing::Length(0)));
    assert_eq!(framing(OK, &headers(&[("content-length", " 9 ")])), Ok(Framing::Length(9)));
    assert_eq!(
        framing(OK, &headers(&[("Transfer-Encoding", "Chunked")])),
        Ok(Framing::Chunked)
    );
    assert_eq!(framing(OK, &headers(&[])), Ok(Framing::UntilClose));
    assert!(framing(OK, &headers(&[("Content-Length", "many")])).is_err());
}

#[test]
fn a_response_is_only_taken_up_to_its_limit() {
    let mut buffer = vec![0; MAX_RESPONSE - 1];
    take_chunk(&mut buffer, &[1]).unwrap();
    assert!(matches!(take_chunk(&mut buffer, &[2]), Err(TransportError::Malformed(_))));
    assert_eq!(buffer.len(), MAX_RESPONSE);
}

#[test]
fn destinations_come_back_parsed() {
    let answer = format!(
        "HTTP/1.1 200 OK\r\nContent-Type: text/xml\r\nContent-Length: {}\r\n\r\n{COLLECTION}",
        COLLECTION.len(),
    );
    let response = complete_response(answer.as_bytes()).unwrap().unwrap();
    let destinations = walkup().destinations(Ok(response)).unwrap();
    assert_eq!(destinations.len(), 2, "{destinations:?}");
    assert_eq!(destinations[0].hostname(), "spectre");
}

#[test]
fn an_unreadable_collection_says_so() {
    let error = walkup()
        .destinations(Ok(collection("<WalkupScanToCompDestination></nonsense>")))
        .expect_err("that is not a collection");
    assert!(matches!(error, WalkupError::Malformed { .. }), "{error:?}");
    assert!(!error.is_refusal());
    assert!(matches!(error.into_backend_error(&scanner()), BackendError::Other(_)));
}

#[test]
fn a_device_that_is_not_there_is_an_io_failure_and_not_a_refusal() {
    let error = walkup()
        .exchange(&get(CAPS_PATH), Err(TransportError::Io("connection refused".to_owned())))
        .expect_err("nothing is listening");
    assert!(
        matches!(error, WalkupError::Unreachable { source: TransportError::Io(_), .. }),
        "{error:?}"
    );
    assert!(!error.is_refusal());
}

fn start(name: &str) -> XmlEvent {
    XmlEvent::Start(name.as_bytes().to_vec())
}

fn end(name: &str) -> XmlEvent {
    XmlEvent::End(name.as_bytes().to_vec())
}

fn run_of(content: &str) -> XmlEvent {
    XmlEvent::Text(Ok(content.to_owned()))
}

#[test]
fn a_limit_is_read_off_its_events() {
    let limit = |content: &str| {
        capabilities_from_events(&[
            start("MaxNetworkDestinations"),
            run_of(content),
            end("MaxNetworkDestinations"),
        ])
    };
    assert_eq!(limit(" 15\n").unwrap().max_network_destinations(), Some(15));
    assert_eq!(
        limit("4294967296").unwrap_err().reason(),
        "MaxNetworkDestinations is \"4294967296\", which is not a count of destinations"
    );
    assert_eq!(
        capabilities_from_events(&[XmlEvent::Malformed("cut off".to_owned())])
            .unwrap_err()
            .reason(),
        "cut off"
    );
    assert_eq!(capabilities_from_events(&[]).unwrap().max_network_destinations(), None);
}

#[test]
fn entries_are_read_off_their_events() {
    let entry = destinations_from_events(&[
        start("WalkupScanToCompDestination"),
        start("ResourceURI"),
        run_of(" /one "),
        end("ResourceURI"),
        start("Hostname"),
        run_of("a"),
        XmlEvent::Reference { character: Ok(None), name: Ok("amp".to_owned()) },
        XmlEvent::Reference { character: Ok(Some('b')), name: Ok(String::new()) },
        end("Hostname"),
        end("WalkupScanToCompDestination"),
    ])
    .unwrap();
    assert_eq!(entry.len(), 1);
    assert_eq!((entry[0].uri(), entry[0].hostname()), ("/one", "a&b"));

    let unknown = destinations_from_events(&[
        start("WalkupScanToCompDestination"),
        start("Hostname"),
        XmlEvent::Reference { character: Ok(None), name: Ok("nbsp".to_owned()) },
    ]);
    assert_eq!(unknown.unwrap_err().reason(), "unknown entity &nbsp;");
}

#[test]
fn how_the_bytes_arrive_does_not_matter() {
    for answer in [
        "HTTP/1.1 200 OK\r\nContent-Length: 3\r\n\r\nabc",
        "HTTP/1.1 200 OK\r\nTransfer-Encoding: chunked\r\n\r\n3\r\nabc\r\n0\r\n",
    ] {
        let bytes = answer.as_bytes();
        for len in 0..bytes.len() {
            assert_eq!(complete_response(&bytes[..len]), Ok(None), "{len} of {answer:?}");
        }
        let whole = complete_response(bytes).unwrap().unwrap();
        assert_eq!(whole.body(), b"abc");
        let mut more = bytes.to_vec();
        more.extend_from_slice(b"\r\nHTTP/1.1 404 Not Found\r\n\r\n");
        assert_eq!(complete_response(&more).unwrap(), Some(whole));
    }
}

#[test]
fn a_uri_is_never_paired_with_the_host_of_another_entry() {
    let entries = destinations_from_events(&[
        start("WalkupScanToCompDestination"),
        start("Hostname"),
        run_of("spectre"),
        end("Hostname"),
        end("WalkupScanToCompDestination"),
        start("WalkupScanToCompDestination"),
        start("ResourceURI"),
        run_of("/two"),
        end("ResourceURI"),
        end("WalkupScanToCompDestination"),
        start("Hostname"),
        run_of("laptop"),
        end("Hostname"),
    ])
    .unwrap();
    assert_eq!(entries.len(), 1);
    assert_eq!((entries[0].uri(), entries[0].hostname()), ("/two", ""));
}
