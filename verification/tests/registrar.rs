use scanbus_backends::brother::registrar::{
    accepted, answer_to, panel_name, panel_name_from, probe_message, probe_scan_to_pc,
    refresh_delay, request_bytes, retry_delay, routed_host, Action, LocalAddress, Registrar,
    RegistrarError, TransportError, FALLBACK_PANEL_NAME, RESPONSE_TIMEOUT_SECS,
};
use scanbus_backends::model::{BackendError, ScannerId};
use scanbus_backends::net::Ipv4Addr;
use scanbus_backends::skey::function::Function;
use scanbus_backends::skey::register::{
    RegisterError, Registration, UserName, DEFAULT_DURATION_SECS, REGISTRATION_OID,
};
use scanbus_backends::skey::snmp::{
    self, ErrorStatus, Message, Pdu, PduKind, SnmpError, Value, VarBind, Version,
};
use scanbus_backends::time::Duration;

#[derive(Clone, Copy, PartialEq, Eq)]
enum Answer {
    Yes,
    Refuse(ErrorStatus),
    Silence,
    WrongRequestId,
}

const LEASE: u64 = 360;

fn device() -> Ipv4Addr {
    Ipv4Addr::new(192, 168, 1, 3)
}

fn host() -> Ipv4Addr {
    Ipv4Addr::new(192, 168, 1, 20)
}

fn other_host() -> Ipv4Addr {
    Ipv4Addr::new(10, 8, 0, 2)
}

fn response_timeout() -> Duration {
    Duration::from_secs(RESPONSE_TIMEOUT_SECS)
}

fn respond(request: &Message, answer: Answer) -> Result<Message, TransportError> {
    let (status, request_id) = match answer {
        Answer::Yes => (ErrorStatus::NoError, request.pdu.request_id),
        Answer::Refuse(status) => (status, request.pdu.request_id),
        Answer::WrongRequestId => (ErrorStatus::NoError, request.pdu.request_id + 1000),
        Answer::Silence => return Err(TransportError::Timeout(response_timeout())),
    };
    Ok(Message {
        version: Version::V1,
        community: request.community.clone(),
        pdu: Pdu {
            kind: PduKind::Response,
            request_id,
            error_status: status,
            error_index: 0,
            varbinds: vec![VarBind::new(
                request.pdu.varbinds[0].oid.clone(),
                Value::OctetString(b"TRUE".to_vec()),
            )],
        },
    })
}

/// A device, a routing table and a clock for a registrar to run against.
struct World {
    registrar: Registrar,
    answers: Vec<Answer>,
    routes: Vec<Result<Ipv4Addr, String>>,
    asked: usize,
    now: u64,
    sent: Vec<(u64, Message)>,
}

fn next<T: Clone>(script: &mut Vec<T>) -> T {
    if script.len() > 1 {
        script.remove(0)
    } else {
        script[0].clone()
    }
}

impl World {
    fn new(answers: &[Answer]) -> Self {
        World::routed(answers, vec![Ok(host())])
    }

    fn routed(answers: &[Answer], routes: Vec<Result<Ipv4Addr, String>>) -> Self {
        let user = UserName::new("desktop".to_owned()).unwrap();
        World {
            registrar: Registrar::new(device(), user).with_duration(Duration::from_secs(LEASE)),
            answers: answers.to_vec(),
            routes,
            asked: 0,
            now: 0,
            sent: Vec::new(),
        }
    }

    /// Does what the registrar says until it wants to sleep or is done.
    fn run(&mut self, mut action: Action) -> Action {
        loop {
            action = match action {
                Action::AskHost => {
                    self.asked += 1;
                    let route = next(&mut self.routes).map_err(TransportError::Io);
                    self.registrar.on_host(route)
                }
                Action::Exchange(request) => {
                    let answer = next(&mut self.answers);
                    let came = respond(&request, answer);
                    self.sent.push((self.now, request));
                    if answer == Answer::Silence {
                        self.now += RESPONSE_TIMEOUT_SECS;
                    }
                    self.registrar.on_answer(came)
                }
                done => return done,
            };
        }
    }

    fn start(&mut self, functions: &[Function]) -> Action {
        let action = self.registrar.start(functions);
        self.run(action)
    }

    fn sleep(&mut self, action: Action, until: u64) -> Action {
        let mut action = action;
        loop {
            let delay = match &action {
                Action::Started(d) | Action::Sleep(d) => d.as_secs(),
                _ => return action,
            };
            if self.now + delay > until {
                return action;
            }
            self.now += delay;
            let woken = self.registrar.on_wake();
            action = self.run(woken);
        }
    }

    fn registrations(&self) -> Vec<Registration> {
        self.sent
            .iter()
            .map(|(_, request)| {
                Registration::parse(request.pdu.varbinds[0].value.as_str().unwrap()).unwrap()
            })
            .collect()
    }
}

#[test]
fn starting_sends_one_set_per_requested_function() {
    let mut world = World::new(&[Answer::Yes]);
    let started = world.start(&[Function::Image, Function::File]);
    assert!(matches!(started, Action::Started(delay) if delay == Duration::from_secs(180)));
    assert_eq!(world.sent.len(), 2, "one SetRequest per function, no more");

    let functions: Vec<&str> =
        world.registrations().iter().map(|r| r.function.as_str()).collect();
    assert_eq!(functions, ["FILE", "IMAGE"]);

    for (_, request) in &world.sent {
        assert_eq!(request.pdu.kind, PduKind::SetRequest);
        assert_eq!(request.community, b"internal");
        assert_eq!(request.pdu.varbinds[0].oid.to_text(), REGISTRATION_OID);
    }
    for registration in world.registrations() {
        assert_eq!(registration.host, host());
        assert_eq!(registration.port, 54925);
        assert_eq!(registration.duration, Duration::from_secs(LEASE));
        assert_eq!(registration.user.as_str(), "desktop");
    }
    assert_eq!(world.sent[0].1.pdu.request_id, snmp::FIRST_REQUEST_ID);
    assert_eq!(world.sent[1].1.pdu.request_id, snmp::FIRST_REQUEST_ID + 1);
    assert!(world.registrar.is_running());
    assert_eq!(world.registrar.functions(), &[Function::File, Function::Image][..]);
    assert_eq!(world.registrar.device(), device());
}

#[test]
fn the_lease_is_renewed_at_half_its_duration() {
    let mut world = World::new(&[Answer::Yes]);
    let started = world.start(&[Function::Image]);
    world.sleep(started, LEASE * 3 + 1);

    let at: Vec<u64> = world.sent.iter().map(|(at, _)| *at).collect();
    assert_eq!(at, [0, 180, 360, 540, 720, 900, 1080]);
    for registration in world.registrations() {
        assert_eq!(registration.function.as_str(), "IMAGE");
        assert_eq!(registration.duration, Duration::from_secs(LEASE));
    }
}

#[test]
fn stopping_stops_refreshing_and_sends_no_teardown() {
    let mut world = World::new(&[Answer::Yes]);
    let started = world.start(&Function::ALL);
    let sleeping = world.sleep(started, LEASE);
    let before = world.sent.len();
    assert!(before > 4, "it was refreshing before it was stopped");

    world.registrar.stop();
    world.sleep(sleeping, LEASE * 4);
    assert_eq!(world.sent.len(), before, "stop must send nothing and renew nothing");
    assert!(!world.registrar.is_running());
    assert!(world.registrar.functions().is_empty());
    assert!(matches!(world.registrar.on_host(Ok(host())), Action::Nothing));
    assert!(world.sent.iter().all(|(_, r)| r.pdu.kind == PduKind::SetRequest));
}

#[test]
fn starting_again_replaces_the_registered_functions() {
    let mut world = World::new(&[Answer::Yes]);
    world.start(&[Function::Image, Function::Email]);
    let started = world.start(&[Function::Ocr]);
    let before = world.sent.len();
    world.sleep(started, LEASE + 1);
    let renewed: Vec<String> = world.registrations()[before..]
        .iter()
        .map(|r| r.function.as_str().to_owned())
        .collect();
    assert_eq!(renewed, ["OCR", "OCR"]);
}

#[test]
fn a_refusal_is_reported_as_a_refusal_and_leaves_nothing_running() {
    let mut world = World::new(&[Answer::Refuse(ErrorStatus::NoSuchName)]);
    let Action::Failed(error) = world.start(&[Function::Image]) else {
        panic!("the device refused");
    };
    assert_eq!(
        error,
        RegistrarError::Refused {
            device: device(),
            function: Some(Function::Image),
            status: ErrorStatus::NoSuchName,
        }
    );
    assert_eq!(
        error.to_text(),
        "192.168.1.3 refused to register IMAGE with noSuchName: this model does not appear to \
         support scan-to-PC over SNMP"
    );
    assert!(!world.registrar.is_running(), "nothing to renew, so nothing runs");
    assert!(matches!(world.registrar.on_wake(), Action::Nothing));
    assert_eq!(world.sent.len(), 1);
}

#[test]
fn a_silent_device_is_unreachable_rather_than_refusing() {
    let mut world = World::new(&[Answer::Silence]);
    let Action::Failed(error) = world.start(&[Function::Image]) else {
        panic!("the device is silent");
    };
    assert_eq!(
        error,
        RegistrarError::Unreachable {
            device: device(),
            source: TransportError::Timeout(response_timeout()),
        }
    );
    assert_eq!(
        error.to_text(),
        "192.168.1.3 did not answer the registration: no answer within 2s"
    );
    assert!(!world.registrar.is_running());
}

#[test]
fn an_answer_to_another_request_is_not_taken_as_success() {
    let mut world = World::new(&[Answer::WrongRequestId]);
    let Action::Failed(error) = world.start(&[Function::Image]) else {
        panic!("that was no answer");
    };
    assert!(matches!(error, RegistrarError::Unexpected { .. }));
    assert_eq!(
        error.to_text(),
        "192.168.1.3 answered the registration with request-id 1200 while 200 was outstanding"
    );
}

#[test]
fn a_failed_renewal_retries_without_spinning_and_recovers() {
    let mut answers = vec![Answer::Yes];
    answers.extend([Answer::Silence; 8]);
    answers.push(Answer::Yes);
    let mut world = World::new(&answers);
    let started = world.start(&[Function::Image]);
    world.sleep(started, LEASE * 2);

    let attempts = world.sent.len();
    assert!((2..=24).contains(&attempts), "a dead printer was asked {attempts} times");
    let recovered_at = world.sent[attempts - 1].0;
    let last_failure_at = world.sent[attempts - 2].0;
    assert!(recovered_at - last_failure_at <= LEASE);
}

#[test]
fn a_refresh_goes_on_past_a_function_that_failed() {
    let mut world = World::new(&[
        Answer::Yes,
        Answer::Yes,
        Answer::Refuse(ErrorStatus::GenErr),
        Answer::Yes,
    ]);
    let started = world.start(&[Function::File, Function::Ocr]);
    let slept = world.sleep(started, 180);
    assert_eq!(world.sent.len(), 4);
    assert!(matches!(slept, Action::Sleep(delay) if delay == Duration::from_secs(30)));
    assert!(world.registrar.is_running());
}

#[test]
fn a_lease_is_refreshed_at_half_and_retried_between_five_and_sixty_seconds() {
    let default_duration = Duration::from_secs(DEFAULT_DURATION_SECS);
    assert_eq!(refresh_delay(default_duration), Duration::from_secs(180));
    assert_eq!(retry_delay(default_duration), Duration::from_secs(30));
    assert_eq!(retry_delay(Duration::from_secs(12)), Duration::from_secs(5));
    assert_eq!(retry_delay(Duration::from_secs(24 * 3600)), Duration::from_secs(60));
}

#[test]
fn an_impossible_lease_fails_before_the_socket() {
    let mut world = World::new(&[Answer::Yes]);
    let user = UserName::new("desktop".to_owned()).unwrap();
    world.registrar = Registrar::new(device(), user).with_duration(Duration::from_secs(0));
    let Action::Failed(error) = world.start(&[Function::Image]) else {
        panic!("no lease lasts nothing");
    };
    assert!(matches!(error, RegistrarError::Registration(RegisterError::Duration(0))));
    assert_eq!(world.sent.len(), 0, "nothing was sent");
}

#[test]
fn registering_nothing_starts_no_task_and_sends_nothing() {
    let mut world = World::new(&[Answer::Yes]);
    assert!(matches!(world.start(&[]), Action::Nothing));
    assert_eq!(world.sent.len(), 0);
    assert!(!world.registrar.is_running());
}

#[test]
fn the_source_address_is_re_derived_before_every_refresh() {
    let mut world = World::routed(
        &[Answer::Yes],
        vec![Ok(host()), Err("network is unreachable".to_owned()), Ok(other_host())],
    );
    let started = world.start(&[Function::Image]);
    assert_eq!(world.registrations()[0].host, host());
    world.sleep(started, LEASE + 1);

    let hosts: Vec<Ipv4Addr> = world.registrations().iter().map(|r| r.host).collect();
    assert_eq!(hosts, [host(), other_host()]);
    assert!(world.asked > world.sent.len());
    assert!(world.sent[1].0 <= LEASE);
}

#[test]
fn a_device_with_no_route_is_unreachable_and_nothing_is_sent() {
    let mut world =
        World::routed(&[Answer::Yes], vec![Err("network is unreachable".to_owned())]);
    let Action::Failed(error) = world.start(&[Function::Image]) else {
        panic!("there is no route");
    };
    assert_eq!(
        error,
        RegistrarError::Unreachable {
            device: device(),
            source: TransportError::Io("network is unreachable".to_owned()),
        }
    );
    assert_eq!(world.sent.len(), 0, "nothing was sent");
    assert!(!world.registrar.is_running());
    assert!(!error.is_refusal(), "no route is not a refusal");
}

#[test]
fn the_panel_name_is_the_machines_name_reduced_to_what_the_device_accepts() {
    for (hostname, expected) in [
        ("desktop", "desktop"),
        ("desktop.office.example.com", "desktop"),
        ("workstation-04.lan", "workstation04"),
        ("a-very-long-hostname-indeed", "averylonghostna"),
        ("café", "caf"),
        ("", FALLBACK_PANEL_NAME),
        ("---", FALLBACK_PANEL_NAME),
        (".", FALLBACK_PANEL_NAME),
    ] {
        assert_eq!(panel_name_from(hostname).as_str(), expected, "hostname {hostname:?}");
    }
    assert_eq!(panel_name_from("-.lan").as_str(), "lan");
}

#[test]
fn this_machines_panel_name_is_registrable_and_stable() {
    let files = [Some("workstation-04.lan\n".to_owned()), Some("workstation\n".to_owned())];
    let name = panel_name(&files);
    assert!(UserName::new(name.as_str().to_owned()).is_ok(), "{name:?}");
    assert_eq!(name, panel_name(&files));
}

#[test]
fn the_panel_name_comes_from_the_first_file_that_says_one() {
    let said = |s: &str| Some(s.to_owned());
    assert_eq!(panel_name(&[None, said("etc\n")]).as_str(), "etc");
    assert_eq!(panel_name(&[said(" \n"), said("etc\n")]).as_str(), "etc");
    assert_eq!(panel_name(&[said("live\n"), said("etc\n")]).as_str(), "live");
    assert_eq!(panel_name(&[None, None]).as_str(), FALLBACK_PANEL_NAME);
}

#[test]
fn a_silent_device_and_a_refusing_one_map_to_different_backend_errors() {
    let scanner = ScannerId::from_backend("brother", "192.168.1.3").unwrap();

    let unreachable = RegistrarError::Unreachable {
        device: device(),
        source: TransportError::Timeout(response_timeout()),
    }
    .into_backend_error(&scanner);
    assert!(
        matches!(unreachable, BackendError::NotReachable { scanner: ref s, .. } if *s == scanner),
        "{unreachable:?}",
    );

    let refused = RegistrarError::Refused {
        device: device(),
        function: Some(Function::Image),
        status: ErrorStatus::NoSuchName,
    }
    .into_backend_error(&scanner);
    assert_eq!(
        refused,
        BackendError::Unsupported {
            backend: scanbus_backends::brother::ID,
            operation: "scan-to-PC registration",
        },
        "a refusal is NotSupported, not NotReachable with a longer message",
    );

    for local in [
        RegistrarError::Registration(RegisterError::Duration(0)),
        RegistrarError::Unexpected { device: device(), reason: "a GetRequest".to_owned() },
    ] {
        assert!(
            matches!(local.clone().into_backend_error(&scanner), BackendError::Other(_)),
            "{local:?}",
        );
    }
}

#[test]
fn probing_asks_a_read_only_question() {
    let request = probe_message(snmp::DEFAULT_COMMUNITY, 200);
    assert_eq!(request.pdu.kind, PduKind::GetRequest, "the probe must not write to the device");
    assert_eq!(request.pdu.varbinds[0].oid.to_text(), REGISTRATION_OID);
    probe_scan_to_pc(device(), 200, respond(&request, Answer::Yes)).unwrap();
}

#[test]
fn a_probe_tells_a_model_that_will_not_apart_from_one_that_is_off() {
    let request = probe_message(snmp::DEFAULT_COMMUNITY, 200);
    let refusal = respond(&request, Answer::Refuse(ErrorStatus::NoSuchName));
    let error = probe_scan_to_pc(device(), 200, refusal).unwrap_err();
    assert_eq!(
        error,
        RegistrarError::Refused {
            device: device(),
            function: None,
            status: ErrorStatus::NoSuchName,
        }
    );
    assert!(error.is_refusal());
    assert!(error.to_text().contains("does not appear to support"), "{error:?}");

    let silence = respond(&request, Answer::Silence);
    let error = probe_scan_to_pc(device(), 200, silence).unwrap_err();
    assert!(matches!(error, RegistrarError::Unreachable { .. }), "{error:?}");
    assert!(!error.is_refusal(), "a printer that is off says nothing about the model");
}

#[test]
fn stopping_is_idempotent() {
    let mut world = World::new(&[Answer::Yes]);
    world.registrar.stop();
    let started = world.start(&[Function::Image]);
    world.registrar.stop();
    world.registrar.stop();
    assert!(!world.registrar.is_running());
    world.sleep(started, LEASE * 2);
    assert_eq!(world.sent.len(), 1);
}

#[test]
fn a_message_that_is_no_response_is_unexpected() {
    let request = probe_message("public", 5);
    let error = accepted(device(), 5, None, &request).unwrap_err();
    assert_eq!(
        error.to_text(),
        "192.168.1.3 answered the registration with a GetRequest, not a Response"
    );
}

#[test]
fn an_answer_to_somebody_elses_request_is_waited_past() {
    let request = probe_message("public", 5);
    let bytes = request_bytes(&request).unwrap();
    assert_eq!(answer_to(6, &bytes), Ok(None));
    assert_eq!(answer_to(5, &bytes), Ok(Some(request.clone())));
    assert!(matches!(answer_to(5, &[]), Err(TransportError::Malformed(_))));

    let huge = Message::set("public", 1, request.pdu.varbinds[0].oid.clone(), vec![0; 70_000]);
    let error = request_bytes(&huge).unwrap_err();
    assert!(matches!(error, TransportError::Encode(SnmpError::TooLong(_))));
    assert!(error.to_text().starts_with("could not encode the request: "));
}

#[test]
fn only_a_bound_ipv4_address_is_advertised() {
    assert_eq!(routed_host(device(), LocalAddress::V4(host())), Ok(host()));
    assert_eq!(
        routed_host(device(), LocalAddress::V4(Ipv4Addr::new(0, 0, 0, 0))),
        Err(TransportError::Io(
            "the route to 192.168.1.3 left the source address unbound".to_owned()
        ))
    );
    assert_eq!(
        routed_host(device(), LocalAddress::V6("[::1]:9".to_owned())),
        Err(TransportError::Io(
            "the route to 192.168.1.3 came back as [::1]:9, which HOST= cannot carry".to_owned()
        ))
    );
}

#[test]
fn another_community_is_what_the_requests_carry() {
    let mut world = World::new(&[Answer::Yes]);
    let user = UserName::new("desktop".to_owned()).unwrap();
    world.registrar = Registrar::new(device(), user).with_community("public".to_owned());
    world.start(&[Function::Email]);
    assert_eq!(world.sent[0].1.community, b"public");
}

#[test]
fn request_ids_keep_rising() {
    let mut registrar = Registrar::new(device(), UserName::new("desktop".to_owned()).unwrap());
    let mut action = registrar.start(&Function::ALL);
    let mut ids = Vec::new();
    while ids.len() < 10 {
        action = match action {
            Action::AskHost => registrar.on_host(Ok(host())),
            Action::Exchange(request) => {
                ids.push(request.pdu.request_id);
                registrar.on_answer(respond(&request, Answer::Yes))
            }
            Action::Started(_) | Action::Sleep(_) => registrar.on_wake(),
            Action::Nothing | Action::Failed(_) => panic!("this device takes everything"),
        };
    }
    let first = snmp::FIRST_REQUEST_ID;
    assert_eq!(ids, (first..first + 10).collect::<Vec<_>>());
}
