//! Appearing on the printer's panel, and staying there.
//!
//! A registration carries a lease, so the panel entry disappears on its own unless
//! something renews it. It is renewed at half the lease: one lost datagram then costs a
//! retry rather than an outage on the panel. Stopping sends nothing; the entry lapses.
//!
//! The registrar is a machine that says what to do next: ask which local address routes to
//! the device, exchange one message with the device, or sleep. Whoever runs it does that and
//! hands back what came of it. The address is asked for again before every round, because
//! it is what a change of network changes.
use vstd::prelude::*;
use vstd::slice::slice_subrange;
use vstd::utf8::encode_utf8;

use crate::brother::ID;
use crate::hostname::{file_views, first_hostname, read_hostname};
use crate::model::{BackendError, BackendErrorView, ScannerId};
use crate::net::{ipv4_text, Ipv4Addr};
use crate::skey::function::{panel_entry_of, Function};
use crate::skey::register::{
    first_alnums, law_a_name_keeps_letters_and_digits, lease_secs, lemma_first_alnums, probe_request,
    register_error_text,
    registration_arcs, registration_text, valid_user, RegisterError, RegisterErrorView,
    Registration, RegistrationView, UserName, DEFAULT_DURATION_SECS, LISTENER_PORT, MAX_USER_LEN,
};
use crate::skey::snmp::{
    decode_message, encode_message, error_text, request_of, ErrorStatus, Message, MessageView,
    PduKind, SnmpError, SnmpErrorView, DEFAULT_COMMUNITY, FIRST_REQUEST_ID,
};
use crate::text;
use crate::text::{before, signed_decimal};
use crate::time::{span_text, Duration, NANOS_PER_SEC};

verus! {

/// How long a device is given to answer one request, in seconds.
pub const RESPONSE_TIMEOUT_SECS: u64 = 2;

/// Longest datagram read in one go.
pub const RECV_BUFFER: usize = 2048;

/// What this host is called when the hostname yields nothing usable.
pub const FALLBACK_PANEL_NAME: &'static str = "scanbus";

// ----------------------------------------------------------------------------------- delays

/// When a lease is renewed: at half of it.
pub open spec fn renewal(duration: nat) -> nat {
    duration / 2
}

/// When a round that failed is tried again: at a twelfth of the lease, but not before five
/// seconds and not after sixty.
pub open spec fn retrial(duration: nat) -> nat {
    let part = duration / 12;
    let least = 5 * NANOS_PER_SEC as nat;
    let most = 60 * NANOS_PER_SEC as nat;
    if part < least {
        least
    } else if part > most {
        most
    } else {
        part
    }
}

/// When to renew a lease of `duration`: at half of it.
pub fn refresh_delay(duration: Duration) -> (r: Duration)
    ensures
        r@ == renewal(duration@),
{
    duration.divided(2)
}

/// When to try again after a refresh round failed.
pub fn retry_delay(duration: Duration) -> (r: Duration)
    ensures
        r@ == retrial(duration@),
{
    let part = duration.divided(12);
    let nanos: u128 = part.as_nanos();
    if nanos < 5_000_000_000 {
        Duration::from_secs(5)
    } else if nanos > 60_000_000_000 {
        Duration::from_secs(60)
    } else {
        part
    }
}

// ------------------------------------------------------------------------------- panel name

/// The name a host appears under: the letters and digits of its name without the domain, as
/// many as the device takes.
pub open spec fn panel_name_of(hostname: Seq<char>) -> Seq<char> {
    let short = first_alnums(before(hostname, '.'), MAX_USER_LEN as nat);
    let long = first_alnums(hostname, MAX_USER_LEN as nat);
    if short.len() > 0 {
        short
    } else if long.len() > 0 {
        long
    } else {
        FALLBACK_PANEL_NAME@
    }
}

/// The name a host appears under.
pub fn panel_name_from(hostname: &str) -> (r: UserName)
    ensures
        r@ == panel_name_of(hostname@),
        valid_user(r@),
{
    let v = text::chars(hostname);
    let end: usize = text::position(v.as_slice(), '.');
    let head = slice_subrange(v.as_slice(), 0, end);
    assert(head@ =~= before(v@, '.'));
    let short = text::from_chars(head);
    proof {
        lemma_first_alnums(short@, MAX_USER_LEN as nat);
        lemma_first_alnums(hostname@, MAX_USER_LEN as nat);
    }
    match UserName::sanitised(short.as_str()) {
        Some(name) => {
            return name;
        },
        None => {},
    }
    match UserName::sanitised(hostname) {
        Some(name) => {
            return name;
        },
        None => {},
    }
    proof {
        reveal_strlit("scanbus");
        assert(valid_user("scanbus"@));
    }
    UserName::new(FALLBACK_PANEL_NAME.to_owned()).unwrap()
}

/// The name this host appears under, given what the hostname files say.
pub fn panel_name(files: &[Option<String>]) -> (r: UserName)
    ensures
        r@ == panel_name_of(
            match first_hostname(file_views(files@)) {
                Some(s) => s,
                None => seq![],
            },
        ),
        valid_user(r@),
{
    match read_hostname(files) {
        Some(name) => panel_name_from(name.as_str()),
        None => {
            let empty = String::new();
            assert(empty@ =~= seq![]);
            panel_name_from(empty.as_str())
        },
    }
}

// ----------------------------------------------------------------------------------- errors

/// Everything that can go wrong between the encoder and the answer.
#[derive(Debug, Clone, PartialEq, Eq)]
pub enum TransportError {
    /// Nothing arrived in time.
    Timeout(Duration),
    /// The socket failed.
    Io(String),
    /// A message that cannot be written.
    Encode(SnmpError),
    /// Something answered and it was not a message that can be read.
    Malformed(SnmpError),
}

/// What a [`TransportError`] says.
pub enum TransportErrorView {
    Timeout(nat),
    Io(Seq<char>),
    Encode(SnmpErrorView),
    Malformed(SnmpErrorView),
}

impl View for TransportError {
    type V = TransportErrorView;

    open spec fn view(&self) -> TransportErrorView {
        match *self {
            TransportError::Timeout(after) => TransportErrorView::Timeout(after@),
            TransportError::Io(error) => TransportErrorView::Io(error@),
            TransportError::Encode(error) => TransportErrorView::Encode(error@),
            TransportError::Malformed(error) => TransportErrorView::Malformed(error@),
        }
    }
}

/// The sentence that an error is reported with.
pub open spec fn transport_error_text(e: TransportErrorView) -> Seq<char> {
    match e {
        TransportErrorView::Timeout(after) => "no answer within "@ + span_text(after),
        TransportErrorView::Io(error) => "socket error: "@ + error,
        TransportErrorView::Encode(error) => "could not encode the request: "@ + error_text(error),
        TransportErrorView::Malformed(error) => "unreadable answer: "@ + error_text(error),
    }
}

impl TransportError {
    /// The sentence that this error is reported with.
    pub fn to_text(&self) -> (r: String)
        ensures
            r@ == transport_error_text(self@),
    {
        match self {
            TransportError::Timeout(after) => {
                let mut out = "no answer within ".to_owned();
                out.append(after.to_text().as_str());
                out
            },
            TransportError::Io(error) => {
                let mut out = "socket error: ".to_owned();
                out.append(error.as_str());
                out
            },
            TransportError::Encode(error) => {
                let mut out = "could not encode the request: ".to_owned();
                out.append(error.to_text().as_str());
                out
            },
            TransportError::Malformed(error) => {
                let mut out = "unreadable answer: ".to_owned();
                out.append(error.to_text().as_str());
                out
            },
        }
    }
}

/// Why a registration did not take.
#[derive(Debug, Clone, PartialEq, Eq)]
pub enum RegistrarError {
    /// The registration string could not be built. Never reaches the network.
    Registration(RegisterError),
    /// The device did not answer.
    Unreachable { device: Ipv4Addr, source: TransportError },
    /// The device answered, and said no, to the registration of a function or, where there
    /// is none, to the read of the registration object.
    Refused { device: Ipv4Addr, function: Option<Function>, status: ErrorStatus },
    /// The device answered something that is not an answer to what was asked.
    Unexpected { device: Ipv4Addr, reason: String },
}

/// What a [`RegistrarError`] says.
pub enum RegistrarErrorView {
    Registration(RegisterErrorView),
    Unreachable { device: Ipv4Addr, source: TransportErrorView },
    Refused { device: Ipv4Addr, function: Option<Function>, status: ErrorStatus },
    Unexpected { device: Ipv4Addr, reason: Seq<char> },
}

impl View for RegistrarError {
    type V = RegistrarErrorView;

    open spec fn view(&self) -> RegistrarErrorView {
        match *self {
            RegistrarError::Registration(error) => RegistrarErrorView::Registration(error@),
            RegistrarError::Unreachable { device, source } => RegistrarErrorView::Unreachable {
                device,
                source: source@,
            },
            RegistrarError::Refused { device, function, status } => RegistrarErrorView::Refused {
                device,
                function,
                status,
            },
            RegistrarError::Unexpected { device, reason } => RegistrarErrorView::Unexpected {
                device,
                reason: reason@,
            },
        }
    }
}

/// What was refused, in words.
pub open spec fn refused_text(function: Option<Function>) -> Seq<char> {
    match function {
        Some(f) => " refused to register "@ + f.token(),
        None => " refused to read the scan-key OID"@,
    }
}

/// The sentence that an error is reported with.
pub open spec fn registrar_error_text(e: RegistrarErrorView) -> Seq<char> {
    match e {
        RegistrarErrorView::Registration(error) => register_error_text(error),
        RegistrarErrorView::Unreachable { device, source } => ipv4_text(device)
            + " did not answer the registration: "@ + transport_error_text(source),
        RegistrarErrorView::Refused { device, function, status } => ipv4_text(device)
            + refused_text(function) + " with "@ + status.name()
            + ": this model does not appear to support scan-to-PC over SNMP"@,
        RegistrarErrorView::Unexpected { device, reason } => ipv4_text(device)
            + " answered the registration with "@ + reason,
    }
}

/// The scanbus error that a failure is reported as.
pub open spec fn backend_error_of(e: RegistrarErrorView, scanner: Seq<char>) -> BackendErrorView {
    match e {
        RegistrarErrorView::Unreachable { .. } => BackendErrorView::NotReachable {
            scanner,
            detail: registrar_error_text(e),
        },
        RegistrarErrorView::Refused { .. } => BackendErrorView::Unsupported {
            backend: ID@,
            operation: "scan-to-PC registration"@,
        },
        _ => BackendErrorView::Other("scanner "@ + scanner + ": "@ + registrar_error_text(e)),
    }
}

impl RegistrarError {
    /// The sentence that this error is reported with.
    pub fn to_text(&self) -> (r: String)
        ensures
            r@ == registrar_error_text(self@),
    {
        match self {
            RegistrarError::Registration(error) => error.to_text(),
            RegistrarError::Unreachable { device, source } => {
                let mut out = device.to_text();
                out.append(" did not answer the registration: ");
                out.append(source.to_text().as_str());
                out
            },
            RegistrarError::Refused { device, function, status } => {
                let mut what = String::new();
                match function {
                    Some(f) => {
                        what = " refused to register ".to_owned();
                        what.append(f.as_str());
                    },
                    None => {
                        what = " refused to read the scan-key OID".to_owned();
                    },
                }
                let mut out = device.to_text();
                out.append(what.as_str());
                out.append(" with ");
                out.append(status.to_text().as_str());
                out.append(": this model does not appear to support scan-to-PC over SNMP");
                out
            },
            RegistrarError::Unexpected { device, reason } => {
                let mut out = device.to_text();
                out.append(" answered the registration with ");
                out.append(reason.as_str());
                out
            },
        }
    }

    /// True when the device answered and said no, as opposed to not answering.
    pub fn is_refusal(&self) -> (r: bool)
        ensures
            r == (self@ is Refused),
    {
        match self {
            RegistrarError::Refused { .. } => true,
            _ => false,
        }
    }

    /// The scanbus error to report for this failure. A device that is silent can be switched
    /// on; one that refuses does not do scan-to-PC, and nothing will change that.
    pub fn into_backend_error(self, scanner: &ScannerId) -> (r: BackendError)
        ensures
            r@ == backend_error_of(self@, scanner@),
    {
        let detail = self.to_text();
        match self {
            RegistrarError::Unreachable { .. } => BackendError::NotReachable {
                scanner: scanner.clone(),
                detail,
            },
            RegistrarError::Refused { .. } => BackendError::Unsupported {
                backend: ID,
                operation: "scan-to-PC registration",
            },
            _ => {
                let mut out = "scanner ".to_owned();
                out.append(scanner.as_str());
                out.append(": ");
                out.append(detail.as_str());
                BackendError::Other(out)
            },
        }
    }
}

impl vstd::std_specs::convert::FromSpecImpl<RegisterError> for RegistrarError {
    open spec fn obeys_from_spec() -> bool {
        true
    }

    open spec fn from_spec(error: RegisterError) -> Self {
        RegistrarError::Registration(error)
    }
}

impl From<RegisterError> for RegistrarError {
    fn from(error: RegisterError) -> Self {
        RegistrarError::Registration(error)
    }
}

// ---------------------------------------------------------------------------------- answers

/// What a kind of message is called.
pub open spec fn kind_name(kind: PduKind) -> Seq<char> {
    match kind {
        PduKind::GetRequest => "GetRequest"@,
        PduKind::GetNextRequest => "GetNextRequest"@,
        PduKind::Response => "Response"@,
        PduKind::SetRequest => "SetRequest"@,
    }
}

fn kind_text(kind: PduKind) -> (r: &'static str)
    ensures
        r@ == kind_name(kind),
{
    match kind {
        PduKind::GetRequest => "GetRequest",
        PduKind::GetNextRequest => "GetNextRequest",
        PduKind::Response => "Response",
        PduKind::SetRequest => "SetRequest",
    }
}

/// Why a message is not a device saying yes to a request, if it is not.
pub open spec fn objection(
    device: Ipv4Addr,
    request_id: i32,
    function: Option<Function>,
    response: MessageView,
) -> Option<RegistrarErrorView> {
    if response.pdu.kind != PduKind::Response {
        Some(
            RegistrarErrorView::Unexpected {
                device,
                reason: "a "@ + kind_name(response.pdu.kind) + ", not a Response"@,
            },
        )
    } else if response.pdu.request_id != request_id {
        Some(
            RegistrarErrorView::Unexpected {
                device,
                reason: "request-id "@ + signed_decimal(response.pdu.request_id as int)
                    + " while "@ + signed_decimal(request_id as int) + " was outstanding"@,
            },
        )
    } else if response.pdu.error_status != ErrorStatus::NoError {
        Some(
            RegistrarErrorView::Refused { device, function, status: response.pdu.error_status },
        )
    } else {
        None
    }
}

/// Whether a message is the device saying yes to that request.
pub fn accepted(
    device: Ipv4Addr,
    request_id: i32,
    function: Option<Function>,
    response: &Message,
) -> (r: Result<(), RegistrarError>)
    ensures
        match objection(device, request_id, function, response@) {
            Some(e) => r matches Err(x) && x@ == e,
            None => r is Ok,
        },
{
    if response.pdu.kind != PduKind::Response {
        let mut reason = "a ".to_owned();
        reason.append(kind_text(response.pdu.kind));
        reason.append(", not a Response");
        return Err(RegistrarError::Unexpected { device, reason });
    }
    if response.pdu.request_id != request_id {
        let mut reason = "request-id ".to_owned();
        reason.append(text::signed_text(response.pdu.request_id).as_str());
        reason.append(" while ");
        reason.append(text::signed_text(request_id).as_str());
        reason.append(" was outstanding");
        return Err(RegistrarError::Unexpected { device, reason });
    }
    if !response.pdu.error_status.is_ok() {
        return Err(
            RegistrarError::Refused { device, function, status: response.pdu.error_status },
        );
    }
    Ok(())
}

/// What an exchange that may have failed says.
pub open spec fn answer_view(answer: Result<Message, TransportError>) -> Result<
    MessageView,
    TransportErrorView,
> {
    match answer {
        Ok(m) => Ok(m@),
        Err(e) => Err(e@),
    }
}

/// Why an exchange is not a device saying yes to a request, if it is not.
pub open spec fn failure(
    device: Ipv4Addr,
    request_id: i32,
    function: Option<Function>,
    answer: Result<MessageView, TransportErrorView>,
) -> Option<RegistrarErrorView> {
    match answer {
        Err(source) => Some(RegistrarErrorView::Unreachable { device, source }),
        Ok(response) => objection(device, request_id, function, response),
    }
}

fn judge(
    device: Ipv4Addr,
    request_id: i32,
    function: Option<Function>,
    answer: Result<Message, TransportError>,
) -> (r: Result<(), RegistrarError>)
    ensures
        match failure(device, request_id, function, answer_view(answer)) {
            Some(e) => r matches Err(x) && x@ == e,
            None => r is Ok,
        },
{
    match answer {
        Err(source) => Err(RegistrarError::Unreachable { device, source }),
        Ok(response) => accepted(device, request_id, function, &response),
    }
}

/// Whether a device knows the registration object at all, from what came of the read that
/// [`probe_message`] makes.
pub fn probe_scan_to_pc(
    device: Ipv4Addr,
    request_id: i32,
    answer: Result<Message, TransportError>,
) -> (r: Result<(), RegistrarError>)
    ensures
        match failure(device, request_id, None, answer_view(answer)) {
            Some(e) => r matches Err(x) && x@ == e,
            None => r is Ok,
        },
{
    judge(device, request_id, None, answer)
}

/// The question that pairing asks of a device. It is a read: nothing on the device changes.
pub fn probe_message(community: &str, request_id: i32) -> (r: Message)
    ensures
        r@ == request_of(
            PduKind::GetRequest,
            encode_utf8(community@),
            request_id,
            registration_arcs(),
            seq![],
        ),
{
    probe_request(community, request_id)
}

/// The bytes of a request.
pub fn request_bytes(request: &Message) -> (r: Result<Vec<u8>, TransportError>)
    ensures
        match r {
            Ok(v) => encode_message(request@) == Ok::<Seq<u8>, nat>(v@),
            Err(e) => encode_message(request@) matches Err(n) && e@ == TransportErrorView::Encode(
                SnmpErrorView::TooLong(n),
            ),
        },
{
    match request.encode() {
        Ok(bytes) => Ok(bytes),
        Err(error) => Err(TransportError::Encode(error)),
    }
}

/// The answer to a request that a datagram from the device holds: nothing where it answers
/// another request, for which the wait goes on.
pub fn answer_to(request_id: i32, datagram: &[u8]) -> (r: Result<Option<Message>, TransportError>)
    ensures
        match decode_message(datagram@) {
            Err(e) => r matches Err(x) && x@ == TransportErrorView::Malformed(e),
            Ok(m) => if m.pdu.request_id == request_id {
                r matches Ok(Some(x)) && x@ == m
            } else {
                r matches Ok(None)
            },
        },
{
    match Message::decode(datagram) {
        Err(error) => Err(TransportError::Malformed(error)),
        Ok(message) => if message.pdu.request_id == request_id {
            Ok(Some(message))
        } else {
            Ok(None)
        },
    }
}

/// The local address of a socket that is connected to a device.
#[derive(Debug)]
pub enum LocalAddress {
    V4(Ipv4Addr),
    V6(String),
}

/// Why a local address is none to advertise, if it is not.
pub open spec fn unroutable(device: Ipv4Addr, local: LocalAddress) -> Option<Seq<char>> {
    match local {
        LocalAddress::V4(ip) => if ip == (Ipv4Addr { a: 0, b: 0, c: 0, d: 0 }) {
            Some(
                "the route to "@ + ipv4_text(device) + " left the source address unbound"@,
            )
        } else {
            None
        },
        LocalAddress::V6(text) => Some(
            "the route to "@ + ipv4_text(device) + " came back as "@ + text@
                + ", which HOST= cannot carry"@,
        ),
    }
}

/// The address to advertise to a device, from the local address that routes to it.
pub fn routed_host(device: Ipv4Addr, local: LocalAddress) -> (r: Result<Ipv4Addr, TransportError>)
    ensures
        match unroutable(device, local) {
            Some(why) => r matches Err(e) && e@ == TransportErrorView::Io(why),
            None => r matches Ok(ip) && local == LocalAddress::V4(ip),
        },
{
    match local {
        LocalAddress::V4(ip) => if ip.a == 0 && ip.b == 0 && ip.c == 0 && ip.d == 0 {
            let mut out = "the route to ".to_owned();
            out.append(device.to_text().as_str());
            out.append(" left the source address unbound");
            Err(TransportError::Io(out))
        } else {
            Ok(ip)
        },
        LocalAddress::V6(text) => {
            let mut out = "the route to ".to_owned();
            out.append(device.to_text().as_str());
            out.append(" came back as ");
            out.append(text.as_str());
            out.append(", which HOST= cannot carry");
            Err(TransportError::Io(out))
        },
    }
}

// ------------------------------------------------------------------------------ the registrar

/// What a registrar is at.
#[derive(Debug, Clone, Copy, PartialEq, Eq, Structural)]
pub enum Phase {
    /// Nothing is registered and nothing is running.
    Idle,
    /// The first round waits to hear which address routes to the device.
    FirstHost,
    /// The first round waits for the answer to the registration of one function.
    First { host: Ipv4Addr, index: usize, request_id: i32 },
    /// Everything is registered until the next round.
    Waiting { host: Ipv4Addr },
    /// A refresh round waits to hear which address routes to the device.
    RefreshHost { host: Ipv4Addr },
    /// A refresh round waits for the answer to the registration of one function.
    Refresh { host: Ipv4Addr, index: usize, request_id: i32, failed: bool },
}

/// What is to be done next.
#[derive(Debug)]
pub enum Action {
    /// Nothing.
    Nothing,
    /// Find the local address that routes to the device, and hand it to `on_host`.
    AskHost,
    /// Send a message to the device, and hand what came of it to `on_answer`.
    Exchange(Message),
    /// Everything is registered. Sleep, and call `on_wake`.
    Started(Duration),
    /// A refresh round is over. Sleep, and call `on_wake`.
    Sleep(Duration),
    /// The first round failed, and nothing is running.
    Failed(RegistrarError),
}

/// What an [`Action`] says.
pub enum ActionView {
    Nothing,
    AskHost,
    Exchange(MessageView),
    Started(nat),
    Sleep(nat),
    Failed(RegistrarErrorView),
}

impl View for Action {
    type V = ActionView;

    open spec fn view(&self) -> ActionView {
        match *self {
            Action::Nothing => ActionView::Nothing,
            Action::AskHost => ActionView::AskHost,
            Action::Exchange(m) => ActionView::Exchange(m@),
            Action::Started(d) => ActionView::Started(d@),
            Action::Sleep(d) => ActionView::Sleep(d@),
            Action::Failed(e) => ActionView::Failed(e@),
        }
    }
}

/// One device's registrations: what is registered, and what keeps them alive.
#[derive(Debug)]
pub struct Registrar {
    device: Ipv4Addr,
    community: String,
    user: UserName,
    duration: Duration,
    functions: Vec<Function>,
    phase: Phase,
    next_request: i32,
}

/// What a [`Registrar`] holds; the lease is in nanoseconds.
pub struct RegistrarView {
    pub device: Ipv4Addr,
    pub community: Seq<char>,
    pub user: Seq<char>,
    pub duration: nat,
    pub functions: Seq<Function>,
    pub phase: Phase,
    /// The id of the next request.
    pub next_request: i32,
}

impl View for Registrar {
    type V = RegistrarView;

    closed spec fn view(&self) -> RegistrarView {
        RegistrarView {
            device: self.device,
            community: self.community@,
            user: self.user@,
            duration: self.duration@,
            functions: self.functions@,
            phase: self.phase,
            next_request: self.next_request,
        }
    }
}

/// The request id behind a request id; behind the last comes the first.
pub open spec fn following(id: i32) -> i32 {
    if id == i32::MAX {
        i32::MIN
    } else {
        (id + 1) as i32
    }
}

/// The functions among some that are asked for, in button order.
pub open spec fn chosen(functions: Seq<Function>) -> Seq<Function> {
    Seq::<Function>::empty() + (if functions.contains(Function::File) {
        seq![Function::File]
    } else {
        seq![]
    }) + (if functions.contains(Function::Image) {
        seq![Function::Image]
    } else {
        seq![]
    }) + (if functions.contains(Function::Ocr) {
        seq![Function::Ocr]
    } else {
        seq![]
    }) + (if functions.contains(Function::Email) {
        seq![Function::Email]
    } else {
        seq![]
    })
}

/// Whether the lease is one that a registration can carry.
pub open spec fn lease_fits(duration: nat) -> bool {
    1 <= lease_secs(duration) <= u32::MAX
}

/// The registration of one of a registrar's functions.
pub open spec fn registration_of(s: RegistrarView, host: Ipv4Addr, f: Function) -> RegistrationView {
    RegistrationView {
        user: s.user,
        host,
        port: LISTENER_PORT,
        function: panel_entry_of(f),
        duration: s.duration,
    }
}

/// The message that registers one of a registrar's functions.
pub open spec fn registering(s: RegistrarView, host: Ipv4Addr, f: Function) -> MessageView {
    request_of(
        PduKind::SetRequest,
        encode_utf8(s.community),
        s.next_request,
        registration_arcs(),
        encode_utf8(registration_text(registration_of(s, host, f))),
    )
}

/// What is said of a lease that a registration cannot carry.
pub open spec fn lease_error(duration: nat) -> RegistrarErrorView {
    RegistrarErrorView::Registration(RegisterErrorView::Duration(lease_secs(duration) as u64))
}

/// A registrar that has stopped.
pub open spec fn stopped(s: RegistrarView) -> RegistrarView {
    RegistrarView { functions: seq![], phase: Phase::Idle, ..s }
}

/// A registrar that has begun.
pub open spec fn started(s: RegistrarView, functions: Seq<Function>) -> (RegistrarView, ActionView) {
    if chosen(functions).len() == 0 {
        (stopped(s), ActionView::Nothing)
    } else {
        (
            RegistrarView { functions: chosen(functions), phase: Phase::FirstHost, ..s },
            ActionView::AskHost,
        )
    }
}

/// The first round, from the function with an index on. It gives up at the first failure.
pub open spec fn first_round(s: RegistrarView, host: Ipv4Addr, index: nat) -> (
    RegistrarView,
    ActionView,
) {
    if index >= s.functions.len() {
        (
            RegistrarView { phase: Phase::Waiting { host }, ..s },
            ActionView::Started(renewal(s.duration)),
        )
    } else if !lease_fits(s.duration) {
        (
            stopped(RegistrarView { next_request: following(s.next_request), ..s }),
            ActionView::Failed(lease_error(s.duration)),
        )
    } else {
        (
            RegistrarView {
                phase: Phase::First { host, index: index as usize, request_id: s.next_request },
                next_request: following(s.next_request),
                ..s
            },
            ActionView::Exchange(registering(s, host, s.functions[index as int])),
        )
    }
}

/// A refresh round, from the function with an index on. It goes on past failures.
pub open spec fn refresh_round(s: RegistrarView, host: Ipv4Addr, index: nat, failed: bool) -> (
    RegistrarView,
    ActionView,
)
    decreases s.functions.len() - index,
{
    if index >= s.functions.len() {
        (
            RegistrarView { phase: Phase::Waiting { host }, ..s },
            ActionView::Sleep(
                if failed {
                    retrial(s.duration)
                } else {
                    renewal(s.duration)
                },
            ),
        )
    } else if !lease_fits(s.duration) {
        refresh_round(
            RegistrarView { next_request: following(s.next_request), ..s },
            host,
            index + 1,
            true,
        )
    } else {
        (
            RegistrarView {
                phase: Phase::Refresh {
                    host,
                    index: index as usize,
                    request_id: s.next_request,
                    failed,
                },
                next_request: following(s.next_request),
                ..s
            },
            ActionView::Exchange(registering(s, host, s.functions[index as int])),
        )
    }
}

/// What a route that may not be there says.
pub open spec fn route_view(answer: Result<Ipv4Addr, TransportError>) -> Result<
    Ipv4Addr,
    TransportErrorView,
> {
    match answer {
        Ok(host) => Ok(host),
        Err(e) => Err(e@),
    }
}

/// A registrar that has heard which address routes to the device.
pub open spec fn routed(s: RegistrarView, answer: Result<Ipv4Addr, TransportErrorView>) -> (
    RegistrarView,
    ActionView,
) {
    match s.phase {
        Phase::FirstHost => match answer {
            Ok(host) => first_round(s, host, 0),
            Err(source) => (
                stopped(s),
                ActionView::Failed(RegistrarErrorView::Unreachable { device: s.device, source }),
            ),
        },
        Phase::RefreshHost { host } => match answer {
            Ok(now) => refresh_round(s, now, 0, false),
            Err(_) => (
                RegistrarView { phase: Phase::Waiting { host }, ..s },
                ActionView::Sleep(retrial(s.duration)),
            ),
        },
        _ => (s, ActionView::Nothing),
    }
}

/// The function with an index, where there is one.
pub open spec fn function_at(s: RegistrarView, index: usize) -> Option<Function> {
    if index < s.functions.len() {
        Some(s.functions[index as int])
    } else {
        None
    }
}

/// A registrar that has heard what came of an exchange.
pub open spec fn answered(s: RegistrarView, answer: Result<MessageView, TransportErrorView>) -> (
    RegistrarView,
    ActionView,
) {
    match s.phase {
        Phase::First { host, index, request_id } => match failure(
            s.device,
            request_id,
            function_at(s, index),
            answer,
        ) {
            Some(e) => (stopped(s), ActionView::Failed(e)),
            None => first_round(s, host, index as nat + 1),
        },
        Phase::Refresh { host, index, request_id, failed } => refresh_round(
            s,
            host,
            index as nat + 1,
            failed || failure(s.device, request_id, function_at(s, index), answer) is Some,
        ),
        _ => (s, ActionView::Nothing),
    }
}

/// A registrar whose sleep is over.
pub open spec fn woken(s: RegistrarView) -> (RegistrarView, ActionView) {
    match s.phase {
        Phase::Waiting { host } => (
            RegistrarView { phase: Phase::RefreshHost { host }, ..s },
            ActionView::AskHost,
        ),
        _ => (s, ActionView::Nothing),
    }
}

fn next_id(id: i32) -> (r: i32)
    ensures
        r == following(id),
{
    if id == 0x7fff_ffff {
        -0x8000_0000
    } else {
        id + 1
    }
}

fn has(functions: &[Function], f: Function) -> (r: bool)
    ensures
        r == functions@.contains(f),
{
    let mut i: usize = 0;
    while i < functions.len()
        invariant
            i <= functions@.len(),
            forall|j: int| 0 <= j < i ==> functions@[j] != f,
        decreases functions@.len() - i,
    {
        if functions[i] == f {
            assert(functions@[i as int] == f);
            return true;
        }
        i = i + 1;
    }
    false
}

fn choose_functions(functions: &[Function]) -> (r: Vec<Function>)
    ensures
        r@ == chosen(functions@),
{
    let mut out: Vec<Function> = Vec::new();
    if has(functions, Function::File) {
        out.push(Function::File);
    }
    if has(functions, Function::Image) {
        out.push(Function::Image);
    }
    if has(functions, Function::Ocr) {
        out.push(Function::Ocr);
    }
    if has(functions, Function::Email) {
        out.push(Function::Email);
    }
    assert(out@ =~= chosen(functions@));
    out
}

impl Registrar {
    /// A registrar for one device, with the default lease and community.
    pub fn new(device: Ipv4Addr, user: UserName) -> (r: Self)
        ensures
            r@ == (RegistrarView {
                device,
                community: DEFAULT_COMMUNITY@,
                user: user@,
                duration: (DEFAULT_DURATION_SECS * NANOS_PER_SEC) as nat,
                functions: seq![],
                phase: Phase::Idle,
                next_request: FIRST_REQUEST_ID,
            }),
    {
        let r = Registrar {
            device,
            community: DEFAULT_COMMUNITY.to_owned(),
            user,
            duration: Duration::from_secs(DEFAULT_DURATION_SECS),
            functions: Vec::new(),
            phase: Phase::Idle,
            next_request: FIRST_REQUEST_ID,
        };
        assert(r@.functions =~= seq![]);
        r
    }

    /// This registrar with another lease.
    pub fn with_duration(self, duration: Duration) -> (r: Self)
        ensures
            r@ == (RegistrarView { duration: duration@, ..self@ }),
    {
        let mut r = self;
        r.duration = duration;
        r
    }

    /// This registrar with another community.
    pub fn with_community(self, community: String) -> (r: Self)
        ensures
            r@ == (RegistrarView { community: community@, ..self@ }),
    {
        let mut r = self;
        r.community = community;
        r
    }

    pub fn device(&self) -> (r: Ipv4Addr)
        ensures
            r == self@.device,
    {
        self.device
    }

    /// The functions currently being kept alive, in button order.
    pub fn functions(&self) -> (r: &[Function])
        ensures
            r@ == self@.functions,
    {
        self.functions.as_slice()
    }

    /// Whether registrations are being kept alive.
    pub fn is_running(&self) -> (r: bool)
        ensures
            r == running(self@.phase),
    {
        match self.phase {
            Phase::Idle => false,
            Phase::FirstHost => false,
            Phase::First { .. } => false,
            _ => true,
        }
    }

    /// Register every requested function once, then keep them alive. What was registered
    /// before is replaced.
    pub fn start(&mut self, functions: &[Function]) -> (r: Action)
        ensures
            (final(self)@, r@) == started(old(self)@, functions@),
    {
        let ghost before = self@;
        self.stop();
        let wanted = choose_functions(functions);
        if wanted.len() == 0 {
            return Action::Nothing;
        }
        self.functions = wanted;
        self.phase = Phase::FirstHost;
        Action::AskHost
    }

    /// Stop refreshing. The panel entries lapse within one lease; nothing is sent.
    pub fn stop(&mut self)
        ensures
            final(self)@ == stopped(old(self)@),
    {
        self.functions = Vec::new();
        self.phase = Phase::Idle;
        assert(self@.functions =~= seq![]);
    }

    fn registration(&self, host: Ipv4Addr, f: Function) -> (r: Registration)
        ensures
            r@ == registration_of(self@, host, f),
    {
        Registration {
            user: self.user.clone(),
            host,
            port: LISTENER_PORT,
            function: f.to_panel(),
            duration: self.duration,
        }
    }

    fn next_first(&mut self, host: Ipv4Addr, index: usize) -> (r: Action)
        ensures
            (final(self)@, r@) == first_round(old(self)@, host, index as nat),
    {
        let ghost before = self@;
        if index >= self.functions.len() {
            self.phase = Phase::Waiting { host };
            return Action::Started(refresh_delay(self.duration));
        }
        let id: i32 = self.next_request;
        let registration = self.registration(host, self.functions[index]);
        self.next_request = next_id(id);
        match registration.set_request(self.community.as_str(), id) {
            Ok(request) => {
                self.phase = Phase::First { host, index, request_id: id };
                Action::Exchange(request)
            },
            Err(error) => {
                self.stop();
                Action::Failed(RegistrarError::from(error))
            },
        }
    }

    fn next_refresh(&mut self, host: Ipv4Addr, from: usize, before_failed: bool) -> (r: Action)
        ensures
            (final(self)@, r@) == refresh_round(old(self)@, host, from as nat, before_failed),
    {
        let mut index: usize = from;
        let mut failed = before_failed;
        while index < self.functions.len()
            invariant
                refresh_round(self@, host, index as nat, failed) == refresh_round(
                    old(self)@,
                    host,
                    from as nat,
                    before_failed,
                ),
            decreases self.functions@.len() - index,
        {
            let ghost at = self@;
            let id: i32 = self.next_request;
            let registration = self.registration(host, self.functions[index]);
            self.next_request = next_id(id);
            match registration.set_request(self.community.as_str(), id) {
                Ok(request) => {
                    self.phase = Phase::Refresh { host, index, request_id: id, failed };
                    return Action::Exchange(request);
                },
                Err(_) => {
                    failed = true;
                },
            }
            index = index + 1;
        }
        self.phase = Phase::Waiting { host };
        if failed {
            Action::Sleep(retry_delay(self.duration))
        } else {
            Action::Sleep(refresh_delay(self.duration))
        }
    }

    /// Which address routes to the device has been found, or not. A round that is under way
    /// goes on from there.
    pub fn on_host(&mut self, answer: Result<Ipv4Addr, TransportError>) -> (r: Action)
        ensures
            (final(self)@, r@) == routed(old(self)@, route_view(answer)),
    {
        match self.phase {
            Phase::FirstHost => match answer {
                Ok(host) => self.next_first(host, 0),
                Err(source) => {
                    let device = self.device;
                    self.stop();
                    Action::Failed(RegistrarError::Unreachable { device, source })
                },
            },
            Phase::RefreshHost { host } => match answer {
                Ok(now) => self.next_refresh(now, 0, false),
                Err(_) => {
                    self.phase = Phase::Waiting { host };
                    Action::Sleep(retry_delay(self.duration))
                },
            },
            _ => Action::Nothing,
        }
    }

    fn function(&self, index: usize) -> (r: Option<Function>)
        ensures
            r == function_at(self@, index),
    {
        if index < self.functions.len() {
            Some(self.functions[index])
        } else {
            None
        }
    }

    /// What came of an exchange. The first round gives up at the first failure; a refresh
    /// round goes on.
    pub fn on_answer(&mut self, answer: Result<Message, TransportError>) -> (r: Action)
        ensures
            (final(self)@, r@) == answered(old(self)@, answer_view(answer)),
    {
        match self.phase {
            Phase::First { host, index, request_id } => {
                match judge(self.device, request_id, self.function(index), answer) {
                    Ok(()) => {
                        if index >= self.functions.len() {
                            return self.next_first(host, index);
                        }
                        self.next_first(host, index + 1)
                    },
                    Err(error) => {
                        self.stop();
                        Action::Failed(error)
                    },
                }
            },
            Phase::Refresh { host, index, request_id, failed } => {
                let refused = judge(self.device, request_id, self.function(index), answer).is_err();
                if index >= self.functions.len() {
                    return self.next_refresh(host, index, failed || refused);
                }
                self.next_refresh(host, index + 1, failed || refused)
            },
            _ => Action::Nothing,
        }
    }

    /// A sleep is over.
    pub fn on_wake(&mut self) -> (r: Action)
        ensures
            (final(self)@, r@) == woken(old(self)@),
    {
        match self.phase {
            Phase::Waiting { host } => {
                self.phase = Phase::RefreshHost { host };
                Action::AskHost
            },
            _ => Action::Nothing,
        }
    }
}

/// Whether registrations are being kept alive.
pub open spec fn running(phase: Phase) -> bool {
    phase is Waiting || phase is RefreshHost || phase is Refresh
}

// ------------------------------------------------------------------------------------ laws

/// A lease is renewed while a second attempt still fits into it, and a round that failed is
/// tried again after five to sixty seconds: within any lease of at least five, and without
/// spinning.
pub proof fn law_a_lease_is_renewed_in_time(duration: nat)
    ensures
        2 * renewal(duration) <= duration,
        duration < 2 * renewal(duration) + 2,
        5 * NANOS_PER_SEC <= retrial(duration) <= 60 * NANOS_PER_SEC,
        duration >= 5 * NANOS_PER_SEC ==> retrial(duration) <= duration,
{
}

/// Stopping is not sending anything, then or later: whatever still comes in changes nothing.
pub proof fn law_a_stopped_registrar_stays_silent(
    s: RegistrarView,
    route: Result<Ipv4Addr, TransportErrorView>,
    answer: Result<MessageView, TransportErrorView>,
)
    ensures
        !running(stopped(s).phase),
        stopped(s).functions.len() == 0,
        stopped(stopped(s)) == stopped(s),
        routed(stopped(s), route) == (stopped(s), ActionView::Nothing),
        answered(stopped(s), answer) == (stopped(s), ActionView::Nothing),
        woken(stopped(s)) == (stopped(s), ActionView::Nothing),
{
}

/// A first round that fails leaves nothing registered and nothing running.
pub proof fn law_a_failed_start_leaves_nothing(
    s: RegistrarView,
    route: Result<Ipv4Addr, TransportErrorView>,
    answer: Result<MessageView, TransportErrorView>,
)
    ensures
        routed(s, route).1 is Failed ==> routed(s, route).0.phase == Phase::Idle && routed(
            s,
            route,
        ).0.functions.len() == 0,
        answered(s, answer).1 is Failed ==> answered(s, answer).0.phase == Phase::Idle && answered(
            s,
            answer,
        ).0.functions.len() == 0,
{
    lemma_refresh_never_fails(s, route, answer);
}

proof fn lemma_refresh_never_fails(
    s: RegistrarView,
    route: Result<Ipv4Addr, TransportErrorView>,
    answer: Result<MessageView, TransportErrorView>,
)
    ensures
        s.phase is RefreshHost ==> !(routed(s, route).1 is Failed),
        s.phase is Refresh ==> !(answered(s, answer).1 is Failed),
{
    match s.phase {
        Phase::RefreshHost { .. } => {
            if route is Ok {
                lemma_refresh_round(s, route->Ok_0, 0, false);
            }
        },
        Phase::Refresh { host, index, request_id, failed } => {
            lemma_refresh_round(
                s,
                host,
                index as nat + 1,
                failed || failure(s.device, request_id, function_at(s, index), answer) is Some,
            );
        },
        _ => {},
    }
}

/// Whether a message is the registration of one of a registrar's functions from a host,
/// under the next request id.
pub open spec fn is_registration(s: RegistrarView, host: Ipv4Addr, m: MessageView) -> bool {
    exists|f: Function| #[trigger] s.functions.contains(f) && m == registering(s, host, f)
}

proof fn lemma_refresh_round(s: RegistrarView, host: Ipv4Addr, index: nat, failed: bool)
    ensures
        !(refresh_round(s, host, index, failed).1 is Failed),
        refresh_round(s, host, index, failed).0.functions == s.functions,
        running(refresh_round(s, host, index, failed).0.phase),
        !lease_fits(s.duration) ==> refresh_round(s, host, index, failed).1 is Sleep,
        refresh_round(s, host, index, failed).1 matches ActionView::Exchange(m) ==> is_registration(
            s,
            host,
            m,
        ),
    decreases s.functions.len() - index,
{
    if index < s.functions.len() {
        if !lease_fits(s.duration) {
            let t = RegistrarView { next_request: following(s.next_request), ..s };
            lemma_refresh_round(t, host, index + 1, true);
        } else {
            assert(s.functions.contains(s.functions[index as int]));
        }
    }
}

/// The only thing that is ever sent is the registration of a function that was asked for,
/// under the next request id, from the address that was last found to route to the device.
pub proof fn law_only_registrations_are_sent(
    s: RegistrarView,
    host: Ipv4Addr,
    answer: Result<MessageView, TransportErrorView>,
)
    ensures
        routed(s, Ok(host)).1 matches ActionView::Exchange(m) ==> is_registration(s, host, m),
        answered(s, answer).1 matches ActionView::Exchange(m) ==> (match s.phase {
            Phase::First { host, .. } => is_registration(s, host, m),
            Phase::Refresh { host, .. } => is_registration(s, host, m),
            _ => false,
        }),
{
    match s.phase {
        Phase::FirstHost => {
            if s.functions.len() > 0 {
                assert(s.functions.contains(s.functions[0]));
            }
        },
        Phase::RefreshHost { .. } => {
            lemma_refresh_round(s, host, 0, false);
        },
        Phase::First { index, .. } => {
            if index + 1 < s.functions.len() {
                assert(s.functions.contains(s.functions[index as int + 1]));
            }
        },
        Phase::Refresh { host, index, request_id, failed } => {
            lemma_refresh_round(
                s,
                host,
                index as nat + 1,
                failed || failure(s.device, request_id, function_at(s, index), answer) is Some,
            );
        },
        _ => {},
    }
}

/// The id of the request that is waited for an answer to.
pub open spec fn outstanding(phase: Phase) -> Option<i32> {
    match phase {
        Phase::First { request_id, .. } => Some(request_id),
        Phase::Refresh { request_id, .. } => Some(request_id),
        _ => None,
    }
}

/// Request ids keep rising, across the first round and every refresh: each request carries
/// the id behind the one before it, and it is that id which is waited for.
pub proof fn law_every_request_has_its_own_id(
    s: RegistrarView,
    route: Result<Ipv4Addr, TransportErrorView>,
    answer: Result<MessageView, TransportErrorView>,
)
    ensures
        routed(s, route).1 matches ActionView::Exchange(m) ==> m.pdu.request_id == s.next_request
            && outstanding(routed(s, route).0.phase) == Some(s.next_request) && routed(
            s,
            route,
        ).0.next_request == following(s.next_request),
        answered(s, answer).1 matches ActionView::Exchange(m) ==> m.pdu.request_id
            == s.next_request && outstanding(answered(s, answer).0.phase) == Some(s.next_request)
            && answered(s, answer).0.next_request == following(s.next_request),
{
    match s.phase {
        Phase::RefreshHost { .. } => {
            if route is Ok {
                lemma_refresh_round(s, route->Ok_0, 0, false);
            }
        },
        Phase::Refresh { host, index, request_id, failed } => {
            lemma_refresh_round(
                s,
                host,
                index as nat + 1,
                failed || failure(s.device, request_id, function_at(s, index), answer) is Some,
            );
        },
        _ => {},
    }
}

/// The address is asked for before every round: a registrar that wakes asks for it, and
/// registers from nothing but the answer.
pub proof fn law_every_round_asks_for_the_address(s: RegistrarView, host: Ipv4Addr)
    requires
        s.phase is Waiting,
    ensures
        woken(s).1 is AskHost,
        routed(woken(s).0, Ok(host)).1 matches ActionView::Exchange(m) ==> is_registration(
            s,
            host,
            m,
        ),
{
    let w = woken(s).0;
    law_only_registrations_are_sent(w, host, Err(TransportErrorView::Io(seq![])));
    match routed(w, Ok(host)).1 {
        ActionView::Exchange(m) => {
            let f = choose|f: Function| #[trigger]
                w.functions.contains(f) && m == registering(w, host, f);
            assert(s.functions.contains(f));
        },
        _ => {},
    }
}

/// The messages that a round sends, from the function with an index on: one registration for
/// each, under rising ids.
pub open spec fn round_messages(s: RegistrarView, host: Ipv4Addr, index: nat) -> Seq<MessageView>
    decreases s.functions.len() - index,
{
    if index >= s.functions.len() {
        seq![]
    } else {
        seq![registering(s, host, s.functions[index as int])] + round_messages(
            RegistrarView { next_request: following(s.next_request), ..s },
            host,
            index + 1,
        )
    }
}

/// Whether each of a round's messages was taken, from the function with an index on.
pub open spec fn all_taken(
    s: RegistrarView,
    index: nat,
    answers: Seq<Result<MessageView, TransportErrorView>>,
) -> bool
    decreases s.functions.len() - index,
{
    index < s.functions.len() ==> answers.len() > 0 && failure(
        s.device,
        s.next_request,
        Some(s.functions[index as int]),
        answers[0],
    ) is None && all_taken(
        RegistrarView { next_request: following(s.next_request), ..s },
        index + 1,
        answers.drop_first(),
    )
}

/// What is sent from an action on while there are answers, and what is to be done then.
pub open spec fn run_of(
    s: RegistrarView,
    action: ActionView,
    answers: Seq<Result<MessageView, TransportErrorView>>,
) -> (Seq<MessageView>, ActionView)
    decreases answers.len(),
{
    match action {
        ActionView::Exchange(m) => if answers.len() == 0 {
            (seq![m], action)
        } else {
            let (next, more_to_do) = answered(s, answers[0]);
            let (more, last) = run_of(next, more_to_do, answers.drop_first());
            (seq![m] + more, last)
        },
        _ => (seq![], action),
    }
}

proof fn lemma_messages_ignore_phase(s: RegistrarView, t: RegistrarView, host: Ipv4Addr, index: nat)
    requires
        t == (RegistrarView { phase: t.phase, ..s }),
    ensures
        round_messages(s, host, index) == round_messages(t, host, index),
    decreases s.functions.len() - index,
{
    if index < s.functions.len() {
        lemma_messages_ignore_phase(
            RegistrarView { next_request: following(s.next_request), ..s },
            RegistrarView { next_request: following(t.next_request), ..t },
            host,
            index + 1,
        );
    }
}

proof fn lemma_taken_ignores_phase(
    s: RegistrarView,
    t: RegistrarView,
    index: nat,
    answers: Seq<Result<MessageView, TransportErrorView>>,
)
    requires
        t == (RegistrarView { phase: t.phase, ..s }),
    ensures
        all_taken(s, index, answers) == all_taken(t, index, answers),
    decreases s.functions.len() - index,
{
    if index < s.functions.len() {
        lemma_taken_ignores_phase(
            RegistrarView { next_request: following(s.next_request), ..s },
            RegistrarView { next_request: following(t.next_request), ..t },
            index + 1,
            answers.drop_first(),
        );
    }
}

proof fn lemma_first_run(
    s: RegistrarView,
    host: Ipv4Addr,
    index: nat,
    answers: Seq<Result<MessageView, TransportErrorView>>,
)
    requires
        s.functions.len() <= usize::MAX,
    ensures
        ({
            let (t, a) = first_round(s, host, index);
            run_of(t, a, answers).1 is Started ==> run_of(t, a, answers).0 == round_messages(
                s,
                host,
                index,
            ) && all_taken(s, index, answers)
        }),
    decreases s.functions.len() - index,
{
    let (t, a) = first_round(s, host, index);
    if index < s.functions.len() && lease_fits(s.duration) && answers.len() > 0 {
        let u = RegistrarView { next_request: following(s.next_request), ..s };
        let rest = answers.drop_first();
        let (next, action) = answered(t, answers[0]);
        if failure(s.device, s.next_request, Some(s.functions[index as int]), answers[0]) is None {
            lemma_first_run(t, host, index + 1, rest);
            lemma_messages_ignore_phase(u, t, host, index + 1);
            lemma_taken_ignores_phase(u, t, index + 1, rest);
        } else {
            assert(run_of(next, action, rest).1 is Failed);
        }
    } else if index >= s.functions.len() {
        assert(run_of(t, a, answers).0 =~= seq![]);
    }
}

/// A start that comes out has registered every function that was asked for, once and in
/// order, and the device took each of them.
pub proof fn law_a_start_registers_everything(
    s: RegistrarView,
    host: Ipv4Addr,
    answers: Seq<Result<MessageView, TransportErrorView>>,
)
    requires
        s.phase is FirstHost,
        s.functions.len() <= usize::MAX,
    ensures
        ({
            let (t, a) = routed(s, Ok(host));
            run_of(t, a, answers).1 is Started ==> run_of(t, a, answers).0 == round_messages(
                s,
                host,
                0,
            ) && all_taken(s, 0, answers)
        }),
{
    lemma_first_run(s, host, 0, answers);
}

proof fn lemma_refresh_run(
    s: RegistrarView,
    host: Ipv4Addr,
    index: nat,
    failed: bool,
    answers: Seq<Result<MessageView, TransportErrorView>>,
)
    requires
        lease_fits(s.duration),
        s.functions.len() <= usize::MAX,
    ensures
        ({
            let (t, a) = refresh_round(s, host, index, failed);
            let (sent, last) = run_of(t, a, answers);
            &&& last is Exchange || last is Sleep
            &&& s.functions.len() - index <= answers.len() ==> last is Sleep
            &&& last matches ActionView::Sleep(delay) ==> sent == round_messages(s, host, index)
                && delay == (if !failed && all_taken(s, index, answers) {
                renewal(s.duration)
            } else {
                retrial(s.duration)
            })
        }),
    decreases s.functions.len() - index,
{
    let (t, a) = refresh_round(s, host, index, failed);
    if index < s.functions.len() && answers.len() > 0 {
        let u = RegistrarView { next_request: following(s.next_request), ..s };
        let rest = answers.drop_first();
        let refused = failure(
            s.device,
            s.next_request,
            Some(s.functions[index as int]),
            answers[0],
        ) is Some;
        lemma_refresh_run(t, host, index + 1, failed || refused, rest);
        lemma_messages_ignore_phase(u, t, host, index + 1);
        lemma_taken_ignores_phase(u, t, index + 1, rest);
    } else if index >= s.functions.len() {
        assert(run_of(t, a, answers).0 =~= seq![]);
    }
}

/// A refresh round registers every function again, whatever the device says to any of them:
/// with an answer to each it is over, and the next one comes at half the lease where the
/// device took them all, and sooner, at the retry delay, where it did not.
pub proof fn law_a_refresh_goes_past_failures(
    s: RegistrarView,
    host: Ipv4Addr,
    answers: Seq<Result<MessageView, TransportErrorView>>,
)
    requires
        s.phase is RefreshHost,
        lease_fits(s.duration),
        s.functions.len() <= answers.len(),
        s.functions.len() <= usize::MAX,
    ensures
        ({
            let (t, a) = routed(s, Ok(host));
            let (sent, last) = run_of(t, a, answers);
            &&& sent == round_messages(s, host, 0)
            &&& last == ActionView::Sleep(
                if all_taken(s, 0, answers) {
                    renewal(s.duration)
                } else {
                    retrial(s.duration)
                },
            )
        }),
{
    lemma_refresh_run(s, host, 0, false, answers);
}

/// A registrar that keeps registrations alive never gives up by itself: whatever the device
/// or the network does, it goes on with the same functions.
pub proof fn law_a_running_registrar_goes_on(
    s: RegistrarView,
    route: Result<Ipv4Addr, TransportErrorView>,
    answer: Result<MessageView, TransportErrorView>,
)
    requires
        running(s.phase),
    ensures
        running(routed(s, route).0.phase) && routed(s, route).0.functions == s.functions,
        running(answered(s, answer).0.phase) && answered(s, answer).0.functions == s.functions,
        running(woken(s).0.phase) && woken(s).0.functions == s.functions,
{
    match s.phase {
        Phase::RefreshHost { .. } => {
            if route is Ok {
                lemma_refresh_round(s, route->Ok_0, 0, false);
            }
        },
        Phase::Refresh { host, index, request_id, failed } => {
            lemma_refresh_round(
                s,
                host,
                index as nat + 1,
                failed || failure(s.device, request_id, function_at(s, index), answer) is Some,
            );
        },
        _ => {},
    }
}

/// What is registered is what was asked for, each function once, in button order.
pub proof fn law_functions_are_registered_in_button_order(functions: Seq<Function>)
    ensures
        forall|f: Function| chosen(functions).contains(f) <==> functions.contains(f),
        forall|i: int, j: int|
            0 <= i < j < chosen(functions).len() ==> (#[trigger] chosen(functions)[i]).index() < (
            #[trigger] chosen(functions)[j]).index(),
{
    let c = chosen(functions);
    assert forall|f: Function| c.contains(f) <==> functions.contains(f) by {
        if functions.contains(f) {
            let a: int = if functions.contains(Function::File) {
                1
            } else {
                0
            };
            let b: int = a + if functions.contains(Function::Image) {
                1int
            } else {
                0
            };
            let d: int = b + if functions.contains(Function::Ocr) {
                1int
            } else {
                0
            };
            match f {
                Function::File => {
                    assert(c[0] == f);
                },
                Function::Image => {
                    assert(c[a] == f);
                },
                Function::Ocr => {
                    assert(c[b] == f);
                },
                Function::Email => {
                    assert(c[d] == f);
                },
            }
        }
    }
}

/// A round that failed is tried again at a twelfth of the lease, to the nanosecond, where that
/// is between five and sixty seconds; of a shorter lease after five, of a longer one after
/// sixty. A longer lease is never retried sooner.
pub proof fn law_a_retry_is_a_twelfth_of_the_lease(duration: nat, longer: nat)
    ensures
        60_000_000_000 <= duration <= 720_000_000_000 ==> 12 * retrial(duration) <= duration < 12
            * retrial(duration) + 12,
        duration < 60_000_000_000 ==> retrial(duration) == 5_000_000_000,
        duration > 720_000_000_000 ==> retrial(duration) == 60_000_000_000,
        duration <= longer ==> retrial(duration) <= retrial(longer) && renewal(duration) <= renewal(
            longer,
        ),
{
}

/// An exchange counts as a yes exactly where an answer came that is a response to that very
/// request and reports no error; silence is unreachable, an error that the device reports is
/// its refusal, and any other answer is unexpected.
pub proof fn law_only_a_yes_is_a_yes(
    device: Ipv4Addr,
    request_id: i32,
    function: Option<Function>,
    answer: Result<MessageView, TransportErrorView>,
)
    ensures
        failure(device, request_id, function, answer) is None <==> (answer matches Ok(m)
            && m.pdu.kind == PduKind::Response && m.pdu.request_id == request_id
            && m.pdu.error_status == ErrorStatus::NoError),
        answer is Err <==> (failure(device, request_id, function, answer) matches Some(e) && e
            is Unreachable),
        failure(device, request_id, function, answer) matches Some(
            RegistrarErrorView::Refused { device: d, function: f, status },
        ) ==> d == device && f == function && (answer matches Ok(m) && m.pdu.error_status == status
            && m.pdu.kind == PduKind::Response && m.pdu.request_id == request_id && status
            != ErrorStatus::NoError),
        answer matches Ok(m) ==> (m.pdu.kind != PduKind::Response || m.pdu.request_id != request_id
            ==> failure(device, request_id, function, answer) is Some && failure(
            device,
            request_id,
            function,
            answer,
        )->Some_0 is Unexpected),
{
}

/// What is reported of a failure: a device that is silent is not reachable, one that refused
/// does not support the operation, and anything else is said in words that name the scanner.
pub proof fn law_a_failure_is_reported_for_what_it_is(e: RegistrarErrorView, scanner: Seq<char>)
    ensures
        backend_error_of(e, scanner) is NotReachable <==> e is Unreachable,
        backend_error_of(e, scanner) is Unsupported <==> e is Refused,
        match backend_error_of(e, scanner) {
            BackendErrorView::NotReachable { scanner: s, detail } => s == scanner && detail
                == registrar_error_text(e),
            BackendErrorView::Unsupported { .. } => true,
            BackendErrorView::Other(said) => text::begins(said, "scanner "@ + scanner)
                && text::ends(said, registrar_error_text(e)),
            _ => false,
        },
        e matches RegistrarErrorView::Unreachable { device, .. } ==> text::begins(
            registrar_error_text(e),
            ipv4_text(device),
        ),
        e matches RegistrarErrorView::Refused { device, .. } ==> text::begins(
            registrar_error_text(e),
            ipv4_text(device),
        ),
        e matches RegistrarErrorView::Unexpected { device, reason } ==> text::begins(
            registrar_error_text(e),
            ipv4_text(device),
        ) && text::ends(registrar_error_text(e), reason),
{
    let words = registrar_error_text(e);
    match backend_error_of(e, scanner) {
        BackendErrorView::Other(said) => {
            let front = "scanner "@ + scanner;
            assert(said.take(front.len() as int) =~= front);
            assert(said.skip(said.len() - words.len()) =~= words);
        },
        _ => {},
    }
    match e {
        RegistrarErrorView::Unreachable { device, .. } => {
            assert(words.take(ipv4_text(device).len() as int) =~= ipv4_text(device));
        },
        RegistrarErrorView::Refused { device, .. } => {
            assert(words.take(ipv4_text(device).len() as int) =~= ipv4_text(device));
        },
        RegistrarErrorView::Unexpected { device, reason } => {
            assert(words.take(ipv4_text(device).len() as int) =~= ipv4_text(device));
            assert(words.skip(words.len() - reason.len()) =~= reason);
        },
        _ => {},
    }
}

/// The address that is advertised is an IPv4 address that is bound: any but the unspecified
/// one will do, and no other kind.
pub proof fn law_only_a_bound_address_is_advertised(device: Ipv4Addr, ip: Ipv4Addr, text: String)
    ensures
        unroutable(device, LocalAddress::V4(ip)) is None <==> ip.a != 0 || ip.b != 0 || ip.c != 0
            || ip.d != 0,
        unroutable(device, LocalAddress::V6(text)) is Some,
{
}

/// A start asks for the address where any function is to be registered, and does nothing at all
/// where none is.
pub proof fn law_a_start_begins_with_the_address(
    s: RegistrarView,
    functions: Seq<Function>,
    f: Function,
)
    ensures
        functions.contains(f) ==> started(s, functions).1 is AskHost && started(
            s,
            functions,
        ).0.functions.contains(f) && started(s, functions).0.phase is FirstHost,
        functions.len() == 0 ==> started(s, functions).1 is Nothing && started(
            s,
            functions,
        ).0.functions.len() == 0,
        started(s, functions).0.device == s.device && started(s, functions).0.user == s.user
            && started(s, functions).0.duration == s.duration && started(
            s,
            functions,
        ).0.next_request == s.next_request,
{
    law_functions_are_registered_in_button_order(functions);
    if functions.contains(f) {
        assert(chosen(functions).contains(f));
    }
}

/// What is sent for a function is a write to the device's registration object, under the
/// registrar's own community and id, of who registers, from where, for which key and for how
/// long.
pub proof fn law_a_registration_says_who_and_where(s: RegistrarView, host: Ipv4Addr, f: Function)
    ensures
        ({
            let m = registering(s, host, f);
            let r = registration_of(s, host, f);
            &&& m.pdu.kind == PduKind::SetRequest && m.pdu.request_id == s.next_request
            &&& m.community == encode_utf8(s.community)
            &&& m.pdu.error_status.number() == 0
            &&& m.pdu.varbinds.len() == 1 && m.pdu.varbinds[0].oid == registration_arcs()
            &&& r.user == s.user && r.host == host && r.port == 54925 && r.duration == s.duration
            &&& r.function.index() == f.index()
        }),
{
}

/// A host is called by the first label of its hostname, cut to its letters and digits and to
/// fifteen of them, whatever its domain; by its whole name where that label has none; and it
/// has a name that a device takes in any case.
pub proof fn law_a_panel_shows_the_first_label(label: Seq<char>, domain: Seq<char>)
    requires
        !label.contains('.'),
    ensures
        ({
            let named = label + seq!['.'] + domain;
            let short = first_alnums(label, 15);
            &&& short.len() > 0 ==> panel_name_of(label) == short && panel_name_of(named) == short
            &&& short.len() == 0 && first_alnums(named, 15).len() > 0 ==> panel_name_of(named)
                == first_alnums(named, 15)
            &&& short.len() == 0 ==> panel_name_of(label) == "scanbus"@
            &&& valid_user(label) ==> panel_name_of(named) == label && panel_name_of(label) == label
            &&& valid_user(panel_name_of(named))
        }),
{
    let named = label + seq!['.'] + domain;
    text::lemma_split_first(label, '.', domain);
    text::lemma_split_none(label, '.');
    assert(before(label, '.') =~= label);
    assert(before(named, '.') =~= label);
    lemma_first_alnums(label, 15);
    lemma_first_alnums(named, 15);
    if valid_user(label) {
        law_a_name_keeps_letters_and_digits(label, ' ', seq![], 15);
        assert(label + Seq::<char>::empty() =~= label);
        assert(label + first_alnums(seq![], (15 - label.len()) as nat) =~= label);
    }
    reveal_strlit("scanbus");
    let fallback = "scanbus"@;
    assert(fallback.len() == 7);
    assert forall|i: int| 0 <= i < fallback.len() implies text::is_alnum(#[trigger] fallback[i]) by {
        assert(i == 0 || i == 1 || i == 2 || i == 3 || i == 4 || i == 5 || i == 6);
    }
}

/// A lease that is registered is of whole seconds that fit the field for them: from one to the
/// largest that 32 bits hold. With any other nothing is sent and the start fails.
pub proof fn law_a_lease_must_fit_its_field(s: RegistrarView, host: Ipv4Addr)
    requires
        s.phase is FirstHost,
        s.functions.len() > 0,
    ensures
        lease_fits(s.duration) <==> 1_000_000_000 <= s.duration < 4_294_967_296 * 1_000_000_000,
        lease_fits(s.duration) ==> routed(s, Ok(host)).1 == ActionView::Exchange(
            registering(s, host, s.functions[0]),
        ),
        !lease_fits(s.duration) ==> routed(s, Ok(host)).1 is Failed,
{
}

/// A start is over with the device's yes to the last function, and the first renewal then comes
/// at half of the lease; a no to any of them ends it, with what the device said.
pub proof fn law_a_start_is_over_with_the_last_yes(
    s: RegistrarView,
    answer: Result<MessageView, TransportErrorView>,
)
    requires
        s.phase is First,
    ensures
        match s.phase {
            Phase::First { host, index, request_id } => {
                let why = failure(s.device, request_id, function_at(s, index), answer);
                &&& why is None && index + 1 >= s.functions.len() ==> (answered(
                    s,
                    answer,
                ).1 matches ActionView::Started(delay) && 2 * delay <= s.duration < 2 * delay + 2
                    && answered(s, answer).0.phase == Phase::Waiting { host })
                &&& why matches Some(e) ==> answered(s, answer).1 == ActionView::Failed(e)
                &&& why is None && index + 1 < s.functions.len() && lease_fits(s.duration)
                    ==> answered(s, answer).1 == ActionView::Exchange(
                    registering(s, host, s.functions[index as int + 1]),
                )
            },
            _ => true,
        },
{
}

/// Without an address a start fails and a refresh is put off to the retry delay, with the
/// address from before still at hand.
pub proof fn law_no_address_is_no_round(s: RegistrarView, source: TransportErrorView)
    ensures
        s.phase is FirstHost ==> routed(s, Err(source)).1 == ActionView::Failed(
            RegistrarErrorView::Unreachable { device: s.device, source },
        ),
        s.phase matches Phase::RefreshHost { host } ==> routed(s, Err(source)).1
            == ActionView::Sleep(retrial(s.duration)) && routed(s, Err(source)).0.phase
            == (Phase::Waiting { host }) && routed(s, Err(source)).0.functions == s.functions,
{
}

/// Request ids count up by one, and start over from the smallest behind the largest.
pub proof fn law_request_ids_count_up(id: i32, other: i32)
    ensures
        id < 0x7fff_ffff ==> following(id) == id + 1,
        id == 0x7fff_ffff ==> following(id) == -0x8000_0000,
        following(id) == following(other) ==> id == other,
{
}

} // verus!
